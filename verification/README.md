# promptfuzz

Verified pieces of a prompt-based fuzz-driver generator, written in Verus.

- `src/analysis/header.rs` reads the compiler's include listing (`clang++ -H`) into header
  dependency trees, strips the include directory from their names, finds the top-level
  headers a program should include (those no other header includes, or a smallest cover,
  found greedily, when headers include each other in cycles), and collects the system
  headers they use.
- `src/analysis/include_graph.rs` computes which headers are reachable by inclusion.
- `src/request/prompt.rs` counts how often each library function has been prompted,
  reads and writes the counter and the last prompt as JSON, and builds the prompt's
  messages from templates.
- `src/request/http.rs` holds the chat-completion client's data and decisions: request
  validation, header fields, message conversion, the retry steps, the reading of response
  bodies, token sums, and the stripping of the code fence from a model's answer.
- `src/text.rs` holds the character-level string operations these use, each with its
  specification (`replace`, `trim`, `lines`, `find`, lexicographic order, ...).

`app/` is the unverified I/O around the library: running the compiler, the files that keep
the prompt counter and the last prompt, JSON, and the HTTP requests.
