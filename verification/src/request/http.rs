//! The data and the decisions of the chat-completion client.
use vstd::prelude::*;
use vstd::string::StrSliceExecFns;
use vstd::string::StringExecFns;
use core::time::Duration;
use crate::request::prompt::{
    distinct_names, entries_map, lemma_entries_map, lemma_entries_map_push,
    lemma_entries_map_update,
};
use crate::text::{
    same_str,
    chars_of, find_first, find_first_exec, find_last, find_last_exec, has_prefix, owned,
    starts_with_str, trim_bounds, trimmed, is_white_space, trim_start, trim_end, occurs_at, find_from,
};

verus! {

broadcast use vstd::string::group_string_axioms;

/// Token counts of chat completions.
#[derive(Debug, Clone)]
pub struct TokenUsage {
    pub prompt_tokens: u32,
    pub completion_tokens: u32,
    pub total_tokens: u32,
}

impl Default for TokenUsage {
    fn default() -> (r: Self)
        ensures
            r.prompt_tokens == 0 && r.completion_tokens == 0 && r.total_tokens == 0,
    {
        TokenUsage { prompt_tokens: 0, completion_tokens: 0, total_tokens: 0 }
    }
}

/// The token counts that a chat-completion response reports.
#[derive(Debug, Clone)]
pub struct OpenAIUsage {
    pub prompt_tokens: u32,
    pub completion_tokens: u32,
    pub total_tokens: u32,
    pub cache_creation_input_tokens: u32,
    pub cache_read_input_tokens: u32,
}

impl TokenUsage {
    pub fn new(prompt_tokens: u32, completion_tokens: u32, total_tokens: u32) -> (r: Self)
        ensures
            r.prompt_tokens == prompt_tokens,
            r.completion_tokens == completion_tokens,
            r.total_tokens == total_tokens,
    {
        TokenUsage { prompt_tokens, completion_tokens, total_tokens }
    }

    /// The prompt, completion and total counts of a response's usage.
    pub fn from_openai_usage(usage: &OpenAIUsage) -> (r: Self)
        ensures
            r.prompt_tokens == usage.prompt_tokens,
            r.completion_tokens == usage.completion_tokens,
            r.total_tokens == usage.total_tokens,
    {
        TokenUsage {
            prompt_tokens: usage.prompt_tokens,
            completion_tokens: usage.completion_tokens,
            total_tokens: usage.total_tokens,
        }
    }

    /// Adds `other`'s counts to these, count by count.
    pub fn add(&mut self, other: &TokenUsage)
        requires
            old(self).prompt_tokens + other.prompt_tokens <= u32::MAX,
            old(self).completion_tokens + other.completion_tokens <= u32::MAX,
            old(self).total_tokens + other.total_tokens <= u32::MAX,
        ensures
            final(self).prompt_tokens == old(self).prompt_tokens + other.prompt_tokens,
            final(self).completion_tokens == old(self).completion_tokens + other.completion_tokens,
            final(self).total_tokens == old(self).total_tokens + other.total_tokens,
    {
        self.prompt_tokens = self.prompt_tokens + other.prompt_tokens;
        self.completion_tokens = self.completion_tokens + other.completion_tokens;
        self.total_tokens = self.total_tokens + other.total_tokens;
    }
}

/// The sums of the prompt, completion and total counts of `s`.
pub open spec fn usage_sums(s: Seq<TokenUsage>) -> (int, int, int)
    decreases s.len(),
{
    if s.len() == 0 {
        (0, 0, 0)
    } else {
        let r = usage_sums(s.drop_last());
        (
            r.0 + s.last().prompt_tokens,
            r.1 + s.last().completion_tokens,
            r.2 + s.last().total_tokens,
        )
    }
}

proof fn lemma_usage_sums_mono(s: Seq<TokenUsage>, i: int)
    requires
        0 <= i <= s.len(),
    ensures
        usage_sums(s.take(i)).0 <= usage_sums(s).0,
        usage_sums(s.take(i)).1 <= usage_sums(s).1,
        usage_sums(s.take(i)).2 <= usage_sums(s).2,
    decreases s.len() - i,
{
    if i < s.len() {
        lemma_usage_sums_mono(s, i + 1);
        assert(s.take(i + 1).drop_last() =~= s.take(i));
    } else {
        assert(s.take(i) =~= s);
    }
}

/// The usage of several completions together: the counts added up, one completion
/// after the other, from zero.
pub fn total_token_usage(usages: &Vec<TokenUsage>) -> (r: TokenUsage)
    requires
        usage_sums(usages@).0 <= u32::MAX,
        usage_sums(usages@).1 <= u32::MAX,
        usage_sums(usages@).2 <= u32::MAX,
    ensures
        r.prompt_tokens == usage_sums(usages@).0,
        r.completion_tokens == usage_sums(usages@).1,
        r.total_tokens == usage_sums(usages@).2,
{
    let mut total = TokenUsage::default();
    let mut i: usize = 0;
    assert(usages@.take(0) =~= Seq::<TokenUsage>::empty());
    while i < usages.len()
        invariant
            i <= usages.len(),
            usage_sums(usages@).0 <= u32::MAX,
            usage_sums(usages@).1 <= u32::MAX,
            usage_sums(usages@).2 <= u32::MAX,
            total.prompt_tokens == usage_sums(usages@.take(i as int)).0,
            total.completion_tokens == usage_sums(usages@.take(i as int)).1,
            total.total_tokens == usage_sums(usages@.take(i as int)).2,
        decreases usages.len() - i,
    {
        proof {
            assert(usages@.take(i + 1).drop_last() =~= usages@.take(i as int));
            lemma_usage_sums_mono(usages@, i + 1);
        }
        total.add(&usages[i]);
        i = i + 1;
    }
    assert(usages@.take(usages.len() as int) =~= usages@);
    total
}

/// A chat message of the completion API.
#[derive(Debug, Clone)]
pub struct OpenAIMessage {
    pub role: String,
    pub content: String,
    pub name: Option<String>,
}

/// Builds chat messages.
pub struct OpenAIMessageBuilder;

impl OpenAIMessageBuilder {
    /// A system message with `content` and no name.
    pub fn system(content: &str) -> (r: OpenAIMessage)
        ensures
            r.role@ == "system"@,
            r.content@ == content@,
            r.name is None,
    {
        OpenAIMessage { role: owned("system"), content: owned(content), name: None }
    }

    /// A user message with `content` and no name.
    pub fn user(content: &str) -> (r: OpenAIMessage)
        ensures
            r.role@ == "user"@,
            r.content@ == content@,
            r.name is None,
    {
        OpenAIMessage { role: owned("user"), content: owned(content), name: None }
    }

    /// An assistant message with `content` and no name.
    pub fn assistant(content: &str) -> (r: OpenAIMessage)
        ensures
            r.role@ == "assistant"@,
            r.content@ == content@,
            r.name is None,
    {
        OpenAIMessage { role: owned("assistant"), content: owned(content), name: None }
    }

    /// `message` with its name set to `name`.
    pub fn with_name(message: OpenAIMessage, name: &str) -> (r: OpenAIMessage)
        ensures
            r.role == message.role,
            r.content == message.content,
            r.name matches Some(n) && n@ == name@,
    {
        let mut message = message;
        message.name = Some(owned(name));
        message
    }
}

} // verus!

verus! {

/// Why a chat-completion request is refused before it is sent.
#[derive(Debug)]
pub enum RequestError {
    EmptyModel,
    EmptyMessages,
    InvalidRole { role: String },
    EmptyContent,
}

/// The roles a request may give its messages.
pub open spec fn valid_role(role: Seq<char>) -> bool {
    role == "system"@ || role == "user"@ || role == "assistant"@
}

/// A message with a valid role and some content.
pub open spec fn valid_message(m: OpenAIMessage) -> bool {
    valid_role(m.role@) && m.content@.len() > 0
}

/// Checks a request for the model `model` with the messages `messages`: the model is
/// named, there are messages, and each message, in order, has the role `system`, `user`
/// or `assistant` and some content. The first failing check gives the error.
pub fn validate_openai_request(model: &str, messages: &[OpenAIMessage]) -> (r: Result<(), RequestError>)
    ensures
        match r {
            Ok(()) => model@.len() > 0 && messages@.len() > 0 && forall|i: int|
                0 <= i < messages@.len() ==> #[trigger] valid_message(messages@[i]),
            Err(RequestError::EmptyModel) => model@.len() == 0,
            Err(RequestError::EmptyMessages) => model@.len() > 0 && messages@.len() == 0,
            Err(RequestError::InvalidRole { role }) => model@.len() > 0 && exists|i: int|
                0 <= i < messages@.len() && (forall|k: int|
                    0 <= k < i ==> #[trigger] valid_message(messages@[k])) && !valid_role(
                    messages@[i].role@,
                ) && role@ == messages@[i].role@,
            Err(RequestError::EmptyContent) => model@.len() > 0 && exists|i: int|
                0 <= i < messages@.len() && (forall|k: int|
                    0 <= k < i ==> #[trigger] valid_message(messages@[k])) && valid_role(
                    messages@[i].role@,
                ) && messages@[i].content@.len() == 0,
        },
{
    if model.is_empty() {
        return Err(RequestError::EmptyModel);
    }
    if messages.len() == 0 {
        return Err(RequestError::EmptyMessages);
    }
    let system = "system";
    let user = "user";
    let assistant = "assistant";
    proof {
        reveal_strlit("system");
        reveal_strlit("user");
        reveal_strlit("assistant");
    }
    let mut i: usize = 0;
    while i < messages.len()
        invariant
            system@ == "system"@,
            user@ == "user"@,
            assistant@ == "assistant"@,
            model@.len() > 0,
            i <= messages@.len(),
            forall|k: int| 0 <= k < i ==> #[trigger] valid_message(messages@[k]),
        decreases messages@.len() - i,
    {
        let message = &messages[i];
        assert(*message == messages@[i as int]);
        let role = message.role.as_str();
        let ok_role = crate::text::same_str(role, system) || crate::text::same_str(role, user)
            || crate::text::same_str(role, assistant);
        assert(ok_role == valid_role(messages@[i as int].role@));
        if !ok_role {
            let r = owned(role);
            assert(r@ == messages@[i as int].role@);
            return Err(RequestError::InvalidRole { role: r });
        }
        if message.content.as_str().is_empty() {
            assert(messages@[i as int].content@.len() == 0);
            return Err(RequestError::EmptyContent);
        }
        assert(valid_message(messages@[i as int]));
        i = i + 1;
    }
    Ok(())
}

/// The content of a chat message of the `async_openai` request types, as far as the
/// conversion reads it: its text, or that it is made of parts.
#[derive(Debug, Clone)]
pub enum MessageContent {
    Text(String),
    Parts,
}

/// A chat message of the `async_openai` request types, as far as the conversion reads it.
#[derive(Debug, Clone)]
pub enum ChatMessage {
    System(MessageContent),
    User(MessageContent),
    Assistant(Option<MessageContent>),
    Tool(MessageContent),
    Function(Option<String>),
    Developer(MessageContent),
}

/// The role a converted message gets.
pub open spec fn chat_role(m: ChatMessage) -> Seq<char> {
    match m {
        ChatMessage::System(_) => "system"@,
        ChatMessage::User(_) => "user"@,
        ChatMessage::Assistant(_) => "assistant"@,
        ChatMessage::Tool(_) => "tool"@,
        ChatMessage::Function(_) => "function"@,
        ChatMessage::Developer(_) => "developer"@,
    }
}

/// The content a converted message gets: the text, or a placeholder for content made of
/// parts, or nothing.
pub open spec fn chat_content(m: ChatMessage) -> Seq<char> {
    match m {
        ChatMessage::System(MessageContent::Text(t)) => t@,
        ChatMessage::System(MessageContent::Parts) => "System message with array content"@,
        ChatMessage::User(MessageContent::Text(t)) => t@,
        ChatMessage::User(MessageContent::Parts) => "User message with array content"@,
        ChatMessage::Assistant(Some(MessageContent::Text(t))) => t@,
        ChatMessage::Assistant(Some(MessageContent::Parts)) => "Assistant message with array content"@,
        ChatMessage::Assistant(None) => Seq::empty(),
        ChatMessage::Tool(MessageContent::Text(t)) => t@,
        ChatMessage::Tool(MessageContent::Parts) => "Tool message with array content"@,
        ChatMessage::Function(Some(t)) => t@,
        ChatMessage::Function(None) => Seq::empty(),
        ChatMessage::Developer(MessageContent::Text(t)) => t@,
        ChatMessage::Developer(MessageContent::Parts) => "Developer message with array content"@,
    }
}

fn content_text(c: &MessageContent, placeholder: &str) -> (r: String)
    ensures
        r@ == match c {
            MessageContent::Text(t) => t@,
            MessageContent::Parts => placeholder@,
        },
{
    match c {
        MessageContent::Text(t) => t.clone(),
        MessageContent::Parts => owned(placeholder),
    }
}

/// Converts a chat message into a message of this client, without a name.
pub fn convert_chat_message(message: &ChatMessage) -> (r: OpenAIMessage)
    ensures
        r.role@ == chat_role(*message),
        r.content@ == chat_content(*message),
        r.name is None,
{
    let (role, content) = match message {
        ChatMessage::System(c) => (owned("system"), content_text(c, "System message with array content")),
        ChatMessage::User(c) => (owned("user"), content_text(c, "User message with array content")),
        ChatMessage::Assistant(c) => {
            let content = match c {
                Some(c) => content_text(c, "Assistant message with array content"),
                None => String::new(),
            };
            (owned("assistant"), content)
        },
        ChatMessage::Tool(c) => (owned("tool"), content_text(c, "Tool message with array content")),
        ChatMessage::Function(c) => {
            let content = match c {
                Some(t) => t.clone(),
                None => String::new(),
            };
            (owned("function"), content)
        },
        ChatMessage::Developer(c) => (owned("developer"), content_text(c, "Developer message with array content")),
    };
    OpenAIMessage { role, content, name: None }
}

} // verus!

verus! {

/// `s` without a leading "```" followed by `pat`, when it starts with them.
pub open spec fn strip_fenced_prefix(s: Seq<char>, pat: Seq<char>) -> Seq<char> {
    if has_prefix(s, "```"@ + pat) {
        s.skip(("```"@ + pat).len() as int)
    } else {
        s
    }
}

/// The code after its opening fence, with the language tags `cpp`, `CPP`, `C++`, `c++`,
/// `c` and `C` and then a newline stripped, each where it follows a fence.
pub open spec fn strip_fence_tags(s: Seq<char>) -> Seq<char> {
    let s1 = strip_fenced_prefix(s, "cpp"@);
    let s2 = strip_fenced_prefix(s1, "CPP"@);
    let s3 = strip_fenced_prefix(s2, "C++"@);
    let s4 = strip_fenced_prefix(s3, "c++"@);
    let s5 = strip_fenced_prefix(s4, "c"@);
    let s6 = strip_fenced_prefix(s5, "C"@);
    strip_fenced_prefix(s6, "\n"@)
}

/// The program in a model's answer: the text before the first fence becomes a leading
/// comment, the fence and its language tag are dropped, and so is everything from the
/// last fence on.
pub open spec fn stripped_code(input: Seq<char>) -> Seq<char> {
    let t = trimmed(input);
    let event = match find_first(t, "```"@) {
        Some(i) => t.take(i),
        None => Seq::empty(),
    };
    let rest = match find_first(t, "```"@) {
        Some(i) => t.skip(i),
        None => t,
    };
    let b = strip_fence_tags(rest);
    let body = match find_last(b, "```"@) {
        Some(j) => b.take(j),
        None => b,
    };
    "/*"@ + event + "*/\n"@ + body
}

/// `input` without a leading "```" followed by `pat`.
pub fn strip_code_prefix<'a>(input: &'a str, pat: &str) -> (r: &'a str)
    ensures
        r@ == strip_fenced_prefix(input@, pat@),
{
    let mut p = owned("```");
    p.append(pat);
    if starts_with_str(input, p.as_str()) {
        let plen = p.as_str().unicode_len();
        input.substring_char(plen, input.unicode_len())
    } else {
        input
    }
}

/// The program in a model's answer (see `stripped_code`).
pub fn strip_code_wrapper(input: &str) -> (r: String)
    ensures
        r@ == stripped_code(input@),
{
    let v = chars_of(input);
    let (a, b) = trim_bounds(&v, 0, v.len());
    assert(v@.subrange(0, v@.len() as int) =~= input@);
    let t = input.substring_char(a, b);
    let tv = chars_of(t);
    let fence_lit = "```";
    let fence = chars_of(fence_lit);
    let empty = "";
    proof {
        reveal_strlit("");
    }
    let (event, rest) = match find_first_exec(&tv, &fence) {
        Some(i) => (t.substring_char(0, i), t.substring_char(i, tv.len())),
        None => (empty, t),
    };
    assert(event@ =~= match find_first(t@, "```"@) {
        Some(i) => t@.take(i),
        None => Seq::empty(),
    });
    assert(rest@ =~= match find_first(t@, "```"@) {
        Some(i) => t@.skip(i),
        None => t@,
    });
    let rest = strip_code_prefix(rest, "cpp");
    let rest = strip_code_prefix(rest, "CPP");
    let rest = strip_code_prefix(rest, "C++");
    let rest = strip_code_prefix(rest, "c++");
    let rest = strip_code_prefix(rest, "c");
    let rest = strip_code_prefix(rest, "C");
    let rest = strip_code_prefix(rest, "\n");
    let rv = chars_of(rest);
    let body = match find_last_exec(&rv, &fence) {
        Some(j) => {
            proof {
                crate::text::lemma_find_last_bounds(rv@, fence@);
            }
            rest.substring_char(0, j)
        },
        None => rest,
    };
    let mut out = owned("/*");
    out.append(event);
    out.append("*/\n");
    out.append(body);
    out
}

/// The program that a completion gives: the content of its first choice, without the code
/// fence around it; none when the completion has no choices.
pub fn program_of_choices(choice_contents: &Vec<String>) -> (r: Option<String>)
    ensures
        choice_contents.len() == 0 ==> r is None,
        choice_contents.len() > 0 ==> r is Some && r->Some_0@ == stripped_code(choice_contents@[0]@),
{
    if choice_contents.len() == 0 {
        None
    } else {
        Some(strip_code_wrapper(choice_contents[0].as_str()))
    }
}

} // verus!

verus! {

/// HTTP header fields: names with their values, each name once.
#[derive(Debug)]
pub struct Headers {
    entries: Vec<(String, String)>,
}

impl View for Headers {
    type V = Map<Seq<char>, Seq<char>>;

    closed spec fn view(&self) -> Map<Seq<char>, Seq<char>> {
        entries_map(self.entries@).map_values(|v: String| v@)
    }
}

proof fn lemma_map_values_insert(m: Map<Seq<char>, String>, k: Seq<char>, v: String)
    ensures
        m.insert(k, v).map_values(|s: String| s@) == m.map_values(|s: String| s@).insert(k, v@),
{
    assert(m.insert(k, v).map_values(|s: String| s@) =~= m.map_values(|s: String| s@).insert(k, v@));
}

impl Headers {
    /// No header name occurs twice.
    #[verifier::type_invariant]
    closed spec fn no_repeated_name(&self) -> bool {
        distinct_names(self.entries@)
    }

    /// No header fields.
    pub fn new() -> (r: Self)
        ensures
            r@ == Map::<Seq<char>, Seq<char>>::empty(),
    {
        let r = Headers { entries: Vec::new() };
        assert(r.entries@ =~= Seq::<(String, String)>::empty());
        assert(r@ =~= Map::<Seq<char>, Seq<char>>::empty());
        r
    }

    /// Sets the field `name` to `value`, replacing any value it had.
    pub fn insert(&mut self, name: String, value: String)
        ensures
            final(self)@ == old(self)@.insert(name@, value@),
    {
        proof {
            use_type_invariant(&*self);
            lemma_entries_map(self.entries@);
        }
        let ghost old_map = entries_map(self.entries@);
        let mut entries: Vec<(String, String)> = Vec::new();
        std::mem::swap(&mut entries, &mut self.entries);
        let mut i: usize = 0;
        while i < entries.len()
            invariant
                i <= entries.len(),
                distinct_names(entries@),
                entries@ == old(self).entries@,
                forall|k: int| 0 <= k < i ==> (#[trigger] entries@[k]).0@ != name@,
            decreases entries.len() - i,
        {
            if same_str(entries[i].0.as_str(), name.as_str()) {
                let ghost (g, v) = (name, value);
                proof {
                    lemma_entries_map_update(entries@, i as int, (g, v));
                    lemma_map_values_insert(old_map, g@, v);
                }
                entries.set(i, (name, value));
                self.entries = entries;
                return;
            }
            i = i + 1;
        }
        let ghost (g, v) = (name, value);
        proof {
            lemma_entries_map(entries@);
            lemma_entries_map_push(entries@, (g, v));
            lemma_map_values_insert(old_map, g@, v);
        }
        entries.push((name, value));
        self.entries = entries;
    }

    /// The value of the field `name`, if it is set.
    pub fn get(&self, name: &str) -> (r: Option<&str>)
        ensures
            match r {
                Some(v) => self@.contains_key(name@) && self@[name@] == v@,
                None => !self@.contains_key(name@),
            },
    {
        proof {
            use_type_invariant(self);
            lemma_entries_map(self.entries@);
        }
        let mut i: usize = 0;
        while i < self.entries.len()
            invariant
                i <= self.entries.len(),
                distinct_names(self.entries@),
                forall|k: int| 0 <= k < i ==> (#[trigger] self.entries@[k]).0@ != name@,
            decreases self.entries.len() - i,
        {
            if same_str(self.entries[i].0.as_str(), name) {
                proof {
                    lemma_entries_map(self.entries@);
                    assert(entries_map(self.entries@)[self.entries@[i as int].0@] == self.entries@[i as int].1);
                }
                return Some(self.entries[i].1.as_str());
            }
            i = i + 1;
        }
        proof {
            lemma_entries_map(self.entries@);
        }
        None
    }

    /// The (name, value) fields, each name once.
    pub fn to_entries(&self) -> (r: Vec<(String, String)>)
        ensures
            forall|i: int, j: int| 0 <= i < j < r.len() ==> (#[trigger] r@[i]).0@ != (#[trigger] r@[j]).0@,
            forall|i: int| 0 <= i < r.len() ==> #[trigger] self@.contains_key(r@[i].0@) && self@[r@[i].0@] == r@[i].1@,
            forall|n: Seq<char>| #[trigger] self@.contains_key(n) ==> exists|i: int| 0 <= i < r.len() && r@[i].0@ == n,
    {
        proof {
            use_type_invariant(self);
            lemma_entries_map(self.entries@);
        }
        let mut out: Vec<(String, String)> = Vec::new();
        let mut i: usize = 0;
        while i < self.entries.len()
            invariant
                i <= self.entries.len(),
                out.len() == i,
                forall|k: int| 0 <= k < i ==> (#[trigger] out@[k]).0@ == self.entries@[k].0@
                    && out@[k].1@ == self.entries@[k].1@,
            decreases self.entries.len() - i,
        {
            let (name, value) = &self.entries[i];
            out.push((name.clone(), value.clone()));
            i = i + 1;
        }
        proof {
            assert forall|a: int, b: int| 0 <= a < b < out.len() implies (#[trigger] out@[a]).0@ != (#[trigger] out@[b]).0@ by {
                assert(self.entries@[a].0@ != self.entries@[b].0@);
            }
            assert forall|a: int| 0 <= a < out.len() implies #[trigger] self@.contains_key(out@[a].0@) && self@[out@[a].0@] == out@[a].1@ by {
                assert(entries_map(self.entries@)[self.entries@[a].0@] == self.entries@[a].1);
            }
            assert forall|n: Seq<char>| #[trigger] self@.contains_key(n) implies exists|a: int| 0 <= a < out.len() && out@[a].0@ == n by {
                assert(entries_map(self.entries@).contains_key(n));
                let a = choose|a: int| 0 <= a < self.entries@.len() && self.entries@[a].0@ == n;
                assert(out@[a].0@ == n);
            }
        }
        out
    }
}

/// Whether `http`'s `HeaderName` accepts `name` as a header name.
pub uninterp spec fn header_name_valid(name: Seq<char>) -> bool;

/// Parses `name` as a `reqwest::header::HeaderName` (`str::parse`) and tells whether that
/// succeeds. Trusted: the result is `header_name_valid` of the name.
#[verifier::external_body]
fn is_valid_header_name(name: &str) -> (r: bool)
    ensures
        r == header_name_valid(name@),
{
    name.parse::<reqwest::header::HeaderName>().is_ok()
}

/// A header value may hold any character but the control characters, tab excepted.
pub open spec fn header_value_valid(value: Seq<char>) -> bool {
    forall|i: int|
        0 <= i < value.len() ==> (value[i] as u32 >= 32 && value[i] as u32 != 127) || value[i] == '\t'
}

/// Parses `value` as a `reqwest::header::HeaderValue` (`str::parse`) and tells whether that
/// succeeds. Trusted: `HeaderValue::from_str` accepts exactly the strings whose bytes are
/// all at least 32 and not 127, or tabs; the bytes of a character from 128 on are all
/// at least 128, so these are the strings of `header_value_valid`.
#[verifier::external_body]
fn is_valid_header_value(value: &str) -> (r: bool)
    ensures
        r == header_value_valid(value@),
{
    value.parse::<reqwest::header::HeaderValue>().is_ok()
}

/// A header field that the HTTP client cannot send.
pub enum HeaderProblem {
    /// The name is no valid header name.
    InvalidName(String),
    /// The value is no valid header value.
    InvalidValue(String),
}

/// The field `f` can be sent.
pub open spec fn field_valid(f: (String, String)) -> bool {
    header_name_valid(f.0@) && header_value_valid(f.1@)
}

/// Checks the fields in order, name before value: `Ok` when every field can be sent;
/// otherwise the first problem met.
pub fn check_header_fields(fields: &Vec<(String, String)>) -> (r: Result<(), HeaderProblem>)
    ensures
        r is Ok <==> forall|i: int| 0 <= i < fields.len() ==> #[trigger] field_valid(fields@[i]),
        r matches Err(HeaderProblem::InvalidName(n)) ==> exists|i: int|
            0 <= i < fields.len() && fields@[i].0@ == n@ && !header_name_valid(n@) && forall|k: int|
                0 <= k < i ==> #[trigger] field_valid(fields@[k]),
        r matches Err(HeaderProblem::InvalidValue(v)) ==> exists|i: int|
            0 <= i < fields.len() && fields@[i].1@ == v@ && header_name_valid(fields@[i].0@)
                && !header_value_valid(v@) && forall|k: int| 0 <= k < i ==> #[trigger] field_valid(fields@[k]),
{
    let mut i: usize = 0;
    while i < fields.len()
        invariant
            i <= fields.len(),
            forall|k: int| 0 <= k < i ==> #[trigger] field_valid(fields@[k]),
        decreases fields.len() - i,
    {
        let (name, value) = &fields[i];
        if !is_valid_header_name(name.as_str()) {
            assert(!field_valid(fields@[i as int]));
            return Err(HeaderProblem::InvalidName(name.clone()));
        }
        if !is_valid_header_value(value.as_str()) {
            assert(!field_valid(fields@[i as int]));
            return Err(HeaderProblem::InvalidValue(value.clone()));
        }
        assert(field_valid(fields@[i as int]));
        i = i + 1;
    }
    Ok(())
}

} // verus!

verus! {

/// The `Duration` of `secs` whole seconds, as `Duration::from_secs` makes it.
pub uninterp spec fn duration_of_secs(secs: u64) -> Duration;

/// `Duration::from_secs(secs)` is the duration of `secs` whole seconds; as a pure
/// function of `secs`, it is named `duration_of_secs(secs)`.
pub assume_specification[ core::time::Duration::from_secs ](secs: u64) -> (d: Duration)
    ensures
        d == duration_of_secs(secs),
;

/// The settings of the chat-completion client.
#[derive(Debug)]
pub struct HttpClientConfig {
    pub base_url: String,
    pub timeout: Duration,
    pub connect_timeout: Duration,
    pub default_headers: Headers,
    pub retry_attempts: u32,
    pub retry_delay: Duration,
}

impl Default for HttpClientConfig {
    fn default() -> (r: Self)
        ensures
            r.base_url@ == "https://api.openai.com"@,
            r.timeout == duration_of_secs(180),
            r.connect_timeout == duration_of_secs(10),
            r.retry_attempts == 3,
            r.retry_delay == duration_of_secs(2),
            r.default_headers@ == Map::<Seq<char>, Seq<char>>::empty().insert(
                "Content-Type"@,
                "application/json"@,
            ).insert("User-Agent"@, "PromptFuzz-HTTP-Client/1.0"@),
    {
        let mut headers = Headers::new();
        headers.insert(owned("Content-Type"), owned("application/json"));
        headers.insert(owned("User-Agent"), owned("PromptFuzz-HTTP-Client/1.0"));
        HttpClientConfig {
            base_url: owned("https://api.openai.com"),
            timeout: Duration::from_secs(180),
            connect_timeout: Duration::from_secs(10),
            default_headers: headers,
            retry_attempts: 3,
            retry_delay: Duration::from_secs(2),
        }
    }
}

impl HttpClientConfig {
    pub fn set_base_url(&mut self, base_url: &str)
        ensures
            final(self).base_url@ == base_url@,
            final(self).timeout == old(self).timeout,
            final(self).connect_timeout == old(self).connect_timeout,
            final(self).default_headers == old(self).default_headers,
            final(self).retry_attempts == old(self).retry_attempts,
            final(self).retry_delay == old(self).retry_delay,
    {
        self.base_url = owned(base_url);
    }

    pub fn set_timeout(&mut self, timeout: Duration)
        ensures
            final(self).timeout == timeout,
            final(self).base_url == old(self).base_url,
            final(self).connect_timeout == old(self).connect_timeout,
            final(self).default_headers == old(self).default_headers,
            final(self).retry_attempts == old(self).retry_attempts,
            final(self).retry_delay == old(self).retry_delay,
    {
        self.timeout = timeout;
    }

    /// Sends `api_key` as a bearer token: the `Authorization` header becomes
    /// `Bearer <api_key>`.
    pub fn set_api_key(&mut self, api_key: &str)
        ensures
            final(self).base_url == old(self).base_url,
            final(self).timeout == old(self).timeout,
            final(self).connect_timeout == old(self).connect_timeout,
            final(self).retry_attempts == old(self).retry_attempts,
            final(self).retry_delay == old(self).retry_delay,
            final(self).default_headers@ == old(self).default_headers@.insert(
                "Authorization"@,
                "Bearer "@ + api_key@,
            ),
    {
        let k = owned("Authorization");
        let v = bearer_authorization(api_key);
        self.default_headers.insert(k, v);
    }
}

/// The value of an `Authorization` header that sends `api_key` as a bearer token.
pub fn bearer_authorization(api_key: &str) -> (r: String)
    ensures
        r@ == "Bearer "@ + api_key@,
{
    let mut r = owned("Bearer ");
    r.append(api_key);
    r
}

/// The chat-completions endpoint under `base_url`.
pub fn chat_completions_url(base_url: &str) -> (r: String)
    ensures
        r@ == base_url@ + "/chat/completions"@,
{
    let mut r = owned(base_url);
    r.append("/chat/completions");
    r
}

/// How one attempt of a request ended.
#[derive(Debug, Clone, Copy, PartialEq, Eq, Structural)]
pub enum AttemptOutcome {
    Succeeded,
    Failed,
    TimedOut,
}

/// What the client does after an attempt.
#[derive(Debug, Clone, Copy, PartialEq, Eq, Structural)]
pub enum RetryStep {
    /// Hand back the response.
    Return,
    /// Wait the retry delay, then make the next attempt.
    WaitAndRetry,
    /// No attempts are left: fail with the error of this attempt, the last one.
    GiveUp,
    /// Make the first attempt.
    Attempt,
    /// No attempt is to be made at all: fail at once, the attempts being exhausted.
    Exhausted,
}

/// The step before the first attempt of `retry_attempts`: with no attempts allowed, the
/// request fails at once as exhausted; otherwise the first attempt is made.
pub fn retry_start(retry_attempts: u32) -> (r: RetryStep)
    ensures
        r == if retry_attempts == 0 {
            RetryStep::Exhausted
        } else {
            RetryStep::Attempt
        },
{
    if retry_attempts == 0 {
        RetryStep::Exhausted
    } else {
        RetryStep::Attempt
    }
}

/// How a request fails when no attempt succeeded.
pub enum RetryFailure<E> {
    /// The error of the last attempt.
    LastError(E),
    /// No attempt was made; the count of attempts allowed.
    Exhausted(u32),
}

/// The failure of a request whose attempts failed with `attempt_errors`, in order: the
/// error of the last attempt, or, when no attempt was made, exhaustion of the
/// `retry_attempts` attempts.
pub fn retry_failure<E>(attempt_errors: Vec<E>, retry_attempts: u32) -> (r: RetryFailure<E>)
    ensures
        attempt_errors.len() == 0 ==> r == RetryFailure::<E>::Exhausted(retry_attempts),
        attempt_errors.len() > 0 ==> r == RetryFailure::LastError(attempt_errors@.last()),
{
    let mut errors = attempt_errors;
    match errors.pop() {
        Some(e) => RetryFailure::LastError(e),
        None => RetryFailure::Exhausted(retry_attempts),
    }
}

/// The step after attempt `attempt` (counted from 0) of `retry_attempts`: a success is
/// returned; a failure or a timeout is retried after the delay while attempts are left.
pub fn next_retry_step(attempt: u32, retry_attempts: u32, outcome: AttemptOutcome) -> (r: RetryStep)
    requires
        attempt < retry_attempts,
    ensures
        r == if outcome == AttemptOutcome::Succeeded {
            RetryStep::Return
        } else if attempt + 1 < retry_attempts {
            RetryStep::WaitAndRetry
        } else {
            RetryStep::GiveUp
        },
{
    match outcome {
        AttemptOutcome::Succeeded => RetryStep::Return,
        _ => {
            if attempt < retry_attempts - 1 {
                RetryStep::WaitAndRetry
            } else {
                RetryStep::GiveUp
            }
        },
    }
}

} // verus!

verus! {

/// Law: converting a message whose content is a text keeps that text as the content, and
/// a user message becomes a message of role `user` without a name.
pub proof fn law_converted_text_kept(m: &ChatMessage, r: OpenAIMessage, t: String)
    requires
        call_ensures(convert_chat_message, (m,), r),
        *m == ChatMessage::User(MessageContent::Text(t)) || *m == ChatMessage::System(
            MessageContent::Text(t),
        ) || *m == ChatMessage::Assistant(Some(MessageContent::Text(t))) || *m
            == ChatMessage::Tool(MessageContent::Text(t)) || *m == ChatMessage::Developer(
            MessageContent::Text(t),
        ) || *m == ChatMessage::Function(Some(t)),
    ensures
        r.content@ == t@,
        r.name is None,
        *m == ChatMessage::User(MessageContent::Text(t)) ==> r.role@ == seq!['u', 's', 'e', 'r'],
{
    reveal_strlit("user");
}

/// A search for `p` skips positions that do not hold its first character.
proof fn lemma_find_from_skips(s: Seq<char>, p: Seq<char>, k: int, n: int)
    requires
        0 <= k <= n,
        p.len() > 0,
        n + p.len() <= s.len(),
        forall|i: int| k <= i < n ==> s[i] != p[0],
    ensures
        find_from(s, p, k) == find_from(s, p, n),
    decreases n - k,
{
    if k < n {
        assert(s.subrange(k, k + p.len())[0] == s[k]);
        assert(!occurs_at(s, p, k));
        lemma_find_from_skips(s, p, k + 1, n);
    }
}

/// Law: an answer made of some text without backquotes and then one fenced block without a
/// language tag gives the text as a leading comment, then the code in the block.
pub proof fn law_text_then_block(input: &str, r: String, e: Seq<char>, c: Seq<char>)
    requires
        call_ensures(strip_code_wrapper, (input,), r),
        input@ == e + seq!['`', '`', '`', '\n'] + c + seq!['`', '`', '`'],
        forall|i: int| 0 <= i < e.len() ==> e[i] != '`',
        e.len() > 0 ==> !is_white_space(e[0]),
    ensures
        r@ == seq!['/', '*'] + e + seq!['*', '/', '\n'] + c,
{
    let f = seq!['`', '`', '`'];
    let s = input@;
    let blk = seq!['`', '`', '`', '\n'] + c + f;
    assert(s =~= e + blk);
    reveal_strlit("```");
    reveal_strlit("/*");
    reveal_strlit("*/\n");
    assert("```"@ =~= f);
    if e.len() > 0 {
        assert(s[0] == e[0]);
    } else {
        assert(s[0] == '`');
    }
    assert(trim_start(s) == s);
    assert(s.last() == '`');
    assert(trim_end(s) == s);
    // the first fence comes right after the text
    assert forall|i: int| 0 <= i < e.len() implies s[i] != f[0] by {
        assert(s[i] == e[i]);
    }
    lemma_find_from_skips(s, f, 0, e.len() as int);
    assert(s.subrange(e.len() as int, e.len() as int + 3) =~= f);
    assert(occurs_at(s, f, e.len() as int));
    assert(find_first(s, f) == Some(e.len() as int));
    assert(s.take(e.len() as int) =~= e);
    assert(s.skip(e.len() as int) =~= blk);
    lemma_untagged_fence_stripped(c);
    lemma_closing_fence(c);
    assert((c + f).take(c.len() as int) =~= c);
    assert(r@ =~= seq!['/', '*'] + e + seq!['*', '/', '\n'] + c);
}

/// A text that is shorter than `p`, or starts otherwise, does not start with `p`.
proof fn lemma_not_prefixed(b: Seq<char>, p: Seq<char>)
    requires
        p.len() > 0,
        b.len() < p.len() || b[0] != p[0],
    ensures
        !has_prefix(b, p),
{
    if b.len() >= p.len() {
        assert(b.take(p.len() as int)[0] == b[0]);
    }
}

/// Law: an answer that is one block fenced with the tag `cpp` gives back what follows the
/// tag, up to the closing fence, after an empty leading comment.
pub proof fn law_cpp_block_gives_its_code(input: &str, r: String, c: Seq<char>)
    requires
        call_ensures(strip_code_wrapper, (input,), r),
        input@ == seq!['`', '`', '`', 'c', 'p', 'p'] + c + seq!['`', '`', '`'],
        c.len() == 0 || c[0] != '`',
    ensures
        r@ == seq!['/', '*', '*', '/', '\n'] + c,
{
    let f = seq!['`', '`', '`'];
    let s = input@;
    reveal_strlit("```");
    reveal_strlit("cpp");
    reveal_strlit("CPP");
    reveal_strlit("C++");
    reveal_strlit("c++");
    reveal_strlit("c");
    reveal_strlit("C");
    reveal_strlit("\n");
    reveal_strlit("/*");
    reveal_strlit("*/\n");
    assert("```"@ =~= f);
    assert(s[0] == '`');
    assert(trim_start(s) == s);
    assert(s.last() == '`');
    assert(trim_end(s) == s);
    assert(s.subrange(0, 3) =~= f);
    assert(occurs_at(s, f, 0));
    assert(find_first(s, f) == Some(0int));
    assert(s.take(0) =~= Seq::<char>::empty());
    assert(s.skip(0) =~= s);
    assert(has_prefix(s, "```"@ + "cpp"@)) by {
        assert(s.take(6) =~= "```"@ + "cpp"@);
    }
    let b = c + f;
    assert(s.skip(("```"@ + "cpp"@).len() as int) =~= b);
    // what follows the tag does not start with a fence
    if c.len() > 0 {
        assert(b[0] == c[0]);
    }
    lemma_not_prefixed(b, "```"@ + "CPP"@);
    lemma_not_prefixed(b, "```"@ + "C++"@);
    lemma_not_prefixed(b, "```"@ + "c++"@);
    lemma_not_prefixed(b, "```"@ + "c"@);
    lemma_not_prefixed(b, "```"@ + "C"@);
    lemma_not_prefixed(b, "```"@ + "\n"@);
    assert(strip_fence_tags(s) =~= b);
    assert(b.subrange(c.len() as int, c.len() as int + 3) =~= f);
    assert(occurs_at(b, f, c.len() as int));
    assert(find_last(b, f) == Some(c.len() as int));
    assert(b.take(c.len() as int) =~= c);
    assert(r@ =~= seq!['/', '*', '*', '/', '\n'] + c);
}

/// After an untagged opening fence, stripping the tags drops the fence and its newline.
proof fn lemma_untagged_fence_stripped(c: Seq<char>)
    ensures
        strip_fence_tags(seq!['`', '`', '`', '\n'] + c + seq!['`', '`', '`']) == c + seq!['`', '`', '`'],
{
    let f = seq!['`', '`', '`'];
    let blk = seq!['`', '`', '`', '\n'] + c + f;
    reveal_strlit("```");
    reveal_strlit("cpp");
    reveal_strlit("CPP");
    reveal_strlit("C++");
    reveal_strlit("c++");
    reveal_strlit("c");
    reveal_strlit("C");
    reveal_strlit("\n");
    assert("```"@ =~= f);
    assert(blk[3] == '\n');
    assert(!has_prefix(blk, "```"@ + "cpp"@)) by {
        assert(("```"@ + "cpp"@)[3] == 'c');
        assert(blk.take(6)[3] == '\n');
    }
    assert(!has_prefix(blk, "```"@ + "CPP"@)) by {
        assert(("```"@ + "CPP"@)[3] == 'C');
        assert(blk.take(6)[3] == '\n');
    }
    assert(!has_prefix(blk, "```"@ + "C++"@)) by {
        assert(("```"@ + "C++"@)[3] == 'C');
        assert(blk.take(6)[3] == '\n');
    }
    assert(!has_prefix(blk, "```"@ + "c++"@)) by {
        assert(("```"@ + "c++"@)[3] == 'c');
        assert(blk.take(6)[3] == '\n');
    }
    assert(!has_prefix(blk, "```"@ + "c"@)) by {
        assert(("```"@ + "c"@)[3] == 'c');
        assert(blk.take(4)[3] == '\n');
    }
    assert(!has_prefix(blk, "```"@ + "C"@)) by {
        assert(("```"@ + "C"@)[3] == 'C');
        assert(blk.take(4)[3] == '\n');
    }
    assert(has_prefix(blk, "```"@ + "\n"@)) by {
        assert(blk.take(4) =~= "```"@ + "\n"@);
    }
    assert(blk.skip(("```"@ + "\n"@).len() as int) =~= c + f);
}

/// The last fence of a text that ends with a fence is that one.
proof fn lemma_closing_fence(c: Seq<char>)
    ensures
        find_last(c + seq!['`', '`', '`'], "```"@) == Some(c.len() as int),
{
    let f = seq!['`', '`', '`'];
    let b = c + f;
    reveal_strlit("```");
    assert("```"@ =~= f);
    assert(b.subrange(c.len() as int, c.len() as int + 3) =~= f);
    assert(occurs_at(b, f, c.len() as int));
}

/// Law: an answer that is one fenced block without a language tag gives back the code in
/// the block, after an empty leading comment: the fences are gone.
pub proof fn law_untagged_block_gives_its_code(input: &str, r: String, c: Seq<char>)
    requires
        call_ensures(strip_code_wrapper, (input,), r),
        input@ == seq!['`', '`', '`', '\n'] + c + seq!['`', '`', '`'],
    ensures
        r@ == seq!['/', '*', '*', '/', '\n'] + c,
{
    let f = seq!['`', '`', '`'];
    let s = input@;
    reveal_strlit("```");
    reveal_strlit("/*");
    reveal_strlit("*/\n");
    assert("```"@ =~= f);
    // nothing to trim: the answer starts and ends with a fence
    assert(s[0] == '`');
    assert(trim_start(s) == s);
    assert(s.last() == '`');
    assert(trim_end(s) == s);
    // the first fence opens the answer
    assert(s.subrange(0, 3) =~= f);
    assert(occurs_at(s, f, 0));
    assert(find_first(s, f) == Some(0int));
    assert(s.take(0) =~= Seq::<char>::empty());
    assert(s.skip(0) =~= s);
    lemma_untagged_fence_stripped(c);
    lemma_closing_fence(c);
    assert((c + f).take(c.len() as int) =~= c);
    assert(r@ =~= seq!['/', '*', '*', '/', '\n'] + c);
}

/// Law: a converted message keeps the role of the message it comes from, by name.
pub proof fn law_converted_role(m: &ChatMessage, r: OpenAIMessage)
    requires
        call_ensures(convert_chat_message, (m,), r),
    ensures
        *m is System ==> r.role@ == seq!['s', 'y', 's', 't', 'e', 'm'],
        *m is User ==> r.role@ == seq!['u', 's', 'e', 'r'],
        *m is Assistant ==> r.role@ == seq!['a', 's', 's', 'i', 's', 't', 'a', 'n', 't'],
        *m is Tool ==> r.role@ == seq!['t', 'o', 'o', 'l'],
        *m is Function ==> r.role@ == seq!['f', 'u', 'n', 'c', 't', 'i', 'o', 'n'],
        *m is Developer ==> r.role@ == seq!['d', 'e', 'v', 'e', 'l', 'o', 'p', 'e', 'r'],
{
    reveal_strlit("system");
    reveal_strlit("user");
    reveal_strlit("assistant");
    reveal_strlit("tool");
    reveal_strlit("function");
    reveal_strlit("developer");
}

/// Law: an assistant or function message without content converts to a message with empty
/// content.
pub proof fn law_converted_no_content_empty(m: &ChatMessage, r: OpenAIMessage)
    requires
        call_ensures(convert_chat_message, (m,), r),
        *m == ChatMessage::Assistant(None) || *m == ChatMessage::Function(None),
    ensures
        r.content@.len() == 0,
{
}

/// Law: the usage of two batches of completions together is the sum of their usages.
pub proof fn law_usage_sums_concat(a: Seq<TokenUsage>, b: Seq<TokenUsage>)
    ensures
        usage_sums(a + b).0 == usage_sums(a).0 + usage_sums(b).0,
        usage_sums(a + b).1 == usage_sums(a).1 + usage_sums(b).1,
        usage_sums(a + b).2 == usage_sums(a).2 + usage_sums(b).2,
    decreases b.len(),
{
    if b.len() == 0 {
        assert(a + b =~= a);
    } else {
        law_usage_sums_concat(a, b.drop_last());
        assert((a + b).drop_last() =~= a + b.drop_last());
        assert((a + b).last() == b.last());
    }
}

} // verus!

verus! {

/// What the client makes of a response body that does not parse as a chat completion,
/// once it has read it as JSON.
#[derive(Debug, Clone, PartialEq, Eq)]
pub enum UnparsedResponse {
    /// The body reports an error with this message.
    ApiError { message: String },
    /// The body has choices: the response is built from its fields.
    FromFields,
    /// Neither an error nor choices.
    Unexpected,
}

/// Decides about a JSON body that is not a chat completion: an `error` field makes it an
/// API error (its `message`, or `Unknown error` when that is missing or not a string);
/// otherwise a `choices` field makes it a response to build from the fields; otherwise its
/// format is unexpected.
pub fn classify_unparsed_response(
    has_error: bool,
    error_message: Option<&str>,
    has_choices: bool,
) -> (r: UnparsedResponse)
    ensures
        has_error ==> r == (UnparsedResponse::ApiError {
            message: r->ApiError_message,
        }) && r->ApiError_message@ == match error_message {
            Some(m) => m@,
            None => "Unknown error"@,
        },
        !has_error && has_choices ==> r == UnparsedResponse::FromFields,
        !has_error && !has_choices ==> r == UnparsedResponse::Unexpected,
{
    if has_error {
        let message = match error_message {
            Some(m) => owned(m),
            None => owned("Unknown error"),
        };
        UnparsedResponse::ApiError { message }
    } else if has_choices {
        UnparsedResponse::FromFields
    } else {
        UnparsedResponse::Unexpected
    }
}

/// The identifying fields of a response built from a JSON body.
#[derive(Debug, Clone)]
pub struct ResponseFields {
    pub id: String,
    pub object: String,
    pub created: u64,
    pub model: String,
}

/// The text of a field, or `default` when it is missing.
pub open spec fn text_or(v: Option<&str>, default: Seq<char>) -> Seq<char> {
    match v {
        Some(s) => s@,
        None => default,
    }
}

/// The fields of a response built from a JSON body, with the defaults for missing ones:
/// an empty `id` and `model`, `chat.completion` as `object`, and 0 as `created`.
pub fn fallback_response_fields(
    id: Option<&str>,
    object: Option<&str>,
    created: Option<u64>,
    model: Option<&str>,
) -> (r: ResponseFields)
    ensures
        r.id@ == text_or(id, Seq::empty()),
        r.object@ == text_or(object, "chat.completion"@),
        r.created == match created {
            Some(c) => c,
            None => 0,
        },
        r.model@ == text_or(model, Seq::empty()),
{
    let empty = "";
    proof {
        reveal_strlit("");
    }
    ResponseFields {
        id: owned(
            match id {
                Some(s) => s,
                None => empty,
            },
        ),
        object: owned(
            match object {
                Some(s) => s,
                None => "chat.completion",
            },
        ),
        created: match created {
            Some(c) => c,
            None => 0,
        },
        model: owned(
            match model {
                Some(s) => s,
                None => empty,
            },
        ),
    }
}

} // verus!

verus! {

/// A text field as plain characters.
pub open spec fn opt_view(s: Option<String>) -> Option<Seq<char>> {
    match s {
        Some(t) => Some(t@),
        None => None,
    }
}

/// Whether `serde_json` reads `text` as JSON.
pub uninterp spec fn json_text_parses(text: Seq<char>) -> bool;

/// Whether the JSON `text` has a value at the JSON pointer `pointer`.
pub uninterp spec fn json_present(text: Seq<char>, pointer: Seq<char>) -> bool;

/// The string at the JSON pointer `pointer` of the JSON `text`, if there is one.
pub uninterp spec fn json_str_value(text: Seq<char>, pointer: Seq<char>) -> Option<Seq<char>>;

/// The unsigned integer at the JSON pointer `pointer` of the JSON `text`, if there is one.
pub uninterp spec fn json_u64_value(text: Seq<char>, pointer: Seq<char>) -> Option<u64>;

/// Whether `serde_json::from_str` reads `text` as a `serde_json::Value`. Trusted: the
/// result is `json_text_parses` of the text.
#[verifier::external_body]
fn json_parses(text: &str) -> (r: bool)
    ensures
        r == json_text_parses(text@),
{
    serde_json::from_str::<serde_json::Value>(text).is_ok()
}

/// Reads `text` with `serde_json::from_str` and tells whether `Value::pointer` finds a value
/// at `pointer`; `false` where the text is not JSON. Trusted: the result is `json_present`
/// of the text and the pointer.
#[verifier::external_body]
fn json_has_at(text: &str, pointer: &str) -> (r: bool)
    ensures
        r == json_present(text@, pointer@),
{
    match serde_json::from_str::<serde_json::Value>(text) {
        Ok(v) => v.pointer(pointer).is_some(),
        Err(_) => false,
    }
}

/// Reads `text` with `serde_json::from_str` and takes the value at `pointer`
/// (`Value::pointer`) as a string (`Value::as_str`); `None` where any step finds nothing.
/// Trusted: the result is `json_str_value` of the text and the pointer.
#[verifier::external_body]
fn json_str_at(text: &str, pointer: &str) -> (r: Option<String>)
    ensures
        opt_view(r) == json_str_value(text@, pointer@),
{
    let v: serde_json::Value = serde_json::from_str(text).ok()?;
    v.pointer(pointer)?.as_str().map(String::from)
}

/// Reads `text` with `serde_json::from_str` and takes the value at `pointer`
/// (`Value::pointer`) as a `u64` (`Value::as_u64`); `None` where any step finds nothing.
/// Trusted: the result is `json_u64_value` of the text and the pointer.
#[verifier::external_body]
fn json_u64_at(text: &str, pointer: &str) -> (r: Option<u64>)
    ensures
        r == json_u64_value(text@, pointer@),
{
    let v: serde_json::Value = serde_json::from_str(text).ok()?;
    v.pointer(pointer)?.as_u64()
}

/// How a response body that is no chat completion is read.
pub enum ResponseReading {
    /// The body is not JSON.
    NotJson,
    /// The body reports an error with this message.
    ApiError { message: String },
    /// The body has choices: a response with these fields.
    FromFields(ResponseFields),
    /// Neither an error nor choices.
    Unexpected,
}

/// A text, or `default` when there is none.
pub open spec fn seq_or(v: Option<Seq<char>>, default: Seq<char>) -> Seq<char> {
    match v {
        Some(s) => s,
        None => default,
    }
}

fn as_str_opt(s: &Option<String>) -> (r: Option<&str>)
    ensures
        match r {
            Some(t) => s.is_some() && t@ == s.unwrap()@,
            None => s.is_none(),
        },
{
    match s {
        Some(t) => Some(t.as_str()),
        None => None,
    }
}

/// Reads a response body that does not parse as a chat completion: not JSON; an API error,
/// when it has an `error` field (its `message`, or `Unknown error`); a response built from
/// its `id`, `object`, `created` and `model` fields (with the defaults of
/// `fallback_response_fields`) when it has a `choices` field; or of an unexpected format.
pub fn read_unparsed_response(text: &str) -> (r: ResponseReading)
    ensures
        !json_text_parses(text@) ==> r is NotJson,
        json_text_parses(text@) && json_present(text@, "/error"@) ==> r is ApiError
            && r->ApiError_message@ == seq_or(json_str_value(text@, "/error/message"@), "Unknown error"@),
        json_text_parses(text@) && !json_present(text@, "/error"@) && json_present(text@, "/choices"@)
            ==> {
            &&& r is FromFields
            &&& r->FromFields_0.id@ == seq_or(json_str_value(text@, "/id"@), Seq::empty())
            &&& r->FromFields_0.object@ == seq_or(json_str_value(text@, "/object"@), "chat.completion"@)
            &&& r->FromFields_0.created == match json_u64_value(text@, "/created"@) {
                Some(c) => c,
                None => 0,
            }
            &&& r->FromFields_0.model@ == seq_or(json_str_value(text@, "/model"@), Seq::empty())
        },
        json_text_parses(text@) && !json_present(text@, "/error"@) && !json_present(text@, "/choices"@)
            ==> r is Unexpected,
{
    if !json_parses(text) {
        return ResponseReading::NotJson;
    }
    let has_error = json_has_at(text, "/error");
    let has_choices = json_has_at(text, "/choices");
    let message = json_str_at(text, "/error/message");
    let em = as_str_opt(&message);
    match classify_unparsed_response(has_error, em, has_choices) {
        UnparsedResponse::ApiError { message } => ResponseReading::ApiError { message },
        UnparsedResponse::FromFields => {
            let id = json_str_at(text, "/id");
            let object = json_str_at(text, "/object");
            let created = json_u64_at(text, "/created");
            let model = json_str_at(text, "/model");
            let id = as_str_opt(&id);
            let object = as_str_opt(&object);
            let model = as_str_opt(&model);
            ResponseReading::FromFields(fallback_response_fields(id, object, created, model))
        },
        UnparsedResponse::Unexpected => ResponseReading::Unexpected,
    }
}

} // verus!
