//! Header dependency trees of a library.
use vstd::prelude::*;
use vstd::string::StrSliceExecFns;
use crate::analysis::include_graph::{
    count_false, edge, first_true, fresh_reach, get_reachable_nodes, lemma_count_false_set,
    lemma_count_false_set_le, lemma_fresh_reach_more, lemma_reaches_trans, reach_within, reaches,
    well_formed,
};
use crate::text::{
    char_index_from, chars_of, find_char_from, has_prefix, has_suffix, lines_of, occurs_at,
    occurs_at_exec, replaced, same_str, sorted_unique, strictly_sorted, strip_cr, string_of_range,
    trim_bounds, trimmed, views, find_last, find_last_exec, string_views, owned, lex_lt,
};

verus! {

broadcast use vstd::string::group_string_axioms;

/// The mathematical value of a header dependency tree: a header name and the
/// trees of the headers it includes, in order.
pub struct HeaderTree {
    pub name: Seq<char>,
    pub children: Seq<HeaderTree>,
}

/// A node of a header dependency tree: a header and the headers it includes.
#[derive(Debug)]
pub struct TreeNode {
    pub name: String,
    pub children: Vec<TreeNode>,
}

pub open spec fn tree_view(t: TreeNode) -> HeaderTree
    decreases t,
{
    HeaderTree { name: t.name@, children: forest_view(t.children@) }
}

pub open spec fn forest_view(ts: Seq<TreeNode>) -> Seq<HeaderTree>
    decreases ts,
{
    if ts.len() == 0 {
        Seq::empty()
    } else {
        forest_view(ts.drop_last()).push(tree_view(ts.last()))
    }
}

impl View for TreeNode {
    type V = HeaderTree;

    open spec fn view(&self) -> HeaderTree {
        tree_view(*self)
    }
}

} // verus!

verus! {

/// Each element of the forest view is the view of the corresponding node.
pub proof fn lemma_forest_view(ts: Seq<TreeNode>)
    ensures
        forest_view(ts).len() == ts.len(),
        forall|i: int| 0 <= i < ts.len() ==> #[trigger] forest_view(ts)[i] == tree_view(ts[i]),
    decreases ts.len(),
{
    if ts.len() > 0 {
        lemma_forest_view(ts.drop_last());
    }
}

/// The name `TreeNode::new` gives a header: every `./` is removed.
pub open spec fn clean_name(name: Seq<char>) -> Seq<char> {
    replaced(name, seq!['.', '/'], Seq::empty())
}

/// The name of the node that stands for a header whose dependencies could not be read.
pub open spec fn invalid_name() -> Seq<char> {
    seq!['i', 'n', 'v', 'a', 'l', 'i', 'd']
}

impl TreeNode {
    /// A leaf named after `name` with every `./` removed.
    pub fn new(name: String) -> (r: Self)
        ensures
            r@ == (HeaderTree { name: clean_name(name@), children: Seq::empty() }),
    {
        let pat = "./";
        let with = "";
        proof {
            reveal_strlit("./");
            reveal_strlit("");
            assert(pat@ =~= seq!['.', '/']);
            assert(with@ =~= Seq::<char>::empty());
        }
        let name = crate::text::replace_all(name.as_str(), pat, with);
        let r = TreeNode { name, children: Vec::new() };
        assert(r.children@ =~= Seq::<TreeNode>::empty());
        assert(forest_view(r.children@) =~= Seq::<HeaderTree>::empty());
        r
    }

    /// The leaf that marks a header whose dependencies could not be read.
    pub fn new_invalid() -> (r: Self)
        ensures
            r@ == (HeaderTree { name: invalid_name(), children: Seq::empty() }),
    {
        let lit = "invalid";
        proof {
            reveal_strlit("invalid");
        }
        let r = TreeNode { name: crate::text::owned(lit), children: Vec::new() };
        assert(forest_view(r.children@) =~= Seq::<HeaderTree>::empty());
        assert(r.name@ =~= invalid_name());
        r
    }

    /// Whether this node is the invalid marker.
    pub fn is_invalid(&self) -> (b: bool)
        ensures
            b == (self@.name == invalid_name()),
    {
        let lit = "invalid";
        proof {
            reveal_strlit("invalid");
        }
        let inv = crate::text::owned(lit);
        proof {
            assert(inv@ =~= invalid_name());
        }
        self.name == inv
    }

    /// Renames this node.
    pub fn set_name(&mut self, name: String)
        ensures
            final(self)@ == (HeaderTree { name: name@, children: old(self)@.children }),
    {
        self.name = name;
    }

    /// Appends `child` to the headers this node includes.
    pub fn add_child(&mut self, child: TreeNode)
        ensures
            final(self)@ == (HeaderTree {
                name: old(self)@.name,
                children: old(self)@.children.push(child@),
            }),
    {
        let ghost old_children = self.children@;
        self.children.push(child);
        proof {
            assert(self.children@.drop_last() =~= old_children);
        }
    }

    /// The header name of this node.
    pub fn get_name(&self) -> (r: &str)
        ensures
            r@ == self@.name,
    {
        self.name.as_str()
    }
}

} // verus!

verus! {

/// A header name with the include directory `dir` and the following `/` removed,
/// when it starts with `dir`.
pub open spec fn strip_include_dir(name: Seq<char>, dir: Seq<char>) -> Seq<char> {
    if has_prefix(name, dir) {
        name.skip(dir.len() + 1 as int)
    } else {
        name
    }
}

/// A name that starts with `dir` has a `/` right after it.
pub open spec fn strippable_name(name: Seq<char>, dir: Seq<char>) -> bool {
    has_prefix(name, dir) ==> name.len() > dir.len() && name[dir.len() as int] == '/'
}

pub open spec fn tree_strippable(t: HeaderTree, dir: Seq<char>) -> bool
    decreases t,
{
    strippable_name(t.name, dir) && forest_strippable(t.children, dir)
}

pub open spec fn forest_strippable(ts: Seq<HeaderTree>, dir: Seq<char>) -> bool
    decreases ts,
{
    ts.len() == 0 || (forest_strippable(ts.drop_last(), dir) && tree_strippable(ts.last(), dir))
}

/// The tree with the include directory stripped from every name.
pub open spec fn stripped_tree(t: HeaderTree, dir: Seq<char>) -> HeaderTree
    decreases t,
{
    HeaderTree { name: strip_include_dir(t.name, dir), children: stripped_forest(t.children, dir) }
}

pub open spec fn stripped_forest(ts: Seq<HeaderTree>, dir: Seq<char>) -> Seq<HeaderTree>
    decreases ts,
{
    if ts.len() == 0 {
        Seq::empty()
    } else {
        stripped_forest(ts.drop_last(), dir).push(stripped_tree(ts.last(), dir))
    }
}

pub proof fn lemma_stripped_forest(ts: Seq<HeaderTree>, dir: Seq<char>)
    ensures
        stripped_forest(ts, dir).len() == ts.len(),
        forall|i: int|
            0 <= i < ts.len() ==> #[trigger] stripped_forest(ts, dir)[i] == stripped_tree(
                ts[i],
                dir,
            ),
        forest_strippable(ts, dir) <==> forall|i: int|
            0 <= i < ts.len() ==> #[trigger] tree_strippable(ts[i], dir),
    decreases ts.len(),
{
    if ts.len() > 0 {
        let init = ts.drop_last();
        lemma_stripped_forest(init, dir);
        if forall|i: int| 0 <= i < ts.len() ==> #[trigger] tree_strippable(ts[i], dir) {
            assert forall|i: int| 0 <= i < init.len() implies #[trigger] tree_strippable(
                init[i],
                dir,
            ) by {
                assert(init[i] == ts[i]);
                assert(tree_strippable(ts[i], dir));
            }
            assert(tree_strippable(ts[ts.len() - 1], dir));
        }
        if forest_strippable(ts, dir) {
            assert forall|i: int| 0 <= i < ts.len() implies #[trigger] tree_strippable(ts[i], dir) by {
                if i < init.len() {
                    assert(init[i] == ts[i]);
                    assert(tree_strippable(init[i], dir));
                }
            }
        }
        assert forall|i: int| 0 <= i < ts.len() implies #[trigger] stripped_forest(ts, dir)[i]
            == stripped_tree(ts[i], dir) by {
            if i < init.len() {
                assert(init[i] == ts[i]);
                assert(stripped_forest(init, dir)[i] == stripped_tree(init[i], dir));
            }
        }
    }
}

impl TreeNode {
    /// Removes the include directory `include_path` and the `/` after it from the
    /// name of every node of the tree that starts with it.
    pub fn get_clean_root(&mut self, include_path: &str)
        requires
            tree_strippable(old(self)@, include_path@),
        ensures
            final(self)@ == stripped_tree(old(self)@, include_path@),
    {
        let dir = chars_of(include_path);
        self.clean_names(&dir);
    }

    fn clean_names(&mut self, dir: &Vec<char>)
        requires
            tree_strippable(old(self)@, dir@),
        ensures
            final(self)@ == stripped_tree(old(self)@, dir@),
        decreases *old(self),
    {
        let nv = chars_of(self.name.as_str());
        if occurs_at_exec(&nv, dir, 0) {
            assert(nv@.subrange(0, dir@.len() as int) =~= nv@.take(dir@.len() as int));
            assert(nv@ == old(self)@.name);
            assert(has_prefix(nv@, dir@));
            assert(nv.len() > dir.len());
            let rest = string_of_range(&nv, dir.len() + 1, nv.len());
            assert(rest@ =~= nv@.skip(dir@.len() + 1 as int));
            self.name = rest;
        } else if dir.len() <= nv.len() {
            assert(nv@.subrange(0, dir@.len() as int) =~= nv@.take(dir@.len() as int));
        }
        let ghost new_name = self.name@;
        assert(new_name == strip_include_dir(old(self)@.name, dir@));
        let ghost old_children = self.children@;
        proof {
            lemma_forest_view(old_children);
            lemma_stripped_forest(forest_view(old_children), dir@);
            assert forall|j: int| 0 <= j < old_children.len() implies #[trigger] tree_strippable(
                tree_view(old_children[j]),
                dir@,
            ) by {
                assert(forest_view(old_children)[j] == tree_view(old_children[j]));
                assert(tree_strippable(forest_view(old_children)[j], dir@));
            }
        }
        let n = self.children.len();
        let mut i: usize = 0;
        while i < n
            invariant
                n == old_children.len(),
                self.children@.len() == n,
                i <= n,
                old_children == old(self).children@,
                forest_view(old_children).len() == n,
                forall|j: int|
                    0 <= j < n ==> #[trigger] tree_strippable(tree_view(old_children[j]), dir@),
                forall|j: int|
                    0 <= j < i ==> #[trigger] tree_view(self.children@[j]) == stripped_tree(
                        tree_view(old_children[j]),
                        dir@,
                    ),
                forall|j: int| i <= j < n ==> #[trigger] self.children@[j] == old_children[j],
                self.name@ == new_name,
            decreases n - i,
        {
            assert(tree_strippable(tree_view(old_children[i as int]), dir@));
            self.children[i].clean_names(dir);
            i = i + 1;
        }
        proof {
            lemma_forest_view(self.children@);
            let a = forest_view(self.children@);
            let b = stripped_forest(forest_view(old_children), dir@);
            assert forall|j: int| 0 <= j < n implies a[j] == b[j] by {
                assert(a[j] == tree_view(self.children@[j]));
                assert(b[j] == stripped_tree(forest_view(old_children)[j], dir@));
                assert(forest_view(old_children)[j] == tree_view(old_children[j]));
            }
            assert(a =~= b);
        }
    }
}

} // verus!

verus! {

/// The (layer, header) entries as plain values.
pub open spec fn entries_view(v: Seq<(usize, &str)>) -> Seq<(usize, Seq<char>)> {
    v.map_values(|e: (usize, &str)| (e.0, e.1@))
}

/// The first position at or after `j` whose layer is `d`, or `s.len()`.
pub open spec fn next_at_layer(s: Seq<(usize, Seq<char>)>, d: int, j: int) -> int
    decreases s.len() - j,
{
    if j >= s.len() {
        s.len() as int
    } else if s[j].0 == d {
        j
    } else {
        next_at_layer(s, d, j + 1)
    }
}

pub proof fn lemma_next_at_layer(s: Seq<(usize, Seq<char>)>, d: int, j: int, r: int)
    requires
        0 <= j <= r <= s.len(),
        forall|m: int| j <= m < r ==> s[m].0 != d,
        r < s.len() ==> s[r].0 == d,
    ensures
        next_at_layer(s, d, j) == r,
    decreases r - j,
{
    if j < r {
        lemma_next_at_layer(s, d, j + 1, r);
    }
}

pub proof fn lemma_next_at_layer_bounds(s: Seq<(usize, Seq<char>)>, d: int, j: int)
    requires
        0 <= j <= s.len(),
    ensures
        j <= next_at_layer(s, d, j) <= s.len(),
    decreases s.len() - j,
{
    if j < s.len() && s[j].0 != d {
        lemma_next_at_layer_bounds(s, d, j + 1);
    }
}

/// The forest that a list of (layer, header) entries describes, read at layer `d`:
/// the first entry is a root, the entries after it up to the next entry of layer `d`
/// are its descendants (read at layer `d + 1`), and the rest is read the same way.
pub open spec fn layer_forest(s: Seq<(usize, Seq<char>)>, d: int) -> Seq<HeaderTree>
    decreases s.len(),
{
    if s.len() == 0 {
        Seq::empty()
    } else {
        let k = next_at_layer(s, d, 1);
        proof {
            lemma_next_at_layer_bounds(s, d, 1);
        }
        seq![
            HeaderTree {
                name: clean_name(s[0].1),
                children: layer_forest(s.subrange(1, k), d + 1),
            },
        ] + layer_forest(s.subrange(k, s.len() as int), d)
    }
}

/// Builds the trees that `layered_nodes` describes at layer `depth`.
fn get_layer_child(layered_nodes: Vec<(usize, &str)>, depth: usize) -> (r: Vec<TreeNode>)
    requires
        depth + layered_nodes.len() <= usize::MAX,
    ensures
        forest_view(r@) == layer_forest(entries_view(layered_nodes@), depth as int),
{
    let r = layer_children(&layered_nodes, 0, layered_nodes.len(), depth);
    assert(entries_view(layered_nodes@).subrange(0, layered_nodes@.len() as int) =~= entries_view(
        layered_nodes@,
    ));
    r
}

fn layer_children(nodes: &Vec<(usize, &str)>, lo: usize, hi: usize, depth: usize) -> (r: Vec<
    TreeNode,
>)
    requires
        lo <= hi <= nodes.len(),
        depth + (hi - lo) <= usize::MAX,
    ensures
        forest_view(r@) == layer_forest(
            entries_view(nodes@).subrange(lo as int, hi as int),
            depth as int,
        ),
    decreases hi - lo,
{
    let ghost e = entries_view(nodes@);
    let mut result: Vec<TreeNode> = Vec::new();
    let mut i = lo;
    assert(forest_view(result@) =~= Seq::<HeaderTree>::empty());
    while i < hi
        invariant
            lo <= i <= hi <= nodes.len(),
            depth + (hi - lo) <= usize::MAX,
            e == entries_view(nodes@),
            layer_forest(e.subrange(lo as int, hi as int), depth as int) == forest_view(result@)
                + layer_forest(e.subrange(i as int, hi as int), depth as int),
        decreases hi - i,
    {
        let ghost seg = e.subrange(i as int, hi as int);
        let mut k = i + 1;
        while k < hi && nodes[k].0 != depth
            invariant
                i + 1 <= k <= hi <= nodes.len(),
                e == entries_view(nodes@),
                seg == e.subrange(i as int, hi as int),
                forall|m: int| 1 <= m < k - i ==> seg[m].0 != depth,
            decreases hi - k,
        {
            assert(seg[k - i] == e[k as int]);
            k = k + 1;
        }
        proof {
            if k < hi {
                assert(seg[k - i] == e[k as int]);
            }
            lemma_next_at_layer(seg, depth as int, 1, k - i);
            assert(seg.subrange(1, k - i) =~= e.subrange(i + 1, k as int));
            assert(seg.subrange(k - i, seg.len() as int) =~= e.subrange(k as int, hi as int));
        }
        let mut root = TreeNode::new(crate::text::owned(nodes[i].1));
        let kids = layer_children(nodes, i + 1, k, depth + 1);
        root.children = kids;
        let ghost before = result@;
        result.push(root);
        proof {
            assert(result@.drop_last() =~= before);
            assert(seg[0] == e[i as int]);
            assert(forest_view(result@) == forest_view(before).push(tree_view(root)));
            assert(forest_view(result@) + layer_forest(e.subrange(k as int, hi as int), depth as int)
                =~= forest_view(before) + layer_forest(seg, depth as int));
        }
        i = k;
    }
    result
}

} // verus!

verus! {

/// Errors in reading header dependencies.
#[derive(Debug)]
pub enum HeaderError {
    /// A line of the compiler's include listing has no space; it is carried here.
    MissingSpace { line: String },
}

/// The position of the first space of a line (its length when it has none).
pub open spec fn space_index(line: Seq<char>) -> int {
    char_index_from(line, ' ', 0)
}

/// The layer of an include-listing line: the byte offset of its first space.
pub open spec fn line_layer(line: Seq<char>) -> usize {
    vstd::utf8::encode_utf8(line.take(space_index(line))).len() as usize
}

/// The header that an include-listing line names: the line from its first space on, trimmed.
pub open spec fn line_header(line: Seq<char>) -> Seq<char> {
    trimmed(line.skip(space_index(line)))
}

/// A name that ends in `.h`, `.hpp` or `.hxx`.
pub open spec fn is_header_file(name: Seq<char>) -> bool {
    has_suffix(name, seq!['.', 'h']) || has_suffix(name, seq!['.', 'h', 'p', 'p']) || has_suffix(
        name,
        seq!['.', 'h', 'x', 'x'],
    )
}

/// A line that names a header file under the directory `dir`.
pub open spec fn keeps_line(line: Seq<char>, dir: Seq<char>) -> bool {
    has_prefix(line_header(line), dir) && is_header_file(line_header(line))
}

/// The (layer, header) entries of the kept lines, in order.
pub open spec fn dependency_entries(lines: Seq<Seq<char>>, dir: Seq<char>) -> Seq<
    (usize, Seq<char>),
>
    decreases lines.len(),
{
    if lines.len() == 0 {
        Seq::empty()
    } else {
        let rest = dependency_entries(lines.drop_last(), dir);
        let l = lines.last();
        if keeps_line(l, dir) {
            rest.push((line_layer(l), line_header(l)))
        } else {
            rest
        }
    }
}

/// Every line has a space.
pub open spec fn all_lines_spaced(lines: Seq<Seq<char>>) -> bool {
    forall|i: int| 0 <= i < lines.len() ==> (#[trigger] lines[i]).contains(' ')
}

/// The tree that the compiler's include listing `output` describes for the header
/// `base_name`, keeping the headers under `dir`.
pub open spec fn dependency_tree(output: Seq<char>, base_name: Seq<char>, dir: Seq<char>) -> HeaderTree {
    HeaderTree {
        name: clean_name(base_name),
        children: layer_forest(dependency_entries(lines_of(output), dir), 1),
    }
}

proof fn lemma_space_index(line: Seq<char>)
    ensures
        0 <= space_index(line) <= line.len(),
        line.contains(' ') <==> space_index(line) < line.len(),
{
    crate::text::lemma_char_index_bounds(line, ' ', 0);
    if line.contains(' ') {
        let m = choose|m: int| 0 <= m < line.len() && line[m] == ' ';
        assert(!(m < space_index(line)) || line[m] != ' ');
    }
}

/// Whether `v[a..b]` ends with `suf`.
fn range_ends_with(v: &Vec<char>, a: usize, b: usize, suf: &Vec<char>) -> (r: bool)
    requires
        a <= b <= v.len(),
    ensures
        r == has_suffix(v@.subrange(a as int, b as int), suf@),
{
    if suf.len() > b - a {
        return false;
    }
    let r = occurs_at_exec(v, suf, b - suf.len());
    assert(v@.subrange(a as int, b as int).skip(b - a - suf.len()) =~= v@.subrange(
        b - suf.len(),
        b as int,
    ));
    r
}

/// Reads the compiler's include listing `output` (one line per included header, the
/// offset of the first space giving its depth) into the dependency tree of the header
/// `base_name`, keeping the headers under `header_path`.
pub fn parse_dependency_tree(output: &str, base_name: &str, header_path: &str) -> (r: Result<
    TreeNode,
    HeaderError,
>)
    ensures
        match r {
            Ok(t) => all_lines_spaced(lines_of(output@)) && t@ == dependency_tree(
                output@,
                base_name@,
                header_path@,
            ),
            Err(HeaderError::MissingSpace { line }) => exists|i: int|
                0 <= i < lines_of(output@).len() && !(#[trigger] lines_of(output@)[i]).contains(' ')
                    && line@ == lines_of(output@)[i] && all_lines_spaced(
                    lines_of(output@).take(i),
                ),
        },
{
    let v = chars_of(output);
    let dir = chars_of(header_path);
    let suf_h = vec!['.', 'h'];
    let suf_hpp = vec!['.', 'h', 'p', 'p'];
    let suf_hxx = vec!['.', 'h', 'x', 'x'];
    let n = v.len();
    let mut node_layer: Vec<(usize, &str)> = Vec::new();
    let mut pos: usize = 0;
    let ghost mut done: Seq<Seq<char>> = Seq::empty();
    assert(v@.skip(0) =~= v@);
    while pos < n
        invariant
            v@ == output@,
            dir@ == header_path@,
            suf_h@ == seq!['.', 'h'],
            suf_hpp@ == seq!['.', 'h', 'p', 'p'],
            suf_hxx@ == seq!['.', 'h', 'x', 'x'],
            n == v.len(),
            pos <= n,
            lines_of(output@) == done + lines_of(output@.skip(pos as int)),
            all_lines_spaced(done),
            entries_view(node_layer@) == dependency_entries(done, header_path@),
            2 * node_layer.len() <= pos,
        decreases n - pos,
    {
        let ghost t = output@.skip(pos as int);
        let k = find_char_from(&v, '\n', pos);
        proof {
            crate::text::lemma_char_index_bounds(v@, '\n', pos as int);
            crate::text::lemma_char_index_from(t, '\n', 0, k - pos);
        }
        // the line is v[pos..le), the next one starts at next
        let mut le = k;
        if k < n && k > pos && v[k - 1] == '\r' {
            le = k - 1;
        }
        let next = if k < n {
            k + 1
        } else {
            n
        };
        let ghost line = v@.subrange(pos as int, le as int);
        proof {
            if k < n {
                assert(t.take(k - pos) =~= v@.subrange(pos as int, k as int));
                assert(line =~= strip_cr(t.take(k - pos)));
                assert(t.skip(k - pos + 1) =~= output@.skip(next as int));
                assert(lines_of(t) == seq![line] + lines_of(output@.skip(next as int)));
            } else {
                assert(t =~= line);
                assert(output@.skip(next as int) =~= Seq::<char>::empty());
                assert(lines_of(t) == seq![line]);
            }
        }
        let sp = find_char_from(&v, ' ', pos);
        proof {
            crate::text::lemma_char_index_bounds(v@, ' ', pos as int);
            lemma_space_index(line);
        }
        if sp >= le {
            proof {
                if line.contains(' ') {
                    let m = choose|m: int| 0 <= m < line.len() && line[m] == ' ';
                    assert(v@[pos + m] == ' ');
                }
                assert(lines_of(output@)[done.len() as int] == line);
            }
            return Err(HeaderError::MissingSpace { line: string_of_range(&v, pos, le) });
        }
        proof {
            crate::text::lemma_char_index_from(line, ' ', 0, sp - pos);
            assert(line.take(sp - pos) =~= v@.subrange(pos as int, sp as int));
            assert(line.skip(sp - pos) =~= v@.subrange(sp as int, le as int));
        }
        let prefix = output.substring_char(pos, sp);
        let layer = prefix.len();
        let (a, b) = trim_bounds(&v, sp, le);
        let keep = dir.len() <= b - a && occurs_at_exec(&v, &dir, a) && (range_ends_with(
            &v,
            a,
            b,
            &suf_h,
        ) || range_ends_with(&v, a, b, &suf_hpp) || range_ends_with(&v, a, b, &suf_hxx));
        proof {
            let h = v@.subrange(a as int, b as int);
            assert(h == line_header(line));
            if a + dir@.len() <= b {
                assert(h.take(dir@.len() as int) =~= v@.subrange(a as int, a + dir@.len()));
            }
            assert(keep == keeps_line(line, header_path@));
        }
        let ghost old_entries = node_layer@;
        if keep {
            let header = output.substring_char(a, b);
            node_layer.push((layer, header));
            proof {
                assert(entries_view(node_layer@) =~= entries_view(old_entries).push(
                    (line_layer(line), line_header(line)),
                ));
            }
        }
        proof {
            let nd = done.push(line);
            assert(nd.drop_last() =~= done);
            assert(lines_of(output@) =~= nd + lines_of(output@.skip(next as int)));
            assert forall|i: int| 0 <= i < nd.len() implies (#[trigger] nd[i]).contains(' ') by {
                if i < done.len() {
                    assert(nd[i] == done[i]);
                } else {
                    assert(line[sp - pos] == ' ');
                }
            }
            done = nd;
        }
        pos = next;
    }
    proof {
        assert(output@.skip(n as int) =~= Seq::<char>::empty());
        assert(done =~= lines_of(output@));
    }
    let mut tree = TreeNode::new(crate::text::owned(base_name));
    let kids = get_layer_child(node_layer, 1);
    tree.children = kids;
    Ok(tree)
}

} // verus!

verus! {

/// A header name and the names of the headers it includes.
pub type Entry = (Seq<char>, Seq<Seq<char>>);

pub open spec fn child_names(cs: Seq<HeaderTree>) -> Seq<Seq<char>> {
    cs.map_values(|c: HeaderTree| c.name)
}

/// The (name, included names) entries of the nodes of `t`, in post-order.
pub open spec fn tree_entries(t: HeaderTree) -> Seq<Entry>
    decreases t,
{
    forest_entries(t.children).push((t.name, child_names(t.children)))
}

/// The entries of the trees of `ts`, one tree after the other.
pub open spec fn forest_entries(ts: Seq<HeaderTree>) -> Seq<Entry>
    decreases ts,
{
    if ts.len() == 0 {
        Seq::empty()
    } else {
        forest_entries(ts.drop_last()) + tree_entries(ts.last())
    }
}

/// The names of all nodes.
pub open spec fn header_names(e: Seq<Entry>) -> Set<Seq<char>> {
    Set::new(|n: Seq<char>| exists|i: int| 0 <= i < e.len() && (#[trigger] e[i]).0 == n)
}

/// The names that some node includes.
pub open spec fn included_names(e: Seq<Entry>) -> Set<Seq<char>> {
    Set::new(
        |n: Seq<char>|
            exists|i: int, j: int|
                0 <= i < e.len() && 0 <= j < e[i].1.len() && #[trigger] e[i].1[j] == n,
    )
}

/// The names of nodes that no node includes.
pub open spec fn independent_names(e: Seq<Entry>) -> Set<Seq<char>> {
    header_names(e).difference(included_names(e))
}

/// Header `a` includes header `b`: some node named `a` has a child named `b`.
pub open spec fn includes(e: Seq<Entry>, a: Seq<char>, b: Seq<char>) -> bool {
    exists|i: int| 0 <= i < e.len() && e[i].0 == a && #[trigger] e[i].1.contains(b)
}

/// The names reachable from `a` in at most `k` inclusion steps.
pub open spec fn name_reach_within(e: Seq<Entry>, a: Seq<char>, k: nat) -> Set<Seq<char>>
    decreases k,
{
    if k == 0 {
        set![a]
    } else {
        let p = name_reach_within(e, a, (k - 1) as nat);
        p.union(Set::new(|b: Seq<char>| exists|x: Seq<char>| p.contains(x) && includes(e, x, b)))
    }
}

/// Header `b` is reachable from header `a` by inclusion (in zero or more steps).
pub open spec fn name_reaches(e: Seq<Entry>, a: Seq<char>, b: Seq<char>) -> bool {
    exists|k: nat| #[trigger] name_reach_within(e, a, k).contains(b)
}

pub proof fn lemma_header_names_concat(a: Seq<Entry>, b: Seq<Entry>)
    ensures
        header_names(a + b) == header_names(a).union(header_names(b)),
        included_names(a + b) == included_names(a).union(included_names(b)),
{
    let c = a + b;
    assert forall|n: Seq<char>| header_names(c).contains(n) <==> header_names(a).union(
        header_names(b),
    ).contains(n) by {
        if header_names(c).contains(n) {
            let i = choose|i: int| 0 <= i < c.len() && (#[trigger] c[i]).0 == n;
            if i < a.len() {
                assert(a[i] == c[i]);
            } else {
                assert(b[i - a.len()] == c[i]);
            }
        }
        if header_names(a).contains(n) {
            let i = choose|i: int| 0 <= i < a.len() && (#[trigger] a[i]).0 == n;
            assert(c[i] == a[i]);
        }
        if header_names(b).contains(n) {
            let i = choose|i: int| 0 <= i < b.len() && (#[trigger] b[i]).0 == n;
            assert(c[i + a.len()] == b[i]);
        }
    }
    assert forall|n: Seq<char>| included_names(c).contains(n) <==> included_names(a).union(
        included_names(b),
    ).contains(n) by {
        if included_names(c).contains(n) {
            let (i, j) = choose|i: int, j: int|
                0 <= i < c.len() && 0 <= j < c[i].1.len() && #[trigger] c[i].1[j] == n;
            if i < a.len() {
                assert(a[i] == c[i]);
            } else {
                assert(b[i - a.len()] == c[i]);
            }
        }
        if included_names(a).contains(n) {
            let (i, j) = choose|i: int, j: int|
                0 <= i < a.len() && 0 <= j < a[i].1.len() && #[trigger] a[i].1[j] == n;
            assert(c[i] == a[i]);
        }
        if included_names(b).contains(n) {
            let (i, j) = choose|i: int, j: int|
                0 <= i < b.len() && 0 <= j < b[i].1.len() && #[trigger] b[i].1[j] == n;
            assert(c[i + a.len()] == b[i]);
        }
    }
    assert(header_names(c) =~= header_names(a).union(header_names(b)));
    assert(included_names(c) =~= included_names(a).union(included_names(b)));
}

/// Every node of a tree appears among its entries, and every included name is the name of
/// some node.
pub proof fn lemma_tree_entries(t: HeaderTree)
    ensures
        header_names(tree_entries(t)).contains(t.name),
        included_names(tree_entries(t)).subset_of(header_names(tree_entries(t))),
    decreases t,
{
    let f = forest_entries(t.children);
    let last = seq![(t.name, child_names(t.children))];
    lemma_forest_entries(t.children);
    assert(tree_entries(t) =~= f + last);
    lemma_header_names_concat(f, last);
    assert(last[0].0 == t.name);
    assert(header_names(last).contains(t.name));
    assert forall|n: Seq<char>| included_names(last).contains(n) implies header_names(f).contains(
        n,
    ) by {
        let (i, j) = choose|i: int, j: int|
            0 <= i < last.len() && 0 <= j < last[i].1.len() && #[trigger] last[i].1[j] == n;
        assert(i == 0);
        assert(child_names(t.children)[j] == t.children[j].name);
    }
}

/// The entries of a forest name every tree root, and every included name is the name of
/// some node.
pub proof fn lemma_forest_entries(ts: Seq<HeaderTree>)
    ensures
        forall|k: int| 0 <= k < ts.len() ==> header_names(forest_entries(ts)).contains(#[trigger] ts[k].name),
        included_names(forest_entries(ts)).subset_of(header_names(forest_entries(ts))),
    decreases ts,
{
    if ts.len() == 0 {
        assert(included_names(forest_entries(ts)) =~= Set::empty());
    } else {
        let init = ts.drop_last();
        lemma_forest_entries(init);
        lemma_tree_entries(ts.last());
        lemma_header_names_concat(forest_entries(init), tree_entries(ts.last()));
        assert forall|k: int| 0 <= k < ts.len() implies header_names(forest_entries(ts)).contains(
            #[trigger] ts[k].name,
        ) by {
            if k < init.len() {
                assert(init[k] == ts[k]);
            }
        }
    }
}

/// The entries as plain values.
pub open spec fn entry_view(v: Seq<(&str, Vec<&str>)>) -> Seq<Entry> {
    v.map_values(|x: (&str, Vec<&str>)| (x.0@, views(x.1@)))
}

/// Appends the entries of `node`'s tree to `out`, in post-order.
fn collect_nodes<'a>(node: &'a TreeNode, out: &mut Vec<(&'a str, Vec<&'a str>)>)
    ensures
        entry_view(final(out)@) == entry_view(old(out)@) + tree_entries(node@),
    decreases node,
{
    let ghost start = entry_view(out@);
    let n = node.children.len();
    proof {
        lemma_forest_view(node.children@);
    }
    let mut i: usize = 0;
    assert(node.children@.take(0) =~= Seq::<TreeNode>::empty());
    assert(forest_entries(forest_view(node.children@.take(0))) =~= Seq::<Entry>::empty());
    while i < n
        invariant
            n == node.children.len(),
            i <= n,
            entry_view(out@) == start + forest_entries(forest_view(node.children@.take(i as int))),
        decreases n - i,
    {
        let child = &node.children[i];
        collect_nodes(child, out);
        proof {
            let pre = node.children@.take(i as int);
            let post = node.children@.take(i + 1);
            assert(post.drop_last() =~= pre);
            assert(post.last() == node.children@[i as int]);
            assert(forest_view(post) == forest_view(pre).push(tree_view(node.children@[i as int])));
            assert(forest_view(post).drop_last() =~= forest_view(pre));
            assert(forest_entries(forest_view(post)) == forest_entries(forest_view(pre))
                + tree_entries(tree_view(node.children@[i as int])));
            assert(entry_view(out@) =~= start + forest_entries(forest_view(post)));
        }
        i = i + 1;
    }
    let mut names: Vec<&'a str> = Vec::new();
    let mut k: usize = 0;
    while k < n
        invariant
            n == node.children.len(),
            k <= n,
            names@.len() == k,
            forall|m: int| 0 <= m < k ==> (#[trigger] names@[m])@ == node.children@[m].name@,
        decreases n - k,
    {
        names.push(node.children[k].name.as_str());
        k = k + 1;
    }
    let ghost before = out@;
    out.push((node.name.as_str(), names));
    proof {
        assert(node.children@.take(n as int) =~= node.children@);
        let cs = forest_view(node.children@);
        assert(views(names@) =~= child_names(cs)) by {
            assert forall|m: int| 0 <= m < n implies views(names@)[m] == child_names(cs)[m] by {
                assert(cs[m] == tree_view(node.children@[m]));
            }
        }
        assert(entry_view(out@) =~= entry_view(before).push((node.name@, views(names@))));
        assert(entry_view(out@) =~= start + tree_entries(node@));
    }
}

} // verus!

verus! {

/// The index graph `g` over the distinct header names `names` records the inclusions of
/// `e`, and `inc[u]` tells whether some node includes `names[u]`.
pub open spec fn graph_of_entries(
    e: Seq<Entry>,
    names: Seq<Seq<char>>,
    g: Seq<Seq<usize>>,
    inc: Seq<bool>,
) -> bool {
    &&& names.no_duplicates()
    &&& names.to_set() == header_names(e)
    &&& g.len() == names.len()
    &&& inc.len() == names.len()
    &&& well_formed(g)
    &&& forall|u: int, t: int|
        0 <= u < names.len() && 0 <= t < names.len() ==> (#[trigger] edge(g, u, t) <==> includes(
            e,
            names[u],
            names[t],
        ))
    &&& forall|u: int|
        0 <= u < names.len() ==> (#[trigger] inc[u] <==> included_names(e).contains(names[u]))
}

/// The position of `x` in `names`, if it is there.
fn index_of_name(names: &Vec<&str>, x: &str) -> (r: Option<usize>)
    ensures
        match r {
            Some(k) => k < names.len() && names@[k as int]@ == x@,
            None => !views(names@).contains(x@),
        },
{
    let mut k: usize = 0;
    while k < names.len()
        invariant
            k <= names.len(),
            forall|m: int| 0 <= m < k ==> (#[trigger] names@[m])@ != x@,
        decreases names.len() - k,
    {
        if same_str(names[k], x) {
            return Some(k);
        }
        k = k + 1;
    }
    proof {
        if views(names@).contains(x@) {
            let m = choose|m: int| 0 <= m < views(names@).len() && views(names@)[m] == x@;
            assert(names@[m]@ == x@);
        }
    }
    None
}

proof fn lemma_header_names_push(e: Seq<Entry>, x: Entry)
    ensures
        header_names(e.push(x)) == header_names(e).insert(x.0),
{
    let f = e.push(x);
    assert forall|n: Seq<char>| header_names(f).contains(n) <==> header_names(e).insert(x.0).contains(n) by {
        if header_names(f).contains(n) {
            let i = choose|i: int| 0 <= i < f.len() && (#[trigger] f[i]).0 == n;
            if i < e.len() {
                assert(e[i] == f[i]);
            }
        }
        if header_names(e).contains(n) {
            let i = choose|i: int| 0 <= i < e.len() && (#[trigger] e[i]).0 == n;
            assert(f[i] == e[i]);
        }
        if n == x.0 {
            assert(f[e.len() as int] == x);
        }
    }
    assert(header_names(f) =~= header_names(e).insert(x.0));
}

/// The positions in `names` of the headers that the nodes named `name` include.
fn included_by_name<'a>(
    entries: &Vec<(&'a str, Vec<&'a str>)>,
    names: &Vec<&'a str>,
    name: &str,
) -> (r: Vec<usize>)
    requires
        views(names@).no_duplicates(),
        views(names@).to_set() == header_names(entry_view(entries@)),
        included_names(entry_view(entries@)).subset_of(header_names(entry_view(entries@))),
    ensures
        forall|m: int| 0 <= m < r.len() ==> #[trigger] r@[m] < names.len(),
        forall|t: int|
            #![trigger views(names@)[t]]
            0 <= t < names.len() ==> (r@.contains(t as usize) <==> includes(
                entry_view(entries@),
                name@,
                views(names@)[t],
            )),
{
    let ghost e = entry_view(entries@);
    let ghost nv = views(names@);
    let n = names.len();
    let ne = entries.len();
    let mut targets: Vec<usize> = Vec::new();
    let mut a: usize = 0;
    while a < ne
        invariant
            e == entry_view(entries@),
            ne == entries.len(),
            n == names.len(),
            nv == views(names@),
            nv.no_duplicates(),
            nv.to_set() == header_names(e),
            included_names(e).subset_of(header_names(e)),
            a <= ne,
            forall|m: int| 0 <= m < targets.len() ==> #[trigger] targets@[m] < n,
            forall|t: usize|
                #![trigger targets@.contains(t)]
                t < n ==> (targets@.contains(t) <==> exists|x: int|
                    0 <= x < a && e[x].0 == name@ && #[trigger] e[x].1.contains(nv[t as int])),
        decreases ne - a,
    {
        if same_str(entries[a].0, name) {
            let kids = &entries[a].1;
            let ghost t0 = targets@;
            assert(e[a as int].0 == name@);
            let mut j: usize = 0;
            while j < kids.len()
                invariant
                    e == entry_view(entries@),
                    a < ne == entries.len(),
                    kids == entries@[a as int].1,
                    n == names.len(),
                    nv == views(names@),
                    nv.no_duplicates(),
                    nv.to_set() == header_names(e),
                    included_names(e).subset_of(header_names(e)),
                    j <= kids.len(),
                    forall|m: int| 0 <= m < targets.len() ==> #[trigger] targets@[m] < n,
                    forall|t: usize|
                        #![trigger targets@.contains(t)]
                        t < n ==> (targets@.contains(t) <==> (t0.contains(t)
                            || exists|y: int| 0 <= y < j && #[trigger] e[a as int].1[y] == nv[t as int])),
                decreases kids.len() - j,
            {
                let c = kids[j];
                proof {
                    assert(e[a as int].1[j as int] == c@);
                    assert(included_names(e).contains(c@));
                    assert(nv.contains(c@));
                }
                match index_of_name(names, c) {
                    Some(t) => {
                        let ghost before = targets@;
                        targets.push(t);
                        proof {
                            assert forall|s: usize|
                                #![trigger targets@.contains(s)]
                                s < n implies (targets@.contains(s) <==> (t0.contains(s)
                                    || exists|y: int| 0 <= y < j + 1 && #[trigger] e[a as int].1[y] == nv[s as int])) by {
                                if targets@.contains(s) {
                                    let m = choose|m: int| 0 <= m < targets@.len() && targets@[m] == s;
                                    if m < before.len() {
                                        assert(before.contains(s));
                                    } else {
                                        assert(e[a as int].1[j as int] == nv[s as int]);
                                    }
                                }
                                if t0.contains(s) {
                                    assert(before.contains(s));
                                    let m = choose|m: int| 0 <= m < before.len() && before[m] == s;
                                    assert(targets@[m] == s);
                                }
                                if exists|y: int| 0 <= y < j + 1 && #[trigger] e[a as int].1[y] == nv[s as int] {
                                    let y = choose|y: int| 0 <= y < j + 1 && #[trigger] e[a as int].1[y] == nv[s as int];
                                    if y < j {
                                        assert(before.contains(s));
                                        let m = choose|m: int| 0 <= m < before.len() && before[m] == s;
                                        assert(targets@[m] == s);
                                    } else {
                                        assert(nv[t as int] == nv[s as int]);
                                        assert(t == s);
                                        assert(targets@[before.len() as int] == s);
                                    }
                                }
                            }
                        }
                    },
                    None => {
                        assert(false);
                    },
                }
                j = j + 1;
            }
            proof {
                assert forall|t: usize|
                    #![trigger targets@.contains(t)]
                    t < n implies (targets@.contains(t) <==> exists|x: int|
                        0 <= x < a + 1 && e[x].0 == name@ && #[trigger] e[x].1.contains(nv[t as int])) by {
                    if targets@.contains(t) && !t0.contains(t) {
                        let y = choose|y: int| 0 <= y < kids.len() && #[trigger] e[a as int].1[y] == nv[t as int];
                        assert(e[a as int].1.contains(nv[t as int]));
                    }
                    if exists|y: int| 0 <= y < kids.len() && #[trigger] e[a as int].1[y] == nv[t as int] {
                        let y = choose|y: int| 0 <= y < kids.len() && #[trigger] e[a as int].1[y] == nv[t as int];
                        assert(e[a as int].1.contains(nv[t as int]));
                    }
                    if exists|x: int| 0 <= x < a + 1 && e[x].0 == name@ && #[trigger] e[x].1.contains(nv[t as int]) {
                        let x = choose|x: int| 0 <= x < a + 1 && e[x].0 == name@ && #[trigger] e[x].1.contains(nv[t as int]);
                        if x < a {
                            assert(t0.contains(t));
                        }
                    }
                    if e[a as int].1.contains(nv[t as int]) {
                        let y = choose|y: int| 0 <= y < e[a as int].1.len() && e[a as int].1[y] == nv[t as int];
                        assert(e[a as int].1[y] == nv[t as int]);
                    }
                }
            }
        } else {
            proof {
                assert(e[a as int].0 != name@);
                assert forall|t: usize|
                    #![trigger targets@.contains(t)]
                    t < n implies (targets@.contains(t) <==> exists|x: int|
                        0 <= x < a + 1 && e[x].0 == name@ && #[trigger] e[x].1.contains(nv[t as int])) by {
                    if exists|x: int| 0 <= x < a + 1 && e[x].0 == name@ && #[trigger] e[x].1.contains(nv[t as int]) {
                        let x = choose|x: int| 0 <= x < a + 1 && e[x].0 == name@ && #[trigger] e[x].1.contains(nv[t as int]);
                        assert(x < a);
                    }
                }
            }
        }
        a = a + 1;
    }
    proof {
        assert forall|t: int|
            #![trigger nv[t]]
            0 <= t < n implies (targets@.contains(t as usize) <==> includes(e, name@, nv[t])) by {
            if targets@.contains(t as usize) {
                let x = choose|x: int| 0 <= x < ne && e[x].0 == name@ && #[trigger] e[x].1.contains(nv[t]);
            }
        }
    }
    targets
}

/// Builds the inclusion graph of the entries.
fn build_include_graph<'a>(entries: &Vec<(&'a str, Vec<&'a str>)>) -> (r: (
    Vec<&'a str>,
    Vec<Vec<usize>>,
    Vec<bool>,
))
    requires
        included_names(entry_view(entries@)).subset_of(header_names(entry_view(entries@))),
    ensures
        graph_of_entries(
            entry_view(entries@),
            views(r.0@),
            r.1@.map_values(|v: Vec<usize>| v@),
            r.2@,
        ),
        r.0.len() <= entries.len(),
{
    let ghost e = entry_view(entries@);
    let ne = entries.len();
    // the distinct names, in the order they first appear
    let mut names: Vec<&'a str> = Vec::new();
    let mut i: usize = 0;
    assert(e.take(0) =~= Seq::<Entry>::empty());
    assert(header_names(e.take(0)) =~= Set::<Seq<char>>::empty());
    assert(views(names@).to_set() =~= Set::<Seq<char>>::empty());
    while i < ne
        invariant
            ne == entries.len(),
            e == entry_view(entries@),
            i <= ne,
            views(names@).no_duplicates(),
            views(names@).to_set() == header_names(e.take(i as int)),
            names.len() <= i,
        decreases ne - i,
    {
        let x = entries[i].0;
        proof {
            assert(e.take(i + 1) =~= e.take(i as int).push(e[i as int]));
            lemma_header_names_push(e.take(i as int), e[i as int]);
        }
        match index_of_name(&names, x) {
            Some(k) => {
                assert(views(names@)[k as int] == x@);
                assert(views(names@).to_set().contains(x@));
                assert(views(names@).to_set() =~= views(names@).to_set().insert(x@));
            },
            None => {
                let ghost before = views(names@);
                names.push(x);
                proof {
                    assert(views(names@) =~= before.push(x@));
                    assert(before.push(x@) =~= before + seq![x@]);
                    Seq::<Seq<char>>::lemma_to_set_insert_commutes(before, x@);
                    assert forall|a: int, b: int|
                        0 <= a < views(names@).len() && 0 <= b < views(names@).len() && a != b
                            implies views(names@)[a] != views(names@)[b] by {
                        if a < before.len() && b < before.len() {
                        } else if a == before.len() {
                            assert(!before.contains(views(names@)[b]) || views(names@)[b] != x@);
                            if views(names@)[b] == x@ {
                                assert(before[b] == x@);
                            }
                        } else {
                            if views(names@)[a] == x@ {
                                assert(before[a] == x@);
                            }
                        }
                    }
                }
            },
        }
        i = i + 1;
    }
    assert(e.take(ne as int) =~= e);
    let ghost nv = views(names@);
    let n = names.len();
    let mut edges: Vec<Vec<usize>> = Vec::new();
    let mut included: Vec<bool> = Vec::new();
    let mut u: usize = 0;
    while u < n
        invariant
            ne == entries.len(),
            e == entry_view(entries@),
            n == names.len(),
            nv == views(names@),
            nv.no_duplicates(),
            nv.to_set() == header_names(e),
            included_names(e).subset_of(header_names(e)),
            u <= n,
            edges.len() == u,
            included.len() == u,
            forall|w: int, j: int|
                0 <= w < u && 0 <= j < edges@[w]@.len() ==> #[trigger] edges@[w]@[j] < n,
            forall|w: int, t: int|
                0 <= w < u && 0 <= t < n ==> ((exists|j: int|
                    0 <= j < edges@[w]@.len() && #[trigger] edges@[w]@[j] == t) <==> includes(
                    e,
                    nv[w],
                    nv[t],
                )),
            forall|w: int|
                0 <= w < u ==> (#[trigger] included@[w] <==> included_names(e).contains(nv[w])),
        decreases n - u,
    {
        let name = names[u];
        assert(nv[u as int] == name@);
        assert(nv.to_set().contains(name@));
        // the headers that any node with this name includes
        let targets = included_by_name(entries, &names, name);
        proof {
            assert forall|t: int| 0 <= t < n implies ((exists|j: int|
                0 <= j < targets@.len() && #[trigger] targets@[j] == t) <==> includes(
                e,
                nv[u as int],
                nv[t],
            )) by {
                if exists|j: int| 0 <= j < targets@.len() && #[trigger] targets@[j] == t {
                    let j = choose|j: int| 0 <= j < targets@.len() && #[trigger] targets@[j] == t;
                    assert(targets@[j] == t as usize);
                    assert(targets@.contains(t as usize));
                }
                if includes(e, nv[u as int], nv[t]) {
                    assert(targets@.contains(t as usize));
                    let j = choose|j: int| 0 <= j < targets@.len() && targets@[j] == t as usize;
                    assert(targets@[j] == t);
                }
            }
        }
        // whether some node includes this name
        let mut inc = false;
        let mut a: usize = 0;
        while a < ne && !inc
            invariant
                e == entry_view(entries@),
                ne == entries.len(),
                a <= ne,
                inc ==> included_names(e).contains(name@),
                !inc ==> forall|x: int, y: int| 0 <= x < a && 0 <= y < e[x].1.len() ==> #[trigger] e[x].1[y] != name@,
            decreases ne - a + if inc { 0int } else { 1int },
        {
            let ks = &entries[a].1;
            let mut b: usize = 0;
            while b < ks.len() && !inc
                invariant
                    e == entry_view(entries@),
                    a < ne == entries.len(),
                    ks == entries@[a as int].1,
                    b <= ks.len(),
                    inc ==> included_names(e).contains(name@),
                    !inc ==> forall|y: int| 0 <= y < b ==> #[trigger] e[a as int].1[y] != name@,
                decreases ks.len() - b + if inc { 0int } else { 1int },
            {
                if same_str(ks[b], name) {
                    assert(e[a as int].1[b as int] == name@);
                    inc = true;
                } else {
                    assert(e[a as int].1[b as int] != name@);
                    b = b + 1;
                }
            }
            if !inc {
                a = a + 1;
            }
        }
        proof {
            if !inc && included_names(e).contains(name@) {
                let (x, y) = choose|x: int, y: int|
                    0 <= x < e.len() && 0 <= y < e[x].1.len() && #[trigger] e[x].1[y] == name@;
                assert(false);
            }
        }
        let ghost old_edges = edges@;
        let ghost tv = targets@;
        edges.push(targets);
        included.push(inc);
        proof {
            assert forall|w: int, t: int|
                0 <= w < u + 1 && 0 <= t < n implies ((exists|j: int|
                    0 <= j < edges@[w]@.len() && #[trigger] edges@[w]@[j] == t) <==> includes(
                    e,
                    nv[w],
                    nv[t],
                )) by {
                if w < u {
                    assert(edges@[w] == old_edges[w]);
                } else {
                    assert(edges@[w]@ == tv);
                    if exists|j: int| 0 <= j < tv.len() && #[trigger] tv[j] == t {
                        let j = choose|j: int| 0 <= j < tv.len() && #[trigger] tv[j] == t;
                        assert(edges@[w]@[j] == t);
                    }
                    if exists|j: int| 0 <= j < edges@[w]@.len() && #[trigger] edges@[w]@[j] == t {
                        let j = choose|j: int| 0 <= j < edges@[w]@.len() && #[trigger] edges@[w]@[j] == t;
                        assert(tv[j] == t);
                    }
                }
            }
            assert forall|w: int, j: int|
                0 <= w < u + 1 && 0 <= j < edges@[w]@.len() implies #[trigger] edges@[w]@[j] < n by {
                if w < u {
                    assert(edges@[w] == old_edges[w]);
                } else {
                    assert(edges@[w]@ == tv);
                }
            }
        }
        u = u + 1;
    }
    proof {
        let g = edges@.map_values(|v: Vec<usize>| v@);
        assert forall|w: int, j: int| 0 <= w < g.len() && 0 <= j < g[w].len() implies #[trigger] g[w][j] < g.len() by {
            assert(g[w] == edges@[w]@);
        }
        assert forall|w: int, t: int|
            0 <= w < n && 0 <= t < n implies (#[trigger] edge(g, w, t) <==> includes(e, nv[w], nv[t])) by {
            assert(g[w] == edges@[w]@);
            if edge(g, w, t) {
                let j = choose|j: int| 0 <= j < g[w].len() && g[w][j] == t;
                assert(edges@[w]@[j] == t);
            }
            if includes(e, nv[w], nv[t]) {
                let j = choose|j: int| 0 <= j < edges@[w]@.len() && #[trigger] edges@[w]@[j] == t;
                assert(g[w][j] == t);
            }
        }
    }
    (names, edges, included)
}

} // verus!

verus! {

/// What index reachability in the graph of the entries says of the header names.
proof fn lemma_index_reach_names(
    e: Seq<Entry>,
    names: Seq<Seq<char>>,
    g: Seq<Seq<usize>>,
    inc: Seq<bool>,
    s: int,
    k: nat,
)
    requires
        graph_of_entries(e, names, g, inc),
        0 <= s < names.len(),
    ensures
        forall|t: int| #[trigger]
            reach_within(g, s, k).contains(t) ==> 0 <= t < names.len() && name_reach_within(
                e,
                names[s],
                k,
            ).contains(names[t]),
    decreases k,
{
    if k > 0 {
        lemma_index_reach_names(e, names, g, inc, s, (k - 1) as nat);
        let p = reach_within(g, s, (k - 1) as nat);
        let q = name_reach_within(e, names[s], (k - 1) as nat);
        assert forall|t: int| #[trigger] reach_within(g, s, k).contains(t) implies 0 <= t
            < names.len() && name_reach_within(e, names[s], k).contains(names[t]) by {
            if !p.contains(t) {
                let u = choose|u: int| p.contains(u) && edge(g, u, t);
                let j = choose|j: int| 0 <= j < g[u].len() && g[u][j] == t;
                assert(g[u][j] < g.len());
                assert(edge(g, u, t));
                assert(includes(e, names[u], names[t]));
                assert(q.contains(names[u]));
            }
        }
    }
}

proof fn lemma_index_reaches_names(
    e: Seq<Entry>,
    names: Seq<Seq<char>>,
    g: Seq<Seq<usize>>,
    inc: Seq<bool>,
    s: int,
    t: int,
)
    requires
        graph_of_entries(e, names, g, inc),
        0 <= s < names.len(),
        reaches(g, s, t),
    ensures
        0 <= t < names.len(),
        name_reaches(e, names[s], names[t]),
{
    let k = choose|k: nat| #[trigger] reach_within(g, s, k).contains(t);
    lemma_index_reach_names(e, names, g, inc, s, k);
    assert(name_reach_within(e, names[s], k).contains(names[t]));
}

/// What name reachability in the entries says of index reachability in their graph.
proof fn lemma_name_reach_index(
    e: Seq<Entry>,
    names: Seq<Seq<char>>,
    g: Seq<Seq<usize>>,
    inc: Seq<bool>,
    s: int,
    k: nat,
)
    requires
        graph_of_entries(e, names, g, inc),
        included_names(e).subset_of(header_names(e)),
        0 <= s < names.len(),
    ensures
        forall|b: Seq<char>| #[trigger]
            name_reach_within(e, names[s], k).contains(b) ==> exists|t: int|
                0 <= t < names.len() && names[t] == b && reach_within(g, s, k).contains(t),
    decreases k,
{
    if k == 0 {
        assert(reach_within(g, s, 0).contains(s));
    } else {
        lemma_name_reach_index(e, names, g, inc, s, (k - 1) as nat);
        let p = name_reach_within(e, names[s], (k - 1) as nat);
        assert forall|b: Seq<char>| #[trigger] name_reach_within(e, names[s], k).contains(b) implies exists|t: int|
            0 <= t < names.len() && names[t] == b && reach_within(g, s, k).contains(t) by {
            if p.contains(b) {
                let t = choose|t: int|
                    0 <= t < names.len() && names[t] == b && reach_within(g, s, (k - 1) as nat).contains(t);
                assert(reach_within(g, s, k).contains(t));
            } else {
                let x = choose|x: Seq<char>| p.contains(x) && includes(e, x, b);
                let tx = choose|t: int|
                    0 <= t < names.len() && names[t] == x && reach_within(g, s, (k - 1) as nat).contains(t);
                let i = choose|i: int| 0 <= i < e.len() && e[i].0 == x && #[trigger] e[i].1.contains(b);
                let j = choose|j: int| 0 <= j < e[i].1.len() && e[i].1[j] == b;
                assert(included_names(e).contains(b));
                assert(names.to_set().contains(b));
                let tb = choose|t: int| 0 <= t < names.len() && names[t] == b;
                assert(edge(g, tx, tb));
                assert(reach_within(g, s, k).contains(tb));
            }
        }
    }
}

proof fn lemma_name_reaches_index(
    e: Seq<Entry>,
    names: Seq<Seq<char>>,
    g: Seq<Seq<usize>>,
    inc: Seq<bool>,
    s: int,
    b: Seq<char>,
) -> (t: int)
    requires
        graph_of_entries(e, names, g, inc),
        included_names(e).subset_of(header_names(e)),
        0 <= s < names.len(),
        name_reaches(e, names[s], b),
    ensures
        0 <= t < names.len(),
        names[t] == b,
        reaches(g, s, t),
{
    let k = choose|k: nat| #[trigger] name_reach_within(e, names[s], k).contains(b);
    lemma_name_reach_index(e, names, g, inc, s, k);
    let t = choose|t: int| 0 <= t < names.len() && names[t] == b && reach_within(g, s, k).contains(t);
    t
}

/// Some header of `sel` reaches `t`.
pub open spec fn reached_by_choice(g: Seq<Seq<usize>>, sel: Seq<int>, t: int) -> bool {
    exists|k: int| 0 <= k < sel.len() && #[trigger] reaches(g, sel[k], t)
}

/// `sel` picks headers of the graph `g` of the entries, named `res`: together they reach
/// every header, each is reached back by every header that reaches it, and none reaches
/// another.
#[verifier::opaque]
pub open spec fn chosen_cover(
    e: Seq<Entry>,
    nv: Seq<Seq<char>>,
    g: Seq<Seq<usize>>,
    inc: Seq<bool>,
    sel: Seq<int>,
    res: Seq<Seq<char>>,
) -> bool {
    &&& graph_of_entries(e, nv, g, inc)
    &&& included_names(e).subset_of(header_names(e))
    &&& res.len() == sel.len()
    &&& forall|k: int| 0 <= k < sel.len() ==> 0 <= #[trigger] sel[k] < nv.len() && res[k] == nv[sel[k]]
    &&& forall|t: int| 0 <= t < nv.len() ==> #[trigger] reached_by_choice(g, sel, t)
    &&& forall|k: int, x: int|
        0 <= k < sel.len() && 0 <= x < nv.len() && #[trigger] reaches(g, x, sel[k]) ==> reaches(
            g,
            sel[k],
            x,
        )
    &&& forall|k1: int, k2: int|
        0 <= k1 < sel.len() && 0 <= k2 < sel.len() && k1 != k2 ==> !#[trigger] reaches(
            g,
            sel[k1],
            sel[k2],
        )
}

proof fn lemma_chosen_covers(
    e: Seq<Entry>,
    nv: Seq<Seq<char>>,
    g: Seq<Seq<usize>>,
    inc: Seq<bool>,
    sel: Seq<int>,
    res: Seq<Seq<char>>,
)
    requires
        chosen_cover(e, nv, g, inc, sel, res),
    ensures
        res.to_set().subset_of(header_names(e)),
        covers(e, res.to_set()),
{
    reveal(chosen_cover);
    let o = res.to_set();
    assert forall|x: Seq<char>| o.contains(x) implies header_names(e).contains(x) by {
        let k = choose|k: int| 0 <= k < res.len() && res[k] == x;
        assert(nv.to_set().contains(nv[sel[k]]));
    }
    assert forall|m: Seq<char>| #[trigger] header_names(e).contains(m) implies exists|x: Seq<char>|
        o.contains(x) && name_reaches(e, x, m) by {
        assert(nv.to_set().contains(m));
        let t = choose|t: int| 0 <= t < nv.len() && nv[t] == m;
        assert(reached_by_choice(g, sel, t));
        let k = choose|k: int| 0 <= k < sel.len() && #[trigger] reaches(g, sel[k], t);
        lemma_index_reaches_names(e, nv, g, inc, sel[k], t);
        assert(res[k] == nv[sel[k]]);
        assert(o.contains(res[k]));
    }
}

proof fn lemma_chosen_apart(
    e: Seq<Entry>,
    nv: Seq<Seq<char>>,
    g: Seq<Seq<usize>>,
    inc: Seq<bool>,
    sel: Seq<int>,
    res: Seq<Seq<char>>,
)
    requires
        chosen_cover(e, nv, g, inc, sel, res),
    ensures
        forall|m1: Seq<char>, m2: Seq<char>|
            res.to_set().contains(m1) && res.to_set().contains(m2) && m1 != m2 ==> !#[trigger] name_reaches(
                e,
                m1,
                m2,
            ),
{
    reveal(chosen_cover);
    let o = res.to_set();
    assert forall|m1: Seq<char>, m2: Seq<char>|
        o.contains(m1) && o.contains(m2) && m1 != m2 implies !#[trigger] name_reaches(e, m1, m2) by {
        let k1 = choose|k: int| 0 <= k < res.len() && res[k] == m1;
        let k2 = choose|k: int| 0 <= k < res.len() && res[k] == m2;
        if name_reaches(e, m1, m2) {
            let t = lemma_name_reaches_index(e, nv, g, inc, sel[k1], m2);
            assert(nv[t] == nv[sel[k2]]);
            assert(t == sel[k2]);
            assert(k1 != k2);
        }
    }
}

/// Two headers of the choice that one header reaches are the same.
proof fn lemma_chosen_injective(
    e: Seq<Entry>,
    nv: Seq<Seq<char>>,
    g: Seq<Seq<usize>>,
    inc: Seq<bool>,
    sel: Seq<int>,
    res: Seq<Seq<char>>,
    x: Seq<char>,
    m1: Seq<char>,
    m2: Seq<char>,
)
    requires
        chosen_cover(e, nv, g, inc, sel, res),
        header_names(e).contains(x),
        res.to_set().contains(m1),
        res.to_set().contains(m2),
        name_reaches(e, x, m1),
        name_reaches(e, x, m2),
    ensures
        m1 == m2,
{
    reveal(chosen_cover);
    let k1 = choose|k: int| 0 <= k < res.len() && res[k] == m1;
    let k2 = choose|k: int| 0 <= k < res.len() && res[k] == m2;
    assert(nv.to_set().contains(x));
    let u = choose|u: int| 0 <= u < nv.len() && nv[u] == x;
    let t1 = lemma_name_reaches_index(e, nv, g, inc, u, m1);
    let t2 = lemma_name_reaches_index(e, nv, g, inc, u, m2);
    assert(nv[t1] == nv[sel[k1]]);
    assert(t1 == sel[k1]);
    assert(nv[t2] == nv[sel[k2]]);
    assert(t2 == sel[k2]);
    assert(reaches(g, sel[k1], u));
    lemma_reaches_trans(g, sel[k1], u, sel[k2]);
}

/// A header of `c` from which `m` is reachable, where there is one.
pub open spec fn cover_source(e: Seq<Entry>, c: Set<Seq<char>>, m: Seq<char>) -> Seq<char> {
    choose|x: Seq<char>| c.contains(x) && name_reaches(e, x, m)
}

proof fn lemma_cover_source_injective(
    e: Seq<Entry>,
    nv: Seq<Seq<char>>,
    g: Seq<Seq<usize>>,
    inc: Seq<bool>,
    sel: Seq<int>,
    res: Seq<Seq<char>>,
    c: Set<Seq<char>>,
)
    requires
        chosen_cover(e, nv, g, inc, sel, res),
        res.to_set().subset_of(header_names(e)),
        c.subset_of(header_names(e)),
        covers(e, c),
    ensures
        vstd::relations::injective_on(|m: Seq<char>| cover_source(e, c, m), res.to_set()),
        forall|m: Seq<char>| #[trigger] res.to_set().contains(m) ==> c.contains(cover_source(e, c, m)),
{
    let o = res.to_set();
    assert forall|m: Seq<char>| #[trigger] o.contains(m) implies c.contains(cover_source(e, c, m))
        && name_reaches(e, cover_source(e, c, m), m) by {
        assert(header_names(e).contains(m));
    }
    assert forall|m1: Seq<char>, m2: Seq<char>|
        o.contains(m1) && o.contains(m2) && #[trigger] cover_source(e, c, m1) == #[trigger] cover_source(
            e,
            c,
            m2,
        ) implies m1 == m2 by {
        let x = cover_source(e, c, m1);
        lemma_chosen_injective(e, nv, g, inc, sel, res, x, m1, m2);
    }
}

proof fn lemma_chosen_least(
    e: Seq<Entry>,
    nv: Seq<Seq<char>>,
    g: Seq<Seq<usize>>,
    inc: Seq<bool>,
    sel: Seq<int>,
    res: Seq<Seq<char>>,
    c: Set<Seq<char>>,
)
    requires
        chosen_cover(e, nv, g, inc, sel, res),
        c.subset_of(header_names(e)),
        covers(e, c),
    ensures
        res.to_set().len() <= c.len(),
{
    let o = res.to_set();
    lemma_chosen_covers(e, nv, g, inc, sel, res);
    lemma_cover_source_injective(e, nv, g, inc, sel, res, c);
    let f = |m: Seq<char>| cover_source(e, c, m);
    assert(o.map(f).subset_of(c));
    reveal(chosen_cover);
    assert(nv.to_set().finite());
    vstd::set_lib::lemma_len_subset(c, header_names(e));
    vstd::set_lib::lemma_len_subset(o.map(f), c);
    vstd::set_lib::lemma_map_size(o, o.map(f), f);
}

/// A strictly sorted list holds no name twice.
proof fn lemma_strictly_sorted_len(out: Seq<Seq<char>>)
    requires
        strictly_sorted(out),
    ensures
        out.len() == out.to_set().len(),
{
    assert forall|i: int, j: int| 0 <= i < out.len() && 0 <= j < out.len() && i != j implies out[i] != out[j] by {
        if i < j {
            assert(lex_lt(out[i], out[j]));
        } else {
            assert(lex_lt(out[j], out[i]));
        }
        if out[i] == out[j] {
            crate::text::lemma_lex_irreflexive(out[i]);
        }
    }
    out.unique_seq_to_set();
}

/// The greedy choice `sel`, named `res` and listed sorted as `out`, is a cover of least
/// size whose headers do not reach one another.
proof fn lemma_independent_cover(
    e: Seq<Entry>,
    nv: Seq<Seq<char>>,
    g: Seq<Seq<usize>>,
    inc: Seq<bool>,
    sel: Seq<int>,
    res: Seq<Seq<char>>,
    out: Seq<Seq<char>>,
)
    requires
        chosen_cover(e, nv, g, inc, sel, res),
        strictly_sorted(out),
        out.to_set() == res.to_set(),
    ensures
        out.to_set().subset_of(header_names(e)),
        covers(e, out.to_set()),
        independent_cover(e, out),
{
    lemma_chosen_covers(e, nv, g, inc, sel, res);
    lemma_chosen_apart(e, nv, g, inc, sel, res);
    lemma_strictly_sorted_len(out);
    assert forall|c: Set<Seq<char>>|
        c.subset_of(header_names(e)) && #[trigger] covers(e, c) implies out.len() <= c.len() by {
        lemma_chosen_least(e, nv, g, inc, sel, res, c);
    }
}

/// Every header is reachable from some header of `c`.
pub open spec fn covers(e: Seq<Entry>, c: Set<Seq<char>>) -> bool {
    forall|n: Seq<char>|
        #[trigger] header_names(e).contains(n) ==> exists|m: Seq<char>| c.contains(m) && name_reaches(e, m, n)
}

/// No header of `out` reaches another, and no set of headers that covers them all is
/// smaller than `out`.
pub open spec fn independent_cover(e: Seq<Entry>, out: Seq<Seq<char>>) -> bool {
    &&& forall|m1: Seq<char>, m2: Seq<char>|
        out.to_set().contains(m1) && out.to_set().contains(m2) && m1 != m2 ==> !#[trigger] name_reaches(
            e,
            m1,
            m2,
        )
    &&& forall|c: Set<Seq<char>>|
        c.subset_of(header_names(e)) && #[trigger] covers(e, c) ==> out.len() <= c.len()
}

/// What the top-level headers `out` of the entries `e` are: strictly sorted; the names that
/// no node includes, when there are any; otherwise a smallest set of header names from
/// which every header is reachable, none of them reaching another.
pub open spec fn independent_headers_ok(e: Seq<Entry>, out: Seq<Seq<char>>) -> bool {
    &&& strictly_sorted(out)
    &&& !independent_names(e).is_empty() ==> out.to_set() == independent_names(e)
    &&& independent_names(e).is_empty() ==> {
        &&& out.to_set().subset_of(header_names(e))
        &&& covers(e, out.to_set())
        &&& independent_cover(e, out)
    }
}

/// The number of nodes of the trees.
pub open spec fn node_count(trees: Seq<TreeNode>) -> nat {
    forest_entries(forest_view(trees)).len()
}

/// The top-level headers of a library: the header names of the trees that no tree node
/// includes, sorted and without repeats. When every header is included by another one
/// (inclusion cycles), a greedy cover is returned instead: headers chosen one at a time,
/// each reaching the most headers not yet reached, until every header is reached; sorted
/// and without repeats. Such a cover is a smallest one: each header chosen is reached
/// back by every header that reaches it, so no set of fewer headers reaches them all.
pub fn get_independent_headers<'a>(trees: &'a [TreeNode]) -> (r: Result<Vec<&'a str>, HeaderError>)
    requires
        node_count(trees@) < usize::MAX,
    ensures
        r is Ok,
        independent_headers_ok(forest_entries(forest_view(trees@)), views(r->Ok_0@)),
{
    let ghost e = forest_entries(forest_view(trees@));
    let mut entries: Vec<(&'a str, Vec<&'a str>)> = Vec::new();
    let mut i: usize = 0;
    proof {
        lemma_forest_view(trees@);
    }
    assert(trees@.take(0) =~= Seq::<TreeNode>::empty());
    assert(entry_view(entries@) =~= forest_entries(forest_view(trees@.take(0))));
    while i < trees.len()
        invariant
            i <= trees@.len(),
            entry_view(entries@) == forest_entries(forest_view(trees@.take(i as int))),
        decreases trees@.len() - i,
    {
        collect_nodes(&trees[i], &mut entries);
        proof {
            let pre = trees@.take(i as int);
            let post = trees@.take(i + 1);
            assert(post.drop_last() =~= pre);
            assert(post.last() == trees@[i as int]);
            assert(forest_view(post).drop_last() =~= forest_view(pre));
            assert(entry_view(entries@) =~= forest_entries(forest_view(post)));
        }
        i = i + 1;
    }
    proof {
        assert(trees@.take(trees@.len() as int) =~= trees@);
        lemma_forest_entries(forest_view(trees@));
    }
    let (names, edges, included) = build_include_graph(&entries);
    let ghost nv = views(names@);
    let ghost g = edges@.map_values(|v: Vec<usize>| v@);
    let n = names.len();
    // headers that no header includes
    let mut independent: Vec<&'a str> = Vec::new();
    let mut u: usize = 0;
    while u < n
        invariant
            n == names.len(),
            nv == views(names@),
            graph_of_entries(e, nv, g, included@),
            u <= n,
            forall|x: Seq<char>|
                views(independent@).contains(x) <==> exists|w: int|
                    0 <= w < u && !included@[w] && #[trigger] nv[w] == x,
        decreases n - u,
    {
        if !included[u] {
            let ghost before = views(independent@);
            independent.push(names[u]);
            proof {
                assert(views(independent@) =~= before.push(nv[u as int]));
                assert forall|x: Seq<char>| views(independent@).contains(x) <==> exists|w: int|
                    0 <= w < u + 1 && !included@[w] && #[trigger] nv[w] == x by {
                    if views(independent@).contains(x) {
                        let k = choose|k: int| 0 <= k < views(independent@).len() && views(independent@)[k] == x;
                        if k < before.len() {
                            assert(before[k] == x);
                            assert(before.contains(x));
                        }
                    }
                    if exists|w: int| 0 <= w < u + 1 && !included@[w] && #[trigger] nv[w] == x {
                        let w = choose|w: int| 0 <= w < u + 1 && !included@[w] && #[trigger] nv[w] == x;
                        if w < u {
                            assert(before.contains(x));
                            let k = choose|k: int| 0 <= k < before.len() && before[k] == x;
                            assert(views(independent@)[k] == before[k]);
                        } else {
                            assert(views(independent@)[before.len() as int] == x);
                        }
                    }
                }
            }
        }
        u = u + 1;
    }
    proof {
        assert forall|x: Seq<char>| views(independent@).to_set().contains(x) <==> independent_names(e).contains(x) by {
            if views(independent@).contains(x) {
                let w = choose|w: int| 0 <= w < n && !included@[w] && #[trigger] nv[w] == x;
                assert(nv.to_set().contains(x));
            }
            if independent_names(e).contains(x) {
                assert(nv.to_set().contains(x));
                let w = choose|w: int| 0 <= w < nv.len() && nv[w] == x;
                assert(!included@[w]);
            }
        }
        assert(views(independent@).to_set() =~= independent_names(e));
    }
    if independent.len() > 0 {
        proof {
            assert(views(independent@).to_set().contains(views(independent@)[0]));
        }
        return Ok(sorted_unique(independent));
    }
    proof {
        assert(independent_names(e) =~= Set::<Seq<char>>::empty());
    }
    // every header is included by another one: cover them greedily
    let mut covered: Vec<bool> = Vec::new();
    let mut remaining: Vec<bool> = Vec::new();
    let mut k: usize = 0;
    while k < n
        invariant
            k <= n,
            covered.len() == k,
            remaining.len() == k,
            forall|t: int| 0 <= t < k ==> !covered@[t] && remaining@[t],
        decreases n - k,
    {
        covered.push(false);
        remaining.push(true);
        k = k + 1;
    }
    let mut result: Vec<&'a str> = Vec::new();
    let ghost mut sel: Seq<int> = Seq::empty();
    while first_true(&remaining).is_some()
        invariant
            n == names.len(),
            n < usize::MAX,
            nv == views(names@),
            g == edges@.map_values(|v: Vec<usize>| v@),
            graph_of_entries(e, nv, g, included@),
            covered.len() == n,
            remaining.len() == n,
            forall|t: int| 0 <= t < n ==> (#[trigger] remaining@[t] <==> !covered@[t]),
            result.len() == sel.len(),
            forall|k: int| 0 <= k < sel.len() ==> 0 <= #[trigger] sel[k] < n && views(result@)[k] == nv[sel[k]],
            forall|t: int|
                0 <= t < n && #[trigger] covered@[t] ==> exists|k: int|
                    0 <= k < sel.len() && reaches(g, sel[k], t),
            // what a chosen header reaches is covered
            forall|k: int, t: int|
                0 <= k < sel.len() && 0 <= t < n && #[trigger] reaches(g, sel[k], t) ==> covered@[t],
            // a chosen header is reached back by every header that reaches it
            forall|k: int, x: int|
                0 <= k < sel.len() && 0 <= x < n && #[trigger] reaches(g, x, sel[k]) ==> reaches(
                    g,
                    sel[k],
                    x,
                ),
            // no chosen header reaches another
            forall|k1: int, k2: int|
                0 <= k1 < sel.len() && 0 <= k2 < sel.len() && k1 != k2 ==> !#[trigger] reaches(
                    g,
                    sel[k1],
                    sel[k2],
                ),
        decreases count_false(covered@),
    {
        let ghost c0 = count_false(covered@);
        let ghost cov0 = covered@;
        // the remaining header that reaches the most headers not yet covered
        let mut best: Option<usize> = None;
        let mut best_coverage: usize = 0;
        let mut w: usize = 0;
        while w < n
            invariant
                n == names.len(),
                nv == views(names@),
                n < usize::MAX,
                g == edges@.map_values(|v: Vec<usize>| v@),
                graph_of_entries(e, nv, g, included@),
                covered.len() == n,
                covered@ == cov0,
                remaining.len() == n,
                forall|t: int| 0 <= t < n ==> (#[trigger] remaining@[t] <==> !covered@[t]),
                w <= n,
                match best {
                    Some(b) => b < n && remaining@[b as int] && best_coverage > 0
                        && best_coverage == 1 + fresh_reach(g, cov0, b as int, n as int),
                    None => best_coverage == 0 && forall|t: int| 0 <= t < w ==> !remaining@[t],
                },
                forall|t: int|
                    0 <= t < w && #[trigger] remaining@[t] ==> 1 + fresh_reach(g, cov0, t, n as int)
                        <= best_coverage,
            decreases n - w,
        {
            if remaining[w] {
                let mut coverage: usize = 0;
                if !covered[w] {
                    coverage = coverage + 1;
                }
                let reachable = get_reachable_nodes(w, &edges);
                let mut t: usize = 0;
                while t < n
                    invariant
                        n < usize::MAX,
                        w < n,
                        g == edges@.map_values(|v: Vec<usize>| v@),
                        reachable.len() == n,
                        covered.len() == n,
                        covered@ == cov0,
                        !cov0[w as int],
                        forall|x: int|
                            0 <= x < n ==> (#[trigger] reachable@[x] <==> reaches(g, w as int, x)),
                        t <= n,
                        coverage == 1 + fresh_reach(g, cov0, w as int, t as int),
                        coverage <= 1 + t,
                    decreases n - t,
                {
                    if reachable[t] && !covered[t] {
                        coverage = coverage + 1;
                    }
                    t = t + 1;
                }
                if coverage > best_coverage {
                    best_coverage = coverage;
                    best = Some(w);
                }
            }
            w = w + 1;
        }
        match best {
            Some(selected) => {
                let ghost old_sel = sel;
                let ghost p = selected as int;
                proof {
                    // every header that reaches the choice is reached back by it
                    assert forall|x: int| 0 <= x < n && #[trigger] reaches(g, x, p) implies reaches(g, p, x) by {
                        if !reaches(g, p, x) {
                            if cov0[x] {
                                let k = choose|k: int| 0 <= k < old_sel.len() && reaches(g, old_sel[k], x);
                                lemma_reaches_trans(g, old_sel[k], x, p);
                                assert(cov0[p]);
                            } else {
                                assert(remaining@[x]);
                                assert forall|z: int| 0 <= z < n && #[trigger] reaches(g, p, z) implies reaches(g, x, z) by {
                                    lemma_reaches_trans(g, x, p, z);
                                }
                                crate::analysis::include_graph::lemma_reaches_refl(g, x);
                                lemma_fresh_reach_more(g, cov0, x, p, x, n as int);
                            }
                        }
                    }
                    assert forall|k: int| 0 <= k < old_sel.len() implies !reaches(g, old_sel[k], p)
                        && !reaches(g, p, old_sel[k]) by {
                        if reaches(g, old_sel[k], p) {
                            assert(cov0[p]);
                        }
                        if reaches(g, p, old_sel[k]) {
                            assert(reaches(g, old_sel[k], p));
                            assert(cov0[p]);
                        }
                    }
                }
                result.push(names[selected]);
                proof {
                    sel = sel.push(p);
                    crate::analysis::include_graph::lemma_reaches_refl(g, p);
                }
                remaining.set(selected, false);
                proof {
                    lemma_count_false_set(covered@, selected as int);
                }
                covered.set(selected, true);
                proof {
                    assert forall|x: int|
                        0 <= x < n && #[trigger] covered@[x] implies exists|k: int|
                            0 <= k < sel.len() && reaches(g, sel[k], x) by {
                        if x == selected {
                            assert(reaches(g, sel[sel.len() - 1], x));
                        } else {
                            let k = choose|k: int| 0 <= k < old_sel.len() && reaches(g, old_sel[k], x);
                            assert(sel[k] == old_sel[k]);
                        }
                    }
                }
                let reachable = get_reachable_nodes(selected, &edges);
                let mut t: usize = 0;
                while t < n
                    invariant
                        n == names.len(),
                        g == edges@.map_values(|v: Vec<usize>| v@),
                        reachable.len() == n,
                        selected < n,
                        covered.len() == n,
                        remaining.len() == n,
                        t <= n,
                        count_false(covered@) < c0,
                        sel.len() > 0,
                        sel[sel.len() - 1] == selected,
                        sel.drop_last() == old_sel,
                        forall|x: int|
                            0 <= x < n ==> (#[trigger] reachable@[x] <==> reaches(g, selected as int, x)),
                        forall|x: int| 0 <= x < n ==> (#[trigger] remaining@[x] <==> !covered@[x]),
                        forall|x: int|
                            0 <= x < n && #[trigger] covered@[x] ==> exists|k: int|
                                0 <= k < sel.len() && reaches(g, sel[k], x),
                        forall|x: int| 0 <= x < n && cov0[x] ==> #[trigger] covered@[x],
                        forall|x: int| 0 <= x < t && reaches(g, selected as int, x) ==> #[trigger] covered@[x],
                    decreases n - t,
                {
                    if reachable[t] {
                        proof {
                            lemma_count_false_set_le(covered@, t as int);
                        }
                        covered.set(t, true);
                        remaining.set(t, false);
                        proof {
                            assert(reaches(g, sel[sel.len() - 1], t as int));
                        }
                    }
                    t = t + 1;
                }
                proof {
                    assert forall|k: int| 0 <= k < sel.len() implies 0 <= #[trigger] sel[k] < n
                        && views(result@)[k] == nv[sel[k]] by {
                        if k < old_sel.len() {
                            assert(sel[k] == old_sel[k]);
                        }
                    }
                    assert forall|k: int, x: int|
                        0 <= k < sel.len() && 0 <= x < n && #[trigger] reaches(g, sel[k], x) implies covered@[x] by {
                        if k < old_sel.len() {
                            assert(sel[k] == old_sel[k]);
                            assert(cov0[x]);
                        }
                    }
                    assert forall|k: int, x: int|
                        0 <= k < sel.len() && 0 <= x < n && #[trigger] reaches(g, x, sel[k]) implies reaches(
                            g,
                            sel[k],
                            x,
                        ) by {
                        if k < old_sel.len() {
                            assert(sel[k] == old_sel[k]);
                        }
                    }
                    assert forall|k1: int, k2: int|
                        0 <= k1 < sel.len() && 0 <= k2 < sel.len() && k1 != k2 implies !#[trigger] reaches(
                            g,
                            sel[k1],
                            sel[k2],
                        ) by {
                        if k1 < old_sel.len() {
                            assert(sel[k1] == old_sel[k1]);
                        }
                        if k2 < old_sel.len() {
                            assert(sel[k2] == old_sel[k2]);
                        }
                    }
                }
            },
            None => {
                // unreachable: a remaining header always covers at least itself
                proof {
                    let f = choose|f: int| 0 <= f < n && remaining@[f];
                    assert(!remaining@[f]);
                }
                if let Some(first) = first_true(&remaining) {
                    result.push(names[first]);
                    remaining.set(first, false);
                    covered.set(first, true);
                }
            },
        }
    }
    let out = sorted_unique(result);
    proof {
        assert(nv.len() == n);
        assert forall|t: int| 0 <= t < nv.len() implies #[trigger] reached_by_choice(g, sel, t) by {
            assert(!remaining@[t]);
            assert(covered@[t]);
        }
        assert(nv.len() == n);
        assert(graph_of_entries(e, nv, g, included@));
        assert(included_names(e).subset_of(header_names(e)));
        assert(views(result@).len() == sel.len());
        assert(forall|k: int| 0 <= k < sel.len() ==> 0 <= #[trigger] sel[k] < nv.len() && views(result@)[k] == nv[sel[k]]);
        assert(forall|k: int, x: int|
            0 <= k < sel.len() && 0 <= x < nv.len() && #[trigger] reaches(g, x, sel[k]) ==> reaches(
                g,
                sel[k],
                x,
            ));
        assert(forall|k1: int, k2: int|
            0 <= k1 < sel.len() && 0 <= k2 < sel.len() && k1 != k2 ==> !#[trigger] reaches(
                g,
                sel[k1],
                sel[k2],
            ));
        reveal(chosen_cover);
        assert(chosen_cover(e, nv, g, included@, sel, views(result@)));
        lemma_independent_cover(e, nv, g, included@, sel, views(result@), views(out@));
    }
    Ok(out)
}

} // verus!

verus! {

/// A library header: a name that does not start with `/`.
pub open spec fn is_lib_header(name: Seq<char>) -> bool {
    !(name.len() > 0 && name[0] == '/')
}

/// The names of the children that are system headers, in order.
pub open spec fn sys_children(cs: Seq<HeaderTree>) -> Seq<Seq<char>>
    decreases cs.len(),
{
    if cs.len() == 0 {
        Seq::empty()
    } else {
        let rest = sys_children(cs.drop_last());
        if is_lib_header(cs.last().name) {
            rest
        } else {
            rest.push(cs.last().name)
        }
    }
}

/// The system headers that library headers of the tree include, in the order a
/// last-in-first-out work list visits the nodes: a node, then the trees of its
/// children from the last to the first.
pub open spec fn tree_sys_headers(t: HeaderTree) -> Seq<Seq<char>>
    decreases t,
{
    (if is_lib_header(t.name) {
        sys_children(t.children)
    } else {
        Seq::empty()
    }) + forest_sys_headers_rev(t.children)
}

/// The system headers of the trees of `ts`, from the last tree to the first.
pub open spec fn forest_sys_headers_rev(ts: Seq<HeaderTree>) -> Seq<Seq<char>>
    decreases ts,
{
    if ts.len() == 0 {
        Seq::empty()
    } else {
        tree_sys_headers(ts.last()) + forest_sys_headers_rev(ts.drop_last())
    }
}

/// Whether `name` is a library header (does not start with `/`).
pub fn is_a_lib_header(name: &str) -> (r: bool)
    ensures
        r == is_lib_header(name@),
{
    if name.is_empty() {
        true
    } else {
        name.get_char(0) != '/'
    }
}

/// The system headers that the library headers of `tree` include directly.
pub fn get_included_sys_header<'a>(tree: &'a TreeNode) -> (r: Vec<&'a str>)
    ensures
        views(r@) == tree_sys_headers(tree@),
{
    let mut out: Vec<&'a str> = Vec::new();
    collect_sys_headers(tree, &mut out);
    assert(views(out@) =~= tree_sys_headers(tree@));
    out
}

fn collect_sys_headers<'a>(node: &'a TreeNode, out: &mut Vec<&'a str>)
    ensures
        views(final(out)@) == views(old(out)@) + tree_sys_headers(node@),
    decreases node,
{
    let ghost start = views(out@);
    let n = node.children.len();
    let ghost cs = forest_view(node.children@);
    proof {
        lemma_forest_view(node.children@);
    }
    let lib = is_a_lib_header(node.name.as_str());
    if lib {
        let mut i: usize = 0;
        assert(cs.take(0) =~= Seq::<HeaderTree>::empty());
        while i < n
            invariant
                n == node.children.len(),
                cs == forest_view(node.children@),
                cs.len() == n,
                forall|k: int| 0 <= k < n ==> #[trigger] cs[k] == tree_view(node.children@[k]),
                i <= n,
                views(out@) == start + sys_children(cs.take(i as int)),
            decreases n - i,
        {
            let child_name = node.children[i].name.as_str();
            let ghost before = views(out@);
            proof {
                assert(cs.take(i + 1).drop_last() =~= cs.take(i as int));
                assert(cs.take(i + 1).last() == cs[i as int]);
                assert(cs[i as int].name == child_name@);
            }
            if !is_a_lib_header(child_name) {
                out.push(child_name);
                assert(views(out@) =~= before.push(child_name@));
            }
            i = i + 1;
        }
        assert(cs.take(n as int) =~= cs);
    } else {
        assert(views(out@) =~= start + Seq::<Seq<char>>::empty());
    }
    let ghost mid = views(out@);
    let mut j: usize = n;
    assert(cs.take(n as int) =~= cs);
    while j > 0
        invariant
            n == node.children.len(),
            cs == forest_view(node.children@),
            cs.len() == n,
            forall|k: int| 0 <= k < n ==> #[trigger] cs[k] == tree_view(node.children@[k]),
            j <= n,
            views(out@) + forest_sys_headers_rev(cs.take(j as int)) == mid + forest_sys_headers_rev(cs),
        decreases j,
    {
        j = j - 1;
        proof {
            assert(cs.take(j + 1).drop_last() =~= cs.take(j as int));
            assert(cs.take(j + 1).last() == tree_view(node.children@[j as int]));
        }
        let ghost before = views(out@);
        collect_sys_headers(&node.children[j], out);
        proof {
            assert(views(out@) + forest_sys_headers_rev(cs.take(j as int)) =~= before
                + forest_sys_headers_rev(cs.take(j + 1)));
        }
    }
    proof {
        assert(cs.take(0) =~= Seq::<HeaderTree>::empty());
        assert(cs.take(n as int) =~= cs);
        assert(views(out@) =~= start + tree_sys_headers(node@));
    }
}

} // verus!

verus! {

/// The library headers as `String`s (`get_independent_headers` of the trees).
pub fn get_include_lib_headers(trees: &[TreeNode]) -> (r: Result<Vec<String>, HeaderError>)
    requires
        node_count(trees@) < usize::MAX,
    ensures
        r is Ok,
        independent_headers_ok(forest_entries(forest_view(trees@)), string_views(r->Ok_0@)),
{
    let headers = get_independent_headers(trees);
    let headers = match headers {
        Ok(h) => h,
        Err(e) => {
            return Err(e);
        },
    };
    let mut out: Vec<String> = Vec::new();
    let mut i: usize = 0;
    while i < headers.len()
        invariant
            i <= headers.len(),
            out.len() == i,
            forall|k: int| 0 <= k < i ==> (#[trigger] out@[k])@ == headers@[k]@,
        decreases headers.len() - i,
    {
        out.push(owned(headers[i]));
        i = i + 1;
    }
    assert(string_views(out@) =~= views(headers@));
    Ok(out)
}

/// The marker of an include directory in a system header path.
pub open spec fn include_dir_marker() -> Seq<char> {
    seq!['/', 'i', 'n', 'c', 'l', 'u', 'd', 'e', '/']
}

/// The part of a system header path after its last `/include/`, in order, for the paths
/// that have one.
pub open spec fn after_include_dirs(hs: Seq<Seq<char>>) -> Seq<Seq<char>>
    decreases hs.len(),
{
    if hs.len() == 0 {
        Seq::empty()
    } else {
        let rest = after_include_dirs(hs.drop_last());
        match find_last(hs.last(), include_dir_marker()) {
            Some(i) => rest.push(hs.last().skip(i + include_dir_marker().len())),
            None => rest,
        }
    }
}

/// The system headers of the trees whose root is one of `tops`, tree by tree, each
/// cut after its last `/include/`.
pub open spec fn top_sys_headers(ts: Seq<HeaderTree>, tops: Set<Seq<char>>) -> Seq<Seq<char>>
    decreases ts.len(),
{
    if ts.len() == 0 {
        Seq::empty()
    } else {
        top_sys_headers(ts.drop_last(), tops) + if tops.contains(ts.last().name) {
            after_include_dirs(tree_sys_headers(ts.last()))
        } else {
            Seq::empty()
        }
    }
}

/// `s` with every repeat of an earlier element left out.
pub open spec fn unique_in_order(s: Seq<Seq<char>>) -> Seq<Seq<char>>
    decreases s.len(),
{
    if s.len() == 0 {
        Seq::empty()
    } else {
        let rest = unique_in_order(s.drop_last());
        if rest.contains(s.last()) {
            rest
        } else {
            rest.push(s.last())
        }
    }
}

/// Appends `h` to `out` unless it is there already.
pub(crate) fn push_unique(out: &mut Vec<String>, h: String)
    ensures
        string_views(final(out)@) == if string_views(old(out)@).contains(h@) {
            string_views(old(out)@)
        } else {
            string_views(old(out)@).push(h@)
        },
{
    let mut k: usize = 0;
    while k < out.len()
        invariant
            k <= out.len(),
            forall|m: int| 0 <= m < k ==> (#[trigger] out@[m])@ != h@,
        decreases out.len() - k,
    {
        if out[k] == h {
            assert(string_views(out@)[k as int] == h@);
            return;
        }
        k = k + 1;
    }
    let ghost before = string_views(out@);
    proof {
        if before.contains(h@) {
            let m = choose|m: int| 0 <= m < before.len() && before[m] == h@;
            assert(out@[m]@ == h@);
        }
    }
    out.push(h);
    assert(string_views(out@) =~= before.push(h@));
}

/// The system headers that the trees of the top-level headers `top_headers` include,
/// each cut after its last `/include/` (those without one are left out), without repeats,
/// in the order they are first met.
pub fn collect_include_sys_headers(trees: &[TreeNode], top_headers: &Vec<String>) -> (r: Vec<
    String,
>)
    ensures
        string_views(r@) == unique_in_order(
            top_sys_headers(forest_view(trees@), string_views(top_headers@).to_set()),
        ),
{
    let ghost tops = string_views(top_headers@).to_set();
    let ghost fv = forest_view(trees@);
    let marker_lit = "/include/";
    proof {
        reveal_strlit("/include/");
        lemma_forest_view(trees@);
    }
    let marker = chars_of(marker_lit);
    assert(marker@ =~= include_dir_marker());
    let mut sys_headers: Vec<String> = Vec::new();
    let mut i: usize = 0;
    assert(fv.take(0) =~= Seq::<HeaderTree>::empty());
    while i < trees.len()
        invariant
            fv == forest_view(trees@),
            fv.len() == trees@.len(),
            forall|k: int| 0 <= k < trees@.len() ==> #[trigger] fv[k] == tree_view(trees@[k]),
            marker@ == include_dir_marker(),
            tops == string_views(top_headers@).to_set(),
            i <= trees.len(),
            string_views(sys_headers@) == unique_in_order(top_sys_headers(fv.take(i as int), tops)),
        decreases trees.len() - i,
    {
        let tree = &trees[i];
        let ghost before_all = top_sys_headers(fv.take(i as int), tops);
        proof {
            assert(fv.take(i + 1).drop_last() =~= fv.take(i as int));
            assert(fv.take(i + 1).last() == tree_view(*tree));
        }
        let name = tree.get_name();
        let mut is_top = false;
        let mut k: usize = 0;
        while k < top_headers.len() && !is_top
            invariant
                k <= top_headers.len(),
                is_top ==> tops.contains(name@),
                tops == string_views(top_headers@).to_set(),
                !is_top ==> forall|m: int| 0 <= m < k ==> (#[trigger] top_headers@[m])@ != name@,
            decreases top_headers.len() - k + if is_top { 0int } else { 1int },
        {
            if same_str(top_headers[k].as_str(), name) {
                assert(string_views(top_headers@)[k as int] == name@);
                is_top = true;
            } else {
                k = k + 1;
            }
        }
        proof {
            if !is_top && tops.contains(name@) {
                let m = choose|m: int| 0 <= m < string_views(top_headers@).len() && string_views(top_headers@)[m] == name@;
                assert(top_headers@[m]@ == name@);
            }
        }
        if is_top {
            let headers = get_included_sys_header(tree);
            let ghost hs = views(headers@);
            let mut j: usize = 0;
            assert(hs.take(0) =~= Seq::<Seq<char>>::empty());
            while j < headers.len()
                invariant
                    marker@ == include_dir_marker(),
                    hs == views(headers@),
                    j <= headers.len(),
                    string_views(sys_headers@) == unique_in_order(before_all + after_include_dirs(hs.take(j as int))),
                decreases headers.len() - j,
            {
                let header = headers[j];
                let hv = chars_of(header);
                proof {
                    assert(hs.take(j + 1).drop_last() =~= hs.take(j as int));
                    assert(hs.take(j + 1).last() == header@);
                }
                let ghost prev = before_all + after_include_dirs(hs.take(j as int));
                match find_last_exec(&hv, &marker) {
                    Some(idx) => {
                        proof {
                            crate::text::lemma_find_last_bounds(hv@, marker@);
                            assert(find_last(hv@, marker@) == Some(idx as int));
                            assert(idx + marker@.len() <= hv@.len());
                            assert(idx + marker.len() <= hv.len());
                        }
                        let start = idx + marker.len();
                        let h = string_of_range(&hv, start, hv.len());
                        push_unique(&mut sys_headers, h);
                        proof {
                            let s2 = before_all + after_include_dirs(hs.take(j + 1));
                            assert(s2 =~= prev.push(h@));
                            assert(s2.drop_last() =~= prev);
                        }
                    },
                    None => {
                        assert(before_all + after_include_dirs(hs.take(j + 1)) =~= prev);
                    },
                }
                j = j + 1;
            }
            proof {
                assert(hs.take(headers.len() as int) =~= hs);
                assert(hs == tree_sys_headers(tree_view(*tree)));
                assert(top_sys_headers(fv.take(i + 1), tops) =~= before_all + after_include_dirs(hs));
            }
        } else {
            assert(top_sys_headers(fv.take(i + 1), tops) =~= before_all);
        }
        i = i + 1;
    }
    assert(fv.take(trees@.len() as int) =~= fv);
    sys_headers
}

/// The system headers of the library (see `collect_include_sys_headers`), for the
/// top-level headers that `get_independent_headers` picks.
pub fn get_include_sys_headers(trees: &[TreeNode]) -> (r: Vec<String>)
    requires
        node_count(trees@) < usize::MAX,
    ensures
        exists|tops: Seq<Seq<char>>|
            independent_headers_ok(forest_entries(forest_view(trees@)), tops) && string_views(r@)
                == unique_in_order(top_sys_headers(forest_view(trees@), tops.to_set())),
{
    match get_include_lib_headers(trees) {
        Ok(header_strs) => collect_include_sys_headers(trees, &header_strs),
        Err(_) => {
            assert(false);
            Vec::new()
        },
    }
}

/// The system headers, one per line.
pub fn get_include_sys_headers_str(headers: &Vec<String>) -> (r: String)
    ensures
        r@ == crate::text::joined(string_views(headers@), seq!['\n']),
{
    let sep = "\n";
    proof {
        reveal_strlit("\n");
        assert(sep@ =~= seq!['\n']);
    }
    crate::text::join_strings(headers, sep)
}

} // verus!

verus! {

impl TreeNode {
    /// Whether `get_clean_root(include_path)` can run on this tree: every name that starts
    /// with `include_path` has a `/` right after it.
    pub fn can_clean_root(&self, include_path: &str) -> (r: bool)
        ensures
            r == tree_strippable(self@, include_path@),
    {
        let dir = chars_of(include_path);
        self.strippable_names(&dir)
    }

    fn strippable_names(&self, dir: &Vec<char>) -> (r: bool)
        ensures
            r == tree_strippable(self@, dir@),
        decreases self,
    {
        let nv = chars_of(self.name.as_str());
        if dir.len() <= nv.len() {
            assert(nv@.subrange(0, dir@.len() as int) =~= nv@.take(dir@.len() as int));
        }
        if occurs_at_exec(&nv, dir, 0) && !(dir.len() < nv.len() && nv[dir.len()] == '/') {
            return false;
        }
        assert(strippable_name(self@.name, dir@));
        let ghost cs = forest_view(self.children@);
        proof {
            lemma_forest_view(self.children@);
            lemma_stripped_forest(cs, dir@);
        }
        let mut i: usize = 0;
        while i < self.children.len()
            invariant
                cs == forest_view(self.children@),
                cs.len() == self.children@.len(),
                forall|k: int| 0 <= k < cs.len() ==> #[trigger] cs[k] == tree_view(self.children@[k]),
                forest_strippable(cs, dir@) <==> forall|k: int|
                    0 <= k < cs.len() ==> #[trigger] tree_strippable(cs[k], dir@),
                i <= self.children.len(),
                forall|k: int| 0 <= k < i ==> #[trigger] tree_strippable(cs[k], dir@),
            decreases self.children.len() - i,
        {
            if !self.children[i].strippable_names(dir) {
                assert(!tree_strippable(cs[i as int], dir@));
                assert(!forest_strippable(cs, dir@));
                assert(self@.children == cs);
                return false;
            }
            i = i + 1;
        }
        true
    }
}

/// The name under which the compiler lists `header` relative to `header_path`: `.` and the
/// rest of `header` after `header_path`.
pub fn header_base_name(header: &str, header_path: &str) -> (r: String)
    requires
        has_prefix(header@, header_path@),
    ensures
        r@ == seq!['.'] + header@.skip(header_path@.len() as int),
{
    let hv = chars_of(header);
    let rest = string_of_range(&hv, header_path.unicode_len(), hv.len());
    let mut base = owned(".");
    proof {
        reveal_strlit(".");
    }
    base.append(rest.as_str());
    assert(base@ =~= seq!['.'] + header@.skip(header_path@.len() as int));
    base
}

/// The dependency tree of `header`, read from the compiler's include listing `output` of
/// the headers in `header_path`, with `header_path` stripped from the names.
pub fn extract_header_dependency(output: &str, header: &str, header_path: &str) -> (r: Result<
    TreeNode,
    HeaderError,
>)
    requires
        has_prefix(header@, header_path@),
        all_lines_spaced(lines_of(output@)) ==> tree_strippable(
            dependency_tree(
                output@,
                seq!['.'] + header@.skip(header_path@.len() as int),
                header_path@,
            ),
            header_path@,
        ),
    ensures
        match r {
            Ok(t) => all_lines_spaced(lines_of(output@)) && t@ == stripped_tree(
                dependency_tree(
                    output@,
                    seq!['.'] + header@.skip(header_path@.len() as int),
                    header_path@,
                ),
                header_path@,
            ),
            Err(HeaderError::MissingSpace { line }) => exists|i: int|
                0 <= i < lines_of(output@).len() && !(#[trigger] lines_of(output@)[i]).contains(' ')
                    && line@ == lines_of(output@)[i] && all_lines_spaced(
                    lines_of(output@).take(i),
                ),
        },
{
    let base_name = header_base_name(header, header_path);
    let mut tree = match parse_dependency_tree(output, base_name.as_str(), header_path) {
        Ok(t) => t,
        Err(e) => {
            return Err(e);
        },
    };
    tree.get_clean_root(header_path);
    Ok(tree)
}

/// Whether a file extension is that of a header (`h`, `hpp` or `hxx`).
pub fn is_header_extension(ext: &str) -> (r: bool)
    ensures
        r == (ext@ == seq!['h'] || ext@ == seq!['h', 'p', 'p'] || ext@ == seq!['h', 'x', 'x']),
{
    let h = "h";
    let hpp = "hpp";
    let hxx = "hxx";
    proof {
        reveal_strlit("h");
        reveal_strlit("hpp");
        reveal_strlit("hxx");
        assert(h@ =~= seq!['h']);
        assert(hpp@ =~= seq!['h', 'p', 'p']);
        assert(hxx@ =~= seq!['h', 'x', 'x']);
    }
    same_str(ext, h) || same_str(ext, hpp) || same_str(ext, hxx)
}

} // verus!

verus! {

/// The names, and the included names, of a forest are those of its trees together.
pub proof fn lemma_forest_names(ts: Seq<HeaderTree>)
    ensures
        forall|n: Seq<char>|
            #[trigger] header_names(forest_entries(ts)).contains(n) <==> exists|k: int|
                0 <= k < ts.len() && header_names(tree_entries(#[trigger] ts[k])).contains(n),
        forall|n: Seq<char>|
            #[trigger] included_names(forest_entries(ts)).contains(n) <==> exists|k: int|
                0 <= k < ts.len() && included_names(tree_entries(#[trigger] ts[k])).contains(n),
    decreases ts.len(),
{
    if ts.len() > 0 {
        let init = ts.drop_last();
        lemma_forest_names(init);
        lemma_header_names_concat(forest_entries(init), tree_entries(ts.last()));
        assert forall|n: Seq<char>|
            #[trigger] header_names(forest_entries(ts)).contains(n) <==> exists|k: int|
                0 <= k < ts.len() && header_names(tree_entries(#[trigger] ts[k])).contains(n) by {
            if header_names(forest_entries(init)).contains(n) {
                let k = choose|k: int| 0 <= k < init.len() && header_names(tree_entries(#[trigger] init[k])).contains(n);
                assert(ts[k] == init[k]);
            }
            if exists|k: int| 0 <= k < ts.len() && header_names(tree_entries(#[trigger] ts[k])).contains(n) {
                let k = choose|k: int| 0 <= k < ts.len() && header_names(tree_entries(#[trigger] ts[k])).contains(n);
                if k < init.len() {
                    assert(ts[k] == init[k]);
                }
            }
        }
        assert forall|n: Seq<char>|
            #[trigger] included_names(forest_entries(ts)).contains(n) <==> exists|k: int|
                0 <= k < ts.len() && included_names(tree_entries(#[trigger] ts[k])).contains(n) by {
            if included_names(forest_entries(init)).contains(n) {
                let k = choose|k: int| 0 <= k < init.len() && included_names(tree_entries(#[trigger] init[k])).contains(n);
                assert(ts[k] == init[k]);
            }
            if exists|k: int| 0 <= k < ts.len() && included_names(tree_entries(#[trigger] ts[k])).contains(n) {
                let k = choose|k: int| 0 <= k < ts.len() && included_names(tree_entries(#[trigger] ts[k])).contains(n);
                if k < init.len() {
                    assert(ts[k] == init[k]);
                }
            }
        }
    } else {
        assert(header_names(forest_entries(ts)) =~= Set::<Seq<char>>::empty());
        assert(included_names(forest_entries(ts)) =~= Set::<Seq<char>>::empty());
    }
}

/// Law: when some header is included by none, the top-level headers do not depend on the
/// order of the trees: forests of the same trees, in any order, have the same top-level
/// headers.
pub proof fn law_top_headers_ignore_tree_order(
    t1: Seq<HeaderTree>,
    t2: Seq<HeaderTree>,
    out1: Seq<Seq<char>>,
    out2: Seq<Seq<char>>,
)
    requires
        t1.to_set() == t2.to_set(),
        !independent_names(forest_entries(t1)).is_empty(),
        independent_headers_ok(forest_entries(t1), out1),
        independent_headers_ok(forest_entries(t2), out2),
    ensures
        out1 == out2,
{
    let e1 = forest_entries(t1);
    let e2 = forest_entries(t2);
    lemma_forest_names(t1);
    lemma_forest_names(t2);
    assert forall|n: Seq<char>| header_names(e1).contains(n) <==> header_names(e2).contains(n) by {
        if header_names(e1).contains(n) {
            let k = choose|k: int| 0 <= k < t1.len() && header_names(tree_entries(#[trigger] t1[k])).contains(n);
            assert(t1.to_set().contains(t1[k]));
            let k2 = choose|k2: int| 0 <= k2 < t2.len() && t2[k2] == t1[k];
            assert(header_names(tree_entries(t2[k2])).contains(n));
        }
        if header_names(e2).contains(n) {
            let k = choose|k: int| 0 <= k < t2.len() && header_names(tree_entries(#[trigger] t2[k])).contains(n);
            assert(t2.to_set().contains(t2[k]));
            let k1 = choose|k1: int| 0 <= k1 < t1.len() && t1[k1] == t2[k];
            assert(header_names(tree_entries(t1[k1])).contains(n));
        }
    }
    assert forall|n: Seq<char>| included_names(e1).contains(n) <==> included_names(e2).contains(n) by {
        if included_names(e1).contains(n) {
            let k = choose|k: int| 0 <= k < t1.len() && included_names(tree_entries(#[trigger] t1[k])).contains(n);
            assert(t1.to_set().contains(t1[k]));
            let k2 = choose|k2: int| 0 <= k2 < t2.len() && t2[k2] == t1[k];
            assert(included_names(tree_entries(t2[k2])).contains(n));
        }
        if included_names(e2).contains(n) {
            let k = choose|k: int| 0 <= k < t2.len() && included_names(tree_entries(#[trigger] t2[k])).contains(n);
            assert(t2.to_set().contains(t2[k]));
            let k1 = choose|k1: int| 0 <= k1 < t1.len() && t1[k1] == t2[k];
            assert(included_names(tree_entries(t1[k1])).contains(n));
        }
    }
    assert(header_names(e1) =~= header_names(e2));
    assert(included_names(e1) =~= included_names(e2));
    assert(independent_names(e1) == independent_names(e2));
    crate::text::lemma_strictly_sorted_same_set(out1, out2);
}

/// Some node of `e` whose name does not start with `/` includes `h`.
spec fn lib_node_includes(e: Seq<Entry>, h: Seq<char>) -> bool {
    exists|j: int|
        0 <= j < e.len() && !(e[j].0.len() > 0 && e[j].0[0] == '/') && #[trigger] e[j].1.contains(h)
}

proof fn lemma_lib_node_includes_concat(a: Seq<Entry>, b: Seq<Entry>, h: Seq<char>)
    ensures
        lib_node_includes(a, h) ==> lib_node_includes(a + b, h),
        lib_node_includes(b, h) ==> lib_node_includes(a + b, h),
{
    if lib_node_includes(a, h) {
        let j = choose|j: int|
            0 <= j < a.len() && !(a[j].0.len() > 0 && a[j].0[0] == '/') && #[trigger] a[j].1.contains(h);
        assert((a + b)[j] == a[j]);
    }
    if lib_node_includes(b, h) {
        let j = choose|j: int|
            0 <= j < b.len() && !(b[j].0.len() > 0 && b[j].0[0] == '/') && #[trigger] b[j].1.contains(h);
        assert((a + b)[a.len() + j] == b[j]);
    }
}

proof fn lemma_sys_children_are_children(cs: Seq<HeaderTree>)
    ensures
        forall|h: Seq<char>| #[trigger] sys_children(cs).contains(h) ==> child_names(cs).contains(h)
            && !is_lib_header(h),
    decreases cs.len(),
{
    if cs.len() > 0 {
        let init = cs.drop_last();
        lemma_sys_children_are_children(init);
        assert forall|h: Seq<char>| #[trigger] sys_children(cs).contains(h) implies child_names(cs).contains(h)
            && !is_lib_header(h) by {
            if sys_children(init).contains(h) {
                assert(child_names(init).contains(h));
                let k = choose|k: int| 0 <= k < child_names(init).len() && child_names(init)[k] == h;
                assert(init[k] == cs[k]);
                assert(child_names(cs)[k] == h);
            } else {
                assert(h == cs.last().name);
                assert(child_names(cs)[cs.len() - 1] == h);
            }
        }
    }
}

proof fn lemma_tree_sys_from_lib_nodes(t: HeaderTree)
    ensures
        forall|h: Seq<char>| #[trigger] tree_sys_headers(t).contains(h) ==> lib_node_includes(tree_entries(t), h)
            && !is_lib_header(h),
    decreases t,
{
    let f = forest_entries(t.children);
    let last = seq![(t.name, child_names(t.children))];
    assert(tree_entries(t) =~= f + last);
    lemma_forest_sys_from_lib_nodes(t.children);
    lemma_sys_children_are_children(t.children);
    let own = if is_lib_header(t.name) {
        sys_children(t.children)
    } else {
        Seq::empty()
    };
    assert forall|h: Seq<char>| #[trigger] tree_sys_headers(t).contains(h) implies lib_node_includes(
        tree_entries(t),
        h,
    ) && !is_lib_header(h) by {
        lemma_lib_node_includes_concat(f, last, h);
        let k = choose|k: int| 0 <= k < tree_sys_headers(t).len() && tree_sys_headers(t)[k] == h;
        if k < own.len() {
            assert(own[k] == h);
            assert(own.contains(h));
            assert(is_lib_header(t.name));
            assert(last[0].1.contains(h));
            assert(lib_node_includes(last, h));
        } else {
            assert(forest_sys_headers_rev(t.children)[k - own.len()] == h);
            assert(forest_sys_headers_rev(t.children).contains(h));
        }
    }
}

proof fn lemma_forest_sys_from_lib_nodes(ts: Seq<HeaderTree>)
    ensures
        forall|h: Seq<char>|
            #[trigger] forest_sys_headers_rev(ts).contains(h) ==> lib_node_includes(forest_entries(ts), h)
                && !is_lib_header(h),
    decreases ts,
{
    if ts.len() > 0 {
        let init = ts.drop_last();
        lemma_forest_sys_from_lib_nodes(init);
        lemma_tree_sys_from_lib_nodes(ts.last());
        let a = tree_sys_headers(ts.last());
        assert forall|h: Seq<char>| #[trigger] forest_sys_headers_rev(ts).contains(h) implies lib_node_includes(
            forest_entries(ts),
            h,
        ) && !is_lib_header(h) by {
            lemma_lib_node_includes_concat(forest_entries(init), tree_entries(ts.last()), h);
            let k = choose|k: int| 0 <= k < forest_sys_headers_rev(ts).len() && forest_sys_headers_rev(ts)[k] == h;
            if k < a.len() {
                assert(a[k] == h);
                assert(a.contains(h));
            } else {
                assert(forest_sys_headers_rev(init)[k - a.len()] == h);
                assert(forest_sys_headers_rev(init).contains(h));
            }
        }
    }
}

proof fn lemma_children_in_sys_children(cs: Seq<HeaderTree>)
    ensures
        forall|k: int|
            0 <= k < cs.len() && !is_lib_header(#[trigger] cs[k].name) ==> sys_children(cs).contains(cs[k].name),
    decreases cs.len(),
{
    if cs.len() > 0 {
        let init = cs.drop_last();
        lemma_children_in_sys_children(init);
        assert forall|k: int|
            0 <= k < cs.len() && !is_lib_header(#[trigger] cs[k].name) implies sys_children(cs).contains(
                cs[k].name,
            ) by {
            let rest = sys_children(init);
            if k < init.len() {
                assert(init[k] == cs[k]);
                assert(rest.contains(cs[k].name));
                let m = choose|m: int| 0 <= m < rest.len() && rest[m] == cs[k].name;
                assert(rest.push(cs.last().name)[m] == cs[k].name);
            } else {
                assert(rest.push(cs.last().name)[rest.len() as int] == cs[k].name);
            }
        }
    }
}

proof fn lemma_lib_nodes_in_tree_sys(t: HeaderTree)
    ensures
        forall|h: Seq<char>|
            lib_node_includes(tree_entries(t), h) && !is_lib_header(h) ==> #[trigger] tree_sys_headers(t).contains(h),
    decreases t,
{
    let f = forest_entries(t.children);
    let last = seq![(t.name, child_names(t.children))];
    assert(tree_entries(t) =~= f + last);
    lemma_lib_nodes_in_forest_sys(t.children);
    lemma_children_in_sys_children(t.children);
    let own = if is_lib_header(t.name) {
        sys_children(t.children)
    } else {
        Seq::empty()
    };
    let fs = forest_sys_headers_rev(t.children);
    assert(tree_sys_headers(t) == own + fs);
    assert forall|h: Seq<char>|
        lib_node_includes(tree_entries(t), h) && !is_lib_header(h) implies #[trigger] tree_sys_headers(t).contains(h) by {
        let e = tree_entries(t);
        let j = choose|j: int|
            0 <= j < e.len() && !(e[j].0.len() > 0 && e[j].0[0] == '/') && #[trigger] e[j].1.contains(h);
        if j < f.len() {
            assert(f[j] == e[j]);
            assert(lib_node_includes(f, h));
            assert(fs.contains(h));
            let m = choose|m: int| 0 <= m < fs.len() && fs[m] == h;
            assert((own + fs)[own.len() + m] == h);
        } else {
            assert(e[j] == last[0]);
            assert(is_lib_header(t.name));
            let k = choose|k: int| 0 <= k < child_names(t.children).len() && child_names(t.children)[k] == h;
            assert(t.children[k].name == h);
            assert(own.contains(h));
            let m = choose|m: int| 0 <= m < own.len() && own[m] == h;
            assert((own + fs)[m] == h);
        }
    }
}

proof fn lemma_lib_nodes_in_forest_sys(ts: Seq<HeaderTree>)
    ensures
        forall|h: Seq<char>|
            lib_node_includes(forest_entries(ts), h) && !is_lib_header(h) ==> #[trigger] forest_sys_headers_rev(ts).contains(h),
    decreases ts,
{
    if ts.len() > 0 {
        let init = ts.drop_last();
        lemma_lib_nodes_in_forest_sys(init);
        lemma_lib_nodes_in_tree_sys(ts.last());
        let a = tree_sys_headers(ts.last());
        let rest = forest_sys_headers_rev(init);
        let fi = forest_entries(init);
        let te = tree_entries(ts.last());
        assert(forest_entries(ts) == fi + te);
        assert forall|h: Seq<char>|
            lib_node_includes(forest_entries(ts), h) && !is_lib_header(h) implies #[trigger] forest_sys_headers_rev(ts).contains(h) by {
            let e = fi + te;
            let j = choose|j: int|
                0 <= j < e.len() && !(e[j].0.len() > 0 && e[j].0[0] == '/') && #[trigger] e[j].1.contains(h);
            if j < fi.len() {
                assert(fi[j] == e[j]);
                assert(lib_node_includes(fi, h));
                assert(rest.contains(h));
                let m = choose|m: int| 0 <= m < rest.len() && rest[m] == h;
                assert((a + rest)[a.len() + m] == h);
            } else {
                assert(te[j - fi.len()] == e[j]);
                assert(lib_node_includes(te, h));
                assert(a.contains(h));
                let m = choose|m: int| 0 <= m < a.len() && a[m] == h;
                assert((a + rest)[m] == h);
            }
        }
    } else {
        assert(forest_entries(ts).len() == 0);
    }
}

/// Law: every system header (a name starting with `/`) that a node of the tree whose name
/// does not start with `/` includes directly is listed by `get_included_sys_header`.
pub proof fn law_sys_headers_of_lib_headers_listed(tree: &TreeNode, r: Vec<&str>, h: Seq<char>)
    requires
        call_ensures(get_included_sys_header, (tree,), r),
        h.len() > 0 && h[0] == '/',
        exists|j: int|
            0 <= j < tree_entries(tree@).len() && !(tree_entries(tree@)[j].0.len() > 0
                && tree_entries(tree@)[j].0[0] == '/') && #[trigger] tree_entries(tree@)[j].1.contains(h),
    ensures
        views(r@).contains(h),
{
    lemma_lib_nodes_in_tree_sys(tree@);
    assert(lib_node_includes(tree_entries(tree@), h));
    assert(!is_lib_header(h));
}

/// Law: every system header that `get_included_sys_header` lists is included directly by
/// a node of the tree whose name does not start with `/` (a library header); headers that
/// only system headers include are never listed.
pub proof fn law_sys_headers_included_by_lib_headers(tree: &TreeNode, r: Vec<&str>)
    requires
        call_ensures(get_included_sys_header, (tree,), r),
    ensures
        forall|h: Seq<char>|
            #[trigger] views(r@).contains(h) ==> h.len() > 0 && h[0] == '/' && exists|j: int|
                0 <= j < tree_entries(tree@).len() && !(tree_entries(tree@)[j].0.len() > 0
                    && tree_entries(tree@)[j].0[0] == '/') && #[trigger] tree_entries(tree@)[j].1.contains(h),
{
    lemma_tree_sys_from_lib_nodes(tree@);
}

/// `h` is what follows the last `/include/` of `s`.
spec fn cut_after_include(s: Seq<char>, h: Seq<char>) -> bool {
    match find_last(s, seq!['/', 'i', 'n', 'c', 'l', 'u', 'd', 'e', '/']) {
        Some(i) => h == s.skip(i + 9),
        None => false,
    }
}

proof fn lemma_after_include_dirs(hs: Seq<Seq<char>>)
    ensures
        forall|h: Seq<char>|
            #[trigger] after_include_dirs(hs).contains(h) <==> exists|m: int|
                0 <= m < hs.len() && cut_after_include(#[trigger] hs[m], h),
    decreases hs.len(),
{
    if hs.len() > 0 {
        let init = hs.drop_last();
        lemma_after_include_dirs(init);
        let rest = after_include_dirs(init);
        assert(include_dir_marker() =~= seq!['/', 'i', 'n', 'c', 'l', 'u', 'd', 'e', '/']);
        assert forall|h: Seq<char>|
            #[trigger] after_include_dirs(hs).contains(h) <==> exists|m: int|
                0 <= m < hs.len() && cut_after_include(#[trigger] hs[m], h) by {
            if after_include_dirs(hs).contains(h) {
                if rest.contains(h) {
                    let m = choose|m: int| 0 <= m < init.len() && cut_after_include(#[trigger] init[m], h);
                    assert(hs[m] == init[m]);
                } else {
                    let k = choose|k: int| 0 <= k < after_include_dirs(hs).len() && after_include_dirs(hs)[k] == h;
                    match find_last(hs.last(), include_dir_marker()) {
                        Some(i) => {
                            if k < rest.len() {
                                assert(rest.push(hs.last().skip(i + include_dir_marker().len()))[k] == rest[k]);
                            }
                            assert(cut_after_include(hs[hs.len() - 1], h));
                        },
                        None => {},
                    }
                }
            }
            if exists|m: int| 0 <= m < hs.len() && cut_after_include(#[trigger] hs[m], h) {
                let m = choose|m: int| 0 <= m < hs.len() && cut_after_include(#[trigger] hs[m], h);
                if m < init.len() {
                    assert(init[m] == hs[m]);
                    assert(rest.contains(h));
                    let q = choose|q: int| 0 <= q < rest.len() && rest[q] == h;
                    match find_last(hs.last(), include_dir_marker()) {
                        Some(i) => {
                            assert(rest.push(hs.last().skip(i + include_dir_marker().len()))[q] == h);
                        },
                        None => {},
                    }
                } else {
                    match find_last(hs.last(), include_dir_marker()) {
                        Some(i) => {
                            let v = rest.push(hs.last().skip(i + include_dir_marker().len()));
                            assert(v[rest.len() as int] == h);
                        },
                        None => {},
                    }
                }
            }
        }
    }
}

proof fn lemma_top_sys_headers(ts: Seq<HeaderTree>, tops: Set<Seq<char>>)
    ensures
        forall|h: Seq<char>|
            #[trigger] top_sys_headers(ts, tops).contains(h) <==> exists|k: int|
                0 <= k < ts.len() && tops.contains(ts[k].name) && after_include_dirs(
                    tree_sys_headers(#[trigger] ts[k]),
                ).contains(h),
    decreases ts.len(),
{
    if ts.len() > 0 {
        let init = ts.drop_last();
        lemma_top_sys_headers(init, tops);
        let a = top_sys_headers(init, tops);
        let b = if tops.contains(ts.last().name) {
            after_include_dirs(tree_sys_headers(ts.last()))
        } else {
            Seq::empty()
        };
        assert(top_sys_headers(ts, tops) == a + b);
        assert forall|h: Seq<char>|
            #[trigger] top_sys_headers(ts, tops).contains(h) <==> exists|k: int|
                0 <= k < ts.len() && tops.contains(ts[k].name) && after_include_dirs(
                    tree_sys_headers(#[trigger] ts[k]),
                ).contains(h) by {
            if (a + b).contains(h) {
                let q = choose|q: int| 0 <= q < (a + b).len() && (a + b)[q] == h;
                if q < a.len() {
                    assert(a[q] == h);
                    assert(a.contains(h));
                    let k = choose|k: int|
                        0 <= k < init.len() && tops.contains(init[k].name) && after_include_dirs(
                            tree_sys_headers(#[trigger] init[k]),
                        ).contains(h);
                    assert(ts[k] == init[k]);
                } else {
                    assert(b[q - a.len()] == h);
                    assert(ts[ts.len() - 1] == ts.last());
                }
            }
            if exists|k: int|
                0 <= k < ts.len() && tops.contains(ts[k].name) && after_include_dirs(
                    tree_sys_headers(#[trigger] ts[k]),
                ).contains(h) {
                let k = choose|k: int|
                    0 <= k < ts.len() && tops.contains(ts[k].name) && after_include_dirs(
                        tree_sys_headers(#[trigger] ts[k]),
                    ).contains(h);
                if k < init.len() {
                    assert(init[k] == ts[k]);
                    assert(a.contains(h));
                    let q = choose|q: int| 0 <= q < a.len() && a[q] == h;
                    assert((a + b)[q] == h);
                } else {
                    let q = choose|q: int| 0 <= q < b.len() && b[q] == h;
                    assert((a + b)[a.len() + q] == h);
                }
            }
        }
    }
}

/// Law: the system headers that `collect_include_sys_headers` lists are, each once,
/// exactly what follows the last `/include/` in the system headers (names starting with
/// `/`) that a library-header node (name not starting with `/`) of a tree whose root is
/// one of the top-level headers includes directly.
pub proof fn law_collected_sys_headers(
    trees: &[TreeNode],
    top_headers: &Vec<String>,
    r: Vec<String>,
    h: Seq<char>,
)
    requires
        call_ensures(collect_include_sys_headers, (trees, top_headers), r),
    ensures
        string_views(r@).no_duplicates(),
        string_views(r@).contains(h) <==> exists|k: int, j: int, s: Seq<char>|
            0 <= k < trees@.len() && string_views(top_headers@).contains(trees@[k]@.name) && 0 <= j
                < tree_entries(trees@[k]@).len() && !(tree_entries(trees@[k]@)[j].0.len() > 0
                && tree_entries(trees@[k]@)[j].0[0] == '/') && #[trigger] tree_entries(trees@[k]@)[j].1.contains(s)
                && s.len() > 0 && s[0] == '/' && (find_last(
                s,
                seq!['/', 'i', 'n', 'c', 'l', 'u', 'd', 'e', '/'],
            ) matches Some(i) && h == s.skip(i + 9)),
{
    let tops = string_views(top_headers@).to_set();
    let fv = forest_view(trees@);
    lemma_forest_view(trees@);
    let all = top_sys_headers(fv, tops);
    crate::request::prompt::lemma_unique_in_order(all);
    lemma_top_sys_headers(fv, tops);
    assert(string_views(r@) == unique_in_order(all));
    if string_views(r@).contains(h) {
        assert(all.contains(h));
        let k = choose|k: int|
            0 <= k < fv.len() && tops.contains(fv[k].name) && after_include_dirs(
                tree_sys_headers(#[trigger] fv[k]),
            ).contains(h);
        assert(fv[k] == trees@[k]@);
        let t = trees@[k]@;
        lemma_after_include_dirs(tree_sys_headers(t));
        let m = choose|m: int|
            0 <= m < tree_sys_headers(t).len() && cut_after_include(#[trigger] tree_sys_headers(t)[m], h);
        let s = tree_sys_headers(t)[m];
        assert(tree_sys_headers(t).contains(s));
        lemma_tree_sys_from_lib_nodes(t);
        let e = tree_entries(t);
        let j = choose|j: int|
            0 <= j < e.len() && !(e[j].0.len() > 0 && e[j].0[0] == '/') && #[trigger] e[j].1.contains(s);
        assert(tops.contains(t.name));
        assert(string_views(top_headers@).contains(t.name));
        assert(find_last(s, seq!['/', 'i', 'n', 'c', 'l', 'u', 'd', 'e', '/']) matches Some(i) && h == s.skip(i + 9));
    }
    if exists|k: int, j: int, s: Seq<char>|
        0 <= k < trees@.len() && string_views(top_headers@).contains(trees@[k]@.name) && 0 <= j
            < tree_entries(trees@[k]@).len() && !(tree_entries(trees@[k]@)[j].0.len() > 0
            && tree_entries(trees@[k]@)[j].0[0] == '/') && #[trigger] tree_entries(trees@[k]@)[j].1.contains(s)
            && s.len() > 0 && s[0] == '/' && (find_last(
            s,
            seq!['/', 'i', 'n', 'c', 'l', 'u', 'd', 'e', '/'],
        ) matches Some(i) && h == s.skip(i + 9)) {
        let (k, j, s) = choose|k: int, j: int, s: Seq<char>|
            0 <= k < trees@.len() && string_views(top_headers@).contains(trees@[k]@.name) && 0 <= j
                < tree_entries(trees@[k]@).len() && !(tree_entries(trees@[k]@)[j].0.len() > 0
                && tree_entries(trees@[k]@)[j].0[0] == '/') && #[trigger] tree_entries(trees@[k]@)[j].1.contains(s)
                && s.len() > 0 && s[0] == '/' && (find_last(
                s,
                seq!['/', 'i', 'n', 'c', 'l', 'u', 'd', 'e', '/'],
            ) matches Some(i) && h == s.skip(i + 9));
        let t = trees@[k]@;
        assert(fv[k] == t);
        lemma_lib_nodes_in_tree_sys(t);
        assert(lib_node_includes(tree_entries(t), s));
        assert(!is_lib_header(s));
        assert(tree_sys_headers(t).contains(s));
        let m = choose|m: int| 0 <= m < tree_sys_headers(t).len() && tree_sys_headers(t)[m] == s;
        assert(cut_after_include(tree_sys_headers(t)[m], h));
        lemma_after_include_dirs(tree_sys_headers(t));
        assert(after_include_dirs(tree_sys_headers(t)).contains(h));
        assert(tops.contains(fv[k].name));
        assert(all.contains(h));
    }
}

/// Law: a non-empty set of header trees has at least one top-level header.
pub proof fn law_top_headers_nonempty(e: Seq<Entry>, out: Seq<Seq<char>>, n: Seq<char>)
    requires
        independent_headers_ok(e, out),
        header_names(e).contains(n),
    ensures
        out.len() > 0,
{
    if !independent_names(e).is_empty() {
        let x = independent_names(e).choose();
        assert(out.to_set().contains(x));
    } else {
        let m = choose|m: Seq<char>| out.to_set().contains(m) && name_reaches(e, m, n);
        assert(out.contains(m));
    }
}

/// Law: the top-level headers are header names, each listed once, so there are no more of
/// them than there are distinct headers; and when some header is included by none, no
/// top-level header is included by another one.
pub proof fn law_top_headers_are_headers(e: Seq<Entry>, out: Seq<Seq<char>>)
    requires
        independent_headers_ok(e, out),
    ensures
        out.to_set().subset_of(header_names(e)),
        out.no_duplicates(),
        out.len() <= header_names(e).len(),
        !independent_names(e).is_empty() ==> forall|k: int|
            0 <= k < out.len() ==> !included_names(e).contains(#[trigger] out[k]),
{
    assert forall|i: int, j: int| 0 <= i < out.len() && 0 <= j < out.len() && i != j implies out[i]
        != out[j] by {
        if i < j {
            assert(lex_lt(out[i], out[j]));
            crate::text::lemma_lex_irreflexive(out[i]);
        } else {
            assert(lex_lt(out[j], out[i]));
            crate::text::lemma_lex_irreflexive(out[j]);
        }
    }
    if !independent_names(e).is_empty() {
        assert forall|k: int| 0 <= k < out.len() implies !included_names(e).contains(
            #[trigger] out[k],
        ) by {
            assert(out.to_set().contains(out[k]));
        }
    }
    let names = e.map_values(|x: Entry| x.0);
    assert(header_names(e) =~= names.to_set()) by {
        assert forall|n: Seq<char>| header_names(e).contains(n) <==> names.to_set().contains(n) by {
            if header_names(e).contains(n) {
                let i = choose|i: int| 0 <= i < e.len() && (#[trigger] e[i]).0 == n;
                assert(names[i] == n);
            }
            if names.contains(n) {
                let i = choose|i: int| 0 <= i < names.len() && names[i] == n;
                assert(e[i].0 == n);
            }
        }
    }
    vstd::seq_lib::seq_to_set_is_finite(names);
    out.unique_seq_to_set();
    vstd::set_lib::lemma_len_subset(out.to_set(), header_names(e));
}

proof fn lemma_forest_entries_concat(a: Seq<HeaderTree>, b: Seq<HeaderTree>)
    ensures
        forest_entries(a + b) == forest_entries(a) + forest_entries(b),
    decreases b.len(),
{
    if b.len() == 0 {
        assert(a + b =~= a);
        assert(forest_entries(b) =~= Seq::<Entry>::empty());
        assert(forest_entries(a) + forest_entries(b) =~= forest_entries(a));
    } else {
        lemma_forest_entries_concat(a, b.drop_last());
        assert((a + b).drop_last() =~= a + b.drop_last());
        assert((a + b).last() == b.last());
        assert(forest_entries(a + b) =~= forest_entries(a) + forest_entries(b));
    }
}

/// Law: every (layer, header) entry of the include listing becomes exactly one node of the
/// dependency forest.
pub proof fn law_one_node_per_entry(s: Seq<(usize, Seq<char>)>, d: int)
    ensures
        forest_entries(layer_forest(s, d)).len() == s.len(),
    decreases s.len(),
{
    if s.len() > 0 {
        let k = next_at_layer(s, d, 1);
        lemma_next_at_layer_bounds(s, d, 1);
        let first = seq![
            HeaderTree {
                name: clean_name(s[0].1),
                children: layer_forest(s.subrange(1, k), d + 1),
            },
        ];
        let rest = layer_forest(s.subrange(k, s.len() as int), d);
        law_one_node_per_entry(s.subrange(1, k), d + 1);
        law_one_node_per_entry(s.subrange(k, s.len() as int), d);
        lemma_forest_entries_concat(first, rest);
        assert(first.drop_last() =~= Seq::<HeaderTree>::empty());
        assert(forest_entries(first.drop_last()) =~= Seq::<Entry>::empty());
        assert(first.last() == first[0]);
        assert(forest_entries(first) =~= tree_entries(first[0]));
        assert(tree_entries(first[0]).len() == forest_entries(first[0].children).len() + 1);
        assert(first + rest =~= layer_forest(s, d));
    }
}

} // verus!
