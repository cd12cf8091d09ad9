//! Prompts built from combinations of library functions, and the count of how often
//! each function has been prompted.
use vstd::prelude::*;
use vstd::string::StringExecFns;
use crate::request::http::{ChatMessage, MessageContent};
use crate::analysis::header::{push_unique, unique_in_order};
use crate::text::{
    join_strings, joined, owned, replace_all, replaced, same_str, sorted_unique, strictly_sorted,
    string_views, views,
};

verus! {

broadcast use vstd::string::group_string_axioms;

/// A function of the library's API, as prompts use it: its name and its signature.
#[derive(Debug)]
pub struct FuncGadget {
    pub name: String,
    pub signature: String,
}

impl FuncGadget {
    pub fn new(name: String, signature: String) -> (r: Self)
        ensures
            r.name@ == name@,
            r.signature@ == signature@,
    {
        FuncGadget { name, signature }
    }

    /// The function's name.
    pub fn get_func_name(&self) -> (r: &str)
        ensures
            r@ == self.name@,
    {
        self.name.as_str()
    }

    /// The function's signature.
    pub fn gen_signature(&self) -> (r: String)
        ensures
            r@ == self.signature@,
    {
        self.signature.clone()
    }
}

/// How often each function (by name) has been prompted.
pub struct PromptCounter {
    entries: Vec<(String, u32)>,
}

/// The map that a list of (name, count) pairs gives, a later pair replacing an earlier one.
pub open spec fn entries_map<V>(s: Seq<(String, V)>) -> Map<Seq<char>, V>
    decreases s.len(),
{
    if s.len() == 0 {
        Map::empty()
    } else {
        entries_map(s.drop_last()).insert(s.last().0@, s.last().1)
    }
}

/// No two pairs have the same name.
pub open spec fn distinct_names<V>(s: Seq<(String, V)>) -> bool {
    forall|i: int, j: int| 0 <= i < j < s.len() ==> (#[trigger] s[i]).0@ != (#[trigger] s[j]).0@
}

pub proof fn lemma_entries_map<V>(s: Seq<(String, V)>)
    requires
        distinct_names(s),
    ensures
        forall|k: Seq<char>|
            #[trigger] entries_map(s).contains_key(k) <==> exists|i: int|
                0 <= i < s.len() && s[i].0@ == k,
        forall|i: int| 0 <= i < s.len() ==> #[trigger] entries_map(s)[s[i].0@] == s[i].1,
    decreases s.len(),
{
    if s.len() > 0 {
        let init = s.drop_last();
        assert(distinct_names(init)) by {
            assert forall|i: int, j: int| 0 <= i < j < init.len() implies (#[trigger] init[i]).0@
                != (#[trigger] init[j]).0@ by {
                assert(init[i] == s[i] && init[j] == s[j]);
            }
        }
        lemma_entries_map(init);
        let lk = s.last().0@;
        assert forall|k: Seq<char>| #[trigger] entries_map(s).contains_key(k) <==> exists|i: int|
            0 <= i < s.len() && s[i].0@ == k by {
            if entries_map(s).contains_key(k) {
                if k == lk {
                    assert(s[s.len() - 1].0@ == k);
                } else {
                    assert(entries_map(init).contains_key(k));
                    let i = choose|i: int| 0 <= i < init.len() && init[i].0@ == k;
                    assert(s[i] == init[i]);
                }
            }
            if exists|i: int| 0 <= i < s.len() && s[i].0@ == k {
                let i = choose|i: int| 0 <= i < s.len() && s[i].0@ == k;
                if i < init.len() {
                    assert(init[i] == s[i]);
                    assert(entries_map(init).contains_key(k));
                }
            }
        }
        assert forall|i: int| 0 <= i < s.len() implies #[trigger] entries_map(s)[s[i].0@] == s[i].1 by {
            if i < init.len() {
                assert(init[i] == s[i]);
                assert(s[i].0@ != lk);
                assert(entries_map(init)[init[i].0@] == init[i].1);
            }
        }
    }
}

pub proof fn lemma_entries_map_update<V>(s: Seq<(String, V)>, k: int, x: (String, V))
    requires
        distinct_names(s),
        0 <= k < s.len(),
        x.0@ == s[k].0@,
    ensures
        distinct_names(s.update(k, x)),
        entries_map(s.update(k, x)) == entries_map(s).insert(x.0@, x.1),
{
    let t = s.update(k, x);
    assert(distinct_names(t)) by {
        assert forall|i: int, j: int| 0 <= i < j < t.len() implies (#[trigger] t[i]).0@ != (
        #[trigger] t[j]).0@ by {
            assert(t[i].0@ == s[i].0@ && t[j].0@ == s[j].0@);
        }
    }
    lemma_entries_map(s);
    lemma_entries_map(t);
    assert(entries_map(t) =~= entries_map(s).insert(x.0@, x.1)) by {
        assert forall|n: Seq<char>| entries_map(t).contains_key(n) <==> entries_map(s).insert(
            x.0@,
            x.1,
        ).contains_key(n) by {
            if entries_map(t).contains_key(n) {
                let i = choose|i: int| 0 <= i < t.len() && t[i].0@ == n;
                assert(s[i].0@ == n);
            }
            if entries_map(s).contains_key(n) {
                let i = choose|i: int| 0 <= i < s.len() && s[i].0@ == n;
                assert(t[i].0@ == n);
            }
            if n == x.0@ {
                assert(t[k].0@ == n);
            }
        }
        assert forall|n: Seq<char>| #[trigger] entries_map(t).contains_key(n) implies entries_map(
            t,
        )[n] == entries_map(s).insert(x.0@, x.1)[n] by {
            let i = choose|i: int| 0 <= i < t.len() && t[i].0@ == n;
            assert(entries_map(t)[t[i].0@] == t[i].1);
            if i != k {
                assert(t[i] == s[i]);
                assert(entries_map(s)[s[i].0@] == s[i].1);
            }
        }
    }
}

pub proof fn lemma_entries_map_push<V>(s: Seq<(String, V)>, x: (String, V))
    requires
        distinct_names(s),
        !entries_map(s).contains_key(x.0@),
    ensures
        distinct_names(s.push(x)),
        entries_map(s.push(x)) == entries_map(s).insert(x.0@, x.1),
{
    let t = s.push(x);
    lemma_entries_map(s);
    assert(t.drop_last() =~= s);
    assert forall|i: int, j: int| 0 <= i < j < t.len() implies (#[trigger] t[i]).0@ != (
    #[trigger] t[j]).0@ by {
        if j == s.len() {
            assert(t[i] == s[i]);
        } else {
            assert(t[i] == s[i] && t[j] == s[j]);
        }
    }
}

/// The count of `name` in a count map: its entry, or 0 when it has none.
pub open spec fn count_of(m: Map<Seq<char>, u32>, name: Seq<char>) -> int {
    if m.contains_key(name) {
        m[name] as int
    } else {
        0
    }
}

/// What a lookup of `name` in a count map gives.
pub open spec fn counter_lookup(m: Map<Seq<char>, u32>, name: Seq<char>) -> Option<u32> {
    if m.contains_key(name) {
        Some(m[name])
    } else {
        None
    }
}

impl View for PromptCounter {
    type V = Map<Seq<char>, u32>;

    closed spec fn view(&self) -> Map<Seq<char>, u32> {
        entries_map(self.entries@)
    }
}

impl PromptCounter {
    /// The counter is consistent: no name is counted twice.
    pub closed spec fn wf(&self) -> bool {
        distinct_names(self.entries@)
    }

    /// A counter in which no function has been prompted.
    pub fn new() -> (r: Self)
        ensures
            r.wf(),
            r@ == Map::<Seq<char>, u32>::empty(),
    {
        let r = PromptCounter { entries: Vec::new() };
        assert(r.entries@ =~= Seq::<(String, u32)>::empty());
        r
    }

    /// The (name, count) pairs of the counter, each name once.
    pub fn to_entries(&self) -> (r: Vec<(String, u32)>)
        requires
            self.wf(),
        ensures
            distinct_names(r@),
            entries_map(r@) == self@,
    {
        let mut out: Vec<(String, u32)> = Vec::new();
        let mut i: usize = 0;
        while i < self.entries.len()
            invariant
                i <= self.entries.len(),
                out.len() == i,
                forall|k: int| 0 <= k < i ==> (#[trigger] out@[k]).0@ == self.entries@[k].0@
                    && out@[k].1 == self.entries@[k].1,
            decreases self.entries.len() - i,
        {
            let (name, count) = &self.entries[i];
            out.push((name.clone(), *count));
            i = i + 1;
        }
        proof {
            lemma_same_names_same_map(out@, self.entries@);
        }
        out
    }
}

proof fn lemma_same_names_same_map(a: Seq<(String, u32)>, b: Seq<(String, u32)>)
    requires
        a.len() == b.len(),
        forall|k: int| 0 <= k < a.len() ==> (#[trigger] a[k]).0@ == b[k].0@ && a[k].1 == b[k].1,
    ensures
        entries_map(a) == entries_map(b),
        distinct_names(a) <==> distinct_names(b),
    decreases a.len(),
{
    if a.len() > 0 {
        lemma_same_names_same_map(a.drop_last(), b.drop_last());
        assert(a.last().0@ == b.last().0@);
    }
    if distinct_names(b) {
        assert forall|i: int, j: int| 0 <= i < j < a.len() implies (#[trigger] a[i]).0@ != (
        #[trigger] a[j]).0@ by {
            assert(a[i].0@ == b[i].0@ && a[j].0@ == b[j].0@);
        }
    }
    if distinct_names(a) {
        assert forall|i: int, j: int| 0 <= i < j < b.len() implies (#[trigger] b[i]).0@ != (
        #[trigger] b[j]).0@ by {
            assert(a[i].0@ == b[i].0@ && a[j].0@ == b[j].0@);
        }
    }
}

/// How often `key` has been prompted, if it has been counted.
pub fn get_prompt_counter_value(counter: &PromptCounter, key: &str) -> (r: Option<u32>)
    requires
        counter.wf(),
    ensures
        r == counter_lookup(counter@, key@),
{
    proof {
        lemma_entries_map(counter.entries@);
    }
    let mut i: usize = 0;
    while i < counter.entries.len()
        invariant
            i <= counter.entries.len(),
            distinct_names(counter.entries@),
            forall|k: int| 0 <= k < i ==> (#[trigger] counter.entries@[k]).0@ != key@,
        decreases counter.entries.len() - i,
    {
        if same_str(counter.entries[i].0.as_str(), key) {
            proof {
                lemma_entries_map(counter.entries@);
                assert(entries_map(counter.entries@)[counter.entries@[i as int].0@] == counter.entries@[i as int].1);
            }
            return Some(counter.entries[i].1);
        }
        i = i + 1;
    }
    None
}

/// Records that `key` has been prompted `value` times.
pub fn set_prompt_counter_value(counter: &mut PromptCounter, key: String, value: u32)
    requires
        old(counter).wf(),
    ensures
        final(counter).wf(),
        final(counter)@ == old(counter)@.insert(key@, value),
{
    proof {
        lemma_entries_map(counter.entries@);
    }
    let mut i: usize = 0;
    while i < counter.entries.len()
        invariant
            i <= counter.entries.len(),
            distinct_names(counter.entries@),
            counter.entries@ == old(counter).entries@,
            forall|k: int| 0 <= k < i ==> (#[trigger] counter.entries@[k]).0@ != key@,
        decreases counter.entries.len() - i,
    {
        if same_str(counter.entries[i].0.as_str(), key.as_str()) {
            let ghost (g, v) = (key, value);
            proof {
                lemma_entries_map_update(counter.entries@, i as int, (g, v));
            }
            counter.entries.set(i, (key, value));
            return;
        }
        i = i + 1;
    }
    let ghost (g, v) = (key, value);
    proof {
        lemma_entries_map(counter.entries@);
        lemma_entries_map_push(counter.entries@, (g, v));
    }
    counter.entries.push((key, value));
}

/// The names of the functions of a combination, in order.
pub open spec fn gadget_names(c: Seq<&FuncGadget>) -> Seq<Seq<char>> {
    c.map_values(|g: &FuncGadget| g.name@)
}

/// The counts after each name of `names`, in order, has been counted once more.
pub open spec fn counted(m: Map<Seq<char>, u32>, names: Seq<Seq<char>>) -> Map<Seq<char>, u32>
    decreases names.len(),
{
    if names.len() == 0 {
        m
    } else {
        let before = counted(m, names.drop_last());
        before.insert(names.last(), (count_of(before, names.last()) + 1) as u32)
    }
}

/// No count goes past `u32::MAX` while `names` are counted.
pub open spec fn counts_fit(m: Map<Seq<char>, u32>, names: Seq<Seq<char>>) -> bool
    decreases names.len(),
{
    names.len() == 0 || (counts_fit(m, names.drop_last()) && count_of(
        counted(m, names.drop_last()),
        names.last(),
    ) < u32::MAX)
}

/// Counts each function of `combination` as prompted once more.
pub fn update_prompt_counter(counter: &mut PromptCounter, combination: &Vec<&FuncGadget>)
    requires
        old(counter).wf(),
        counts_fit(old(counter)@, gadget_names(combination@)),
    ensures
        final(counter).wf(),
        final(counter)@ == counted(old(counter)@, gadget_names(combination@)),
{
    let ghost m0 = counter@;
    let ghost names = gadget_names(combination@);
    let mut i: usize = 0;
    assert(names.take(0) =~= Seq::<Seq<char>>::empty());
    while i < combination.len()
        invariant
            names == gadget_names(combination@),
            names.len() == combination.len(),
            i <= combination.len(),
            counter.wf(),
            counter@ == counted(m0, names.take(i as int)),
            counts_fit(m0, names),
        decreases combination.len() - i,
    {
        let func = combination[i];
        let func_name = func.get_func_name();
        proof {
            assert(names.take(i + 1).drop_last() =~= names.take(i as int));
            assert(names.take(i + 1).last() == func_name@);
            lemma_counts_fit_prefix(m0, names, i + 1);
        }
        let count = match get_prompt_counter_value(counter, func_name) {
            Some(c) => c,
            None => 0,
        };
        set_prompt_counter_value(counter, owned(func_name), count + 1);
        i = i + 1;
    }
    assert(names.take(combination.len() as int) =~= names);
}

proof fn lemma_counts_fit_prefix(m: Map<Seq<char>, u32>, names: Seq<Seq<char>>, k: int)
    requires
        counts_fit(m, names),
        0 <= k <= names.len(),
    ensures
        counts_fit(m, names.take(k)),
    decreases names.len() - k,
{
    if k < names.len() {
        lemma_counts_fit_prefix(m, names, k + 1);
        assert(names.take(k + 1).drop_last() =~= names.take(k));
    } else {
        assert(names.take(k) =~= names);
    }
}

/// The number of times `name` occurs in `names`.
pub open spec fn occurrences(names: Seq<Seq<char>>, name: Seq<char>) -> int
    decreases names.len(),
{
    if names.len() == 0 {
        0
    } else {
        occurrences(names.drop_last(), name) + if names.last() == name {
            1int
        } else {
            0int
        }
    }
}

/// A prompt for generating programs: a combination of library functions.
#[derive(Debug)]
pub struct Prompt {
    pub gadgets: Vec<&'static FuncGadget>,
}

/// The signatures of the functions of a combination, in order.
pub open spec fn gadget_signatures(c: Seq<&FuncGadget>) -> Seq<Seq<char>> {
    c.map_values(|g: &FuncGadget| g.signature@)
}

fn copy_gadgets(c: &Vec<&'static FuncGadget>) -> (r: Vec<&'static FuncGadget>)
    ensures
        r@ == c@,
{
    let mut out: Vec<&'static FuncGadget> = Vec::new();
    let mut i: usize = 0;
    while i < c.len()
        invariant
            i <= c.len(),
            out@ == c@.take(i as int),
        decreases c.len() - i,
    {
        out.push(c[i]);
        i = i + 1;
        assert(out@ =~= c@.take(i as int));
    }
    assert(c@.take(c.len() as int) =~= c@);
    out
}

impl Prompt {
    pub fn new(gadgets: Vec<&'static FuncGadget>) -> (r: Self)
        ensures
            r.gadgets@ == gadgets@,
    {
        Prompt { gadgets }
    }

    /// The prompt of `combination`, counting each of its functions as prompted once more.
    pub fn from_combination(counter: &mut PromptCounter, combination: Vec<&'static FuncGadget>) -> (r: Self)
        requires
            old(counter).wf(),
            counts_fit(old(counter)@, gadget_names(combination@)),
        ensures
            r.gadgets@ == combination@,
            final(counter).wf(),
            final(counter)@ == counted(old(counter)@, gadget_names(combination@)),
    {
        update_prompt_counter(counter, &combination);
        Prompt::new(combination)
    }

    /// Replaces the combination, counting each of its functions as prompted once more.
    pub fn set_combination(&mut self, counter: &mut PromptCounter, combination: Vec<&'static FuncGadget>)
        requires
            old(counter).wf(),
            counts_fit(old(counter)@, gadget_names(combination@)),
        ensures
            final(self).gadgets@ == combination@,
            final(counter).wf(),
            final(counter)@ == counted(old(counter)@, gadget_names(combination@)),
    {
        update_prompt_counter(counter, &combination);
        self.gadgets = combination;
    }

    /// The combination of the prompt.
    pub fn get_combination(&self) -> (r: Vec<&'static FuncGadget>)
        ensures
            r@ == self.gadgets@,
    {
        copy_gadgets(&self.gadgets)
    }

    /// The combination of the prompt, to change in place.
    pub fn get_combination_mut(&mut self) -> (r: &mut Vec<&'static FuncGadget>)
        ensures
            *r == old(self).gadgets,
            final(self).gadgets == *final(r),
    {
        &mut self.gadgets
    }

    /// The prompt written out: the signatures of its functions.
    pub fn serialize(&self) -> (r: String)
        ensures
            r@ == joined(gadget_signatures(self.gadgets@), ",\n    "@),
    {
        combination_to_str(&self.gadgets)
    }

    /// The chat messages of the prompt: the system message `sys_msg`, then the user
    /// message `user_template` with `{combinations}` replaced by the functions' signatures.
    pub fn to_chatgpt_message(&self, sys_msg: &str, user_template: &str) -> (r: Vec<ChatMessage>)
        ensures
            r@.len() == 2,
            r@[0] matches ChatMessage::System(MessageContent::Text(t)) && t@ == sys_msg@,
            r@[1] matches ChatMessage::User(MessageContent::Text(t)) && t@ == replaced(
                user_template@,
                "{combinations}"@,
                joined(gadget_signatures(self.gadgets@), ",\n    "@),
            ),
    {
        let combinations = combination_to_str(&self.gadgets);
        let user_msg = replace_all(user_template, "{combinations}", combinations.as_str());
        let mut msgs: Vec<ChatMessage> = Vec::new();
        msgs.push(ChatMessage::System(MessageContent::Text(owned(sys_msg))));
        msgs.push(ChatMessage::User(MessageContent::Text(user_msg)));
        msgs
    }
}

/// The signatures of the functions of `combination`, separated by a comma, a newline and
/// four spaces.
pub fn combination_to_str(combination: &Vec<&FuncGadget>) -> (r: String)
    ensures
        r@ == joined(gadget_signatures(combination@), ",\n    "@),
{
    let mut signatures: Vec<String> = Vec::new();
    let mut i: usize = 0;
    while i < combination.len()
        invariant
            i <= combination.len(),
            signatures.len() == i,
            forall|k: int| 0 <= k < i ==> (#[trigger] signatures@[k])@ == combination@[k].signature@,
        decreases combination.len() - i,
    {
        signatures.push(combination[i].gen_signature());
        i = i + 1;
    }
    assert(string_views(signatures@) =~= gadget_signatures(combination@));
    join_strings(&signatures, ",\n    ")
}

/// The system message for generation tasks: `gen_template`, an empty line, and the
/// context: `context_template` with `{project}` replaced by the project name, preceded by
/// the library description when there is one, then with `{headers}`, `{APIs}` and
/// `{context}` replaced.
pub open spec fn sys_gen_message(
    gen_template: Seq<char>,
    context_template: Seq<char>,
    project: Seq<char>,
    desc: Option<Seq<char>>,
    headers: Seq<char>,
    apis: Seq<char>,
    ctx: Seq<char>,
) -> Seq<char> {
    let c1 = replaced(context_template, "{project}"@, project);
    let c2 = match desc {
        Some(d) => d + c1,
        None => c1,
    };
    let c3 = replaced(c2, "{headers}"@, headers);
    let c4 = replaced(c3, "{APIs}"@, apis);
    let c5 = replaced(c4, "{context}"@, ctx);
    gen_template + "\n\n"@ + c5
}

/// The message of the system role for generative tasks (see `sys_gen_message`).
pub fn get_sys_gen_message(
    gen_template: &str,
    context_template: &str,
    project: &str,
    desc: Option<&str>,
    headers: &str,
    apis: &str,
    ctx: String,
) -> (r: String)
    ensures
        r@ == sys_gen_message(
            gen_template@,
            context_template@,
            project@,
            match desc {
                Some(d) => Some(d@),
                None => None,
            },
            headers@,
            apis@,
            ctx@,
        ),
{
    let mut template = owned(gen_template);
    let mut ctx_template = replace_all(context_template, "{project}", project);
    match desc {
        Some(d) => {
            let mut with_desc = owned(d);
            with_desc.append(ctx_template.as_str());
            ctx_template = with_desc;
        },
        None => {},
    }
    let ctx_template = replace_all(ctx_template.as_str(), "{headers}", headers);
    let ctx_template = replace_all(ctx_template.as_str(), "{APIs}", apis);
    let ctx_template = replace_all(ctx_template.as_str(), "{context}", ctx.as_str());
    template.append("\n\n");
    template.append(ctx_template.as_str());
    template
}

} // verus!

verus! {

/// Law: reading the combination of a prompt gives back the combination the prompt was made
/// with (`new`, `from_combination`) or last set to (`set_combination`): those leave `written`
/// as the prompt's gadgets, and `get_combination` reads them.
pub proof fn law_combination_read_after_write(
    written: Seq<&'static FuncGadget>,
    p: Prompt,
    read: Seq<&'static FuncGadget>,
)
    requires
        p.gadgets@ == written,
        read == p.gadgets@,
    ensures
        read == written,
{
}

/// Replacing a pattern that starts with `{` skips a prefix that holds no `{`.
proof fn lemma_replaced_skips_prefix(d: Seq<char>, x: Seq<char>, pat: Seq<char>, with: Seq<char>)
    requires
        pat.len() > 0,
        pat[0] == '{',
        forall|i: int| 0 <= i < d.len() ==> d[i] != '{',
    ensures
        replaced(d + x, pat, with) == d + replaced(x, pat, with),
    decreases d.len(),
{
    let s = d + x;
    if d.len() == 0 {
        assert(s =~= x);
    } else {
        lemma_replaced_skips_prefix(d.skip(1), x, pat, with);
        if s.len() >= pat.len() {
            assert(s.take(pat.len() as int)[0] == d[0]);
            assert(s.take(pat.len() as int) != pat);
            assert(s.skip(1) =~= d.skip(1) + x);
            assert(seq![s[0]] + (d.skip(1) + replaced(x, pat, with)) =~= d + replaced(x, pat, with));
        }
    }
}

/// Law: without a description, the system message is the generation template, a blank
/// line, and the context template with `{project}`, `{headers}`, `{APIs}` and `{context}`
/// replaced in turn by the project, the headers, the APIs and the context.
pub proof fn law_sys_gen_message_fills_context(
    gen_template: &str,
    context_template: &str,
    project: &str,
    headers: &str,
    apis: &str,
    ctx: String,
    r: String,
)
    requires
        call_ensures(
            get_sys_gen_message,
            (gen_template, context_template, project, None, headers, apis, ctx),
            r,
        ),
    ensures
        r@ == gen_template@ + seq!['\n', '\n'] + replaced(
            replaced(
                replaced(replaced(context_template@, "{project}"@, project@), "{headers}"@, headers@),
                "{APIs}"@,
                apis@,
            ),
            "{context}"@,
            ctx@,
        ),
{
    reveal_strlit("\n\n");
    assert("\n\n"@ =~= seq!['\n', '\n']);
}

/// Law: a description (holding no `{`) only adds a prefix: the system message is the one
/// without a description, with the description inserted after the blank line; the
/// placeholders are filled in all the same.
pub proof fn law_sys_gen_message_description_prefix(
    gen_template: &str,
    context_template: &str,
    project: &str,
    desc: &str,
    headers: &str,
    apis: &str,
    ctx: String,
    r: String,
)
    requires
        call_ensures(
            get_sys_gen_message,
            (gen_template, context_template, project, Some(desc), headers, apis, ctx),
            r,
        ),
        forall|i: int| 0 <= i < desc@.len() ==> desc@[i] != '{',
    ensures
        r@ == gen_template@ + seq!['\n', '\n'] + desc@ + replaced(
            replaced(
                replaced(replaced(context_template@, "{project}"@, project@), "{headers}"@, headers@),
                "{APIs}"@,
                apis@,
            ),
            "{context}"@,
            ctx@,
        ),
{
    reveal_strlit("\n\n");
    reveal_strlit("{headers}");
    reveal_strlit("{APIs}");
    reveal_strlit("{context}");
    assert("\n\n"@ =~= seq!['\n', '\n']);
    let d = desc@;
    let c1 = replaced(context_template@, "{project}"@, project@);
    lemma_replaced_skips_prefix(d, c1, "{headers}"@, headers@);
    let c3 = replaced(c1, "{headers}"@, headers@);
    lemma_replaced_skips_prefix(d, c3, "{APIs}"@, apis@);
    let c4 = replaced(c3, "{APIs}"@, apis@);
    lemma_replaced_skips_prefix(d, c4, "{context}"@, ctx@);
    let c5 = replaced(c4, "{context}"@, ctx@);
    assert(r@ =~= gen_template@ + seq!['\n', '\n'] + (d + c5));
}

/// Law: after a count is set, looking that name up gives the count set, and looking up any
/// other name gives what it gave before.
pub proof fn law_counter_read_after_write(
    m: Map<Seq<char>, u32>,
    key: Seq<char>,
    value: u32,
    other: Seq<char>,
)
    ensures
        counter_lookup(m.insert(key, value), key) == Some(value),
        other != key ==> counter_lookup(m.insert(key, value), other) == counter_lookup(m, other),
{
}

/// Law: counting a combination raises the count of each function by the number of times
/// it occurs in the combination, and leaves every other count as it was.
pub proof fn law_counted_adds_occurrences(
    m: Map<Seq<char>, u32>,
    names: Seq<Seq<char>>,
    name: Seq<char>,
)
    requires
        counts_fit(m, names),
    ensures
        count_of(counted(m, names), name) == count_of(m, name) + occurrences(names, name),
    decreases names.len(),
{
    if names.len() > 0 {
        law_counted_adds_occurrences(m, names.drop_last(), name);
        let before = counted(m, names.drop_last());
        assert(0 <= count_of(before, names.last()) < u32::MAX);
    }
}

} // verus!

verus! {

/// The (name, count) pairs as plain values.
pub open spec fn pair_views(s: Seq<(String, u32)>) -> Seq<(Seq<char>, u32)> {
    s.map_values(|p: (String, u32)| (p.0@, p.1))
}

/// The map that (name, count) pairs give, a later pair replacing an earlier one.
pub open spec fn pairs_map(s: Seq<(Seq<char>, u32)>) -> Map<Seq<char>, u32>
    decreases s.len(),
{
    if s.len() == 0 {
        Map::empty()
    } else {
        pairs_map(s.drop_last()).insert(s.last().0, s.last().1)
    }
}

/// What `serde_json` reads of a saved counter: its (name, count) pairs, or `None` where the
/// text is not a JSON object of counts.
pub uninterp spec fn json_counter_entries(text: Seq<char>) -> Option<Seq<(Seq<char>, u32)>>;

/// Reads `text` with `serde_json::from_str` as a map from names to `u32` counts, and lists its
/// pairs. Trusted: the result is `json_counter_entries` of the text.
#[verifier::external_body]
fn parse_counter_json(text: &str) -> (r: Option<Vec<(String, u32)>>)
    ensures
        match r {
            Some(v) => json_counter_entries(text@) == Some(pair_views(v@)),
            None => json_counter_entries(text@) is None,
        },
{
    let map: std::collections::BTreeMap<String, u32> = serde_json::from_str(text).ok()?;
    Some(map.into_iter().collect())
}

impl PromptCounter {
    /// The counter that the (name, count) pairs give, a later pair replacing an earlier one.
    pub fn from_pairs(pairs: Vec<(String, u32)>) -> (r: Self)
        ensures
            r.wf(),
            r@ == pairs_map(pair_views(pairs@)),
    {
        let ghost pv = pair_views(pairs@);
        let mut counter = PromptCounter::new();
        let mut i: usize = 0;
        assert(pv.take(0) =~= Seq::<(Seq<char>, u32)>::empty());
        while i < pairs.len()
            invariant
                pv == pair_views(pairs@),
                i <= pairs.len(),
                counter.wf(),
                counter@ == pairs_map(pv.take(i as int)),
            decreases pairs.len() - i,
        {
            let key = pairs[i].0.clone();
            set_prompt_counter_value(&mut counter, key, pairs[i].1);
            proof {
                assert(pv.take(i + 1).drop_last() =~= pv.take(i as int));
                assert(pv[i as int] == (pairs@[i as int].0@, pairs@[i as int].1));
            }
            i = i + 1;
        }
        assert(pv.take(pairs.len() as int) =~= pv);
        counter
    }
}

/// The counter saved as `text`, or `None` where the text is not a JSON object of counts.
pub fn counter_from_json(text: &str) -> (r: Option<PromptCounter>)
    ensures
        match json_counter_entries(text@) {
            Some(s) => r is Some && r->Some_0.wf() && r->Some_0@ == pairs_map(s),
            None => r is None,
        },
{
    match parse_counter_json(text) {
        Some(pairs) => Some(PromptCounter::from_pairs(pairs)),
        None => None,
    }
}

/// What `serde_json` reads of a saved prompt: its list of function names, or `None` where
/// the text is not a JSON list of strings.
pub uninterp spec fn json_string_list(text: Seq<char>) -> Option<Seq<Seq<char>>>;

/// Reads `text` with `serde_json::from_str` as a list of strings. Trusted: the result is
/// `json_string_list` of the text.
#[verifier::external_body]
fn parse_name_list(text: &str) -> (r: Option<Vec<String>>)
    ensures
        match r {
            Some(v) => json_string_list(text@) == Some(string_views(v@)),
            None => json_string_list(text@) is None,
        },
{
    serde_json::from_str(text).ok()
}

/// The position of the first gadget of `gadgets` named `name`, if there is one.
pub open spec fn first_named(gadgets: Seq<&FuncGadget>, name: Seq<char>) -> Option<int> {
    if exists|k: int| 0 <= k < gadgets.len() && #[trigger] gadgets[k].name@ == name {
        Some(
            choose|k: int|
                0 <= k < gadgets.len() && #[trigger] gadgets[k].name@ == name && forall|m: int|
                    0 <= m < k ==> gadgets[m].name@ != name,
        )
    } else {
        None
    }
}

/// No gadget of `gadgets` is named `name`.
pub open spec fn no_gadget_named(gadgets: Seq<&FuncGadget>, name: Seq<char>) -> bool {
    forall|k: int| 0 <= k < gadgets.len() ==> gadgets[k].name@ != name
}

/// The gadget of `gadgets` named `name`: the first with that name.
pub fn gadget_by_name(gadgets: &Vec<&'static FuncGadget>, name: &str) -> (r: Option<&'static FuncGadget>)
    ensures
        match r {
            Some(g) => exists|k: int|
                0 <= k < gadgets.len() && gadgets@[k] == g && g.name@ == name@ && forall|m: int|
                    0 <= m < k ==> gadgets@[m].name@ != name@,
            None => forall|k: int| 0 <= k < gadgets.len() ==> gadgets@[k].name@ != name@,
        },
{
    let mut i: usize = 0;
    while i < gadgets.len()
        invariant
            i <= gadgets.len(),
            forall|m: int| 0 <= m < i ==> gadgets@[m].name@ != name@,
        decreases gadgets.len() - i,
    {
        if same_str(gadgets[i].name.as_str(), name) {
            return Some(gadgets[i]);
        }
        i = i + 1;
    }
    None
}

/// `v` lists, for each name of `names`, the first gadget of `gadgets` with that name.
pub open spec fn named_gadgets(
    gadgets: Seq<&FuncGadget>,
    names: Seq<Seq<char>>,
    v: Seq<&FuncGadget>,
) -> bool {
    &&& v.len() == names.len()
    &&& forall|i: int|
        0 <= i < names.len() ==> (#[trigger] v[i]).name@ == names[i] && exists|k: int|
            0 <= k < gadgets.len() && gadgets[k] == v[i] && forall|m: int|
                0 <= m < k ==> gadgets[m].name@ != names[i]
}

/// The gadgets named by `names`, each the first of `gadgets` with its name; `None` where
/// some name has no gadget.
pub fn gadgets_by_names(gadgets: &Vec<&'static FuncGadget>, names: &Vec<String>) -> (r: Option<
    Vec<&'static FuncGadget>,
>)
    ensures
        match r {
            Some(v) => named_gadgets(gadgets@, string_views(names@), v@),
            None => exists|i: int|
                0 <= i < names.len() && #[trigger] no_gadget_named(gadgets@, string_views(names@)[i]),
        },
{
    let ghost sv = string_views(names@);
    let mut out: Vec<&'static FuncGadget> = Vec::new();
    let mut i: usize = 0;
    while i < names.len()
        invariant
            sv == string_views(names@),
            i <= names.len(),
            out.len() == i,
            forall|j: int|
                0 <= j < i ==> (#[trigger] out@[j]).name@ == sv[j] && exists|k: int|
                    0 <= k < gadgets.len() && gadgets@[k] == out@[j] && forall|m: int|
                        0 <= m < k ==> gadgets@[m].name@ != sv[j],
        decreases names.len() - i,
    {
        assert(sv[i as int] == names@[i as int]@);
        match gadget_by_name(gadgets, names[i].as_str()) {
            Some(g) => {
                let ghost before = out@;
                out.push(g);
                proof {
                    assert forall|j: int| 0 <= j < i + 1 implies (#[trigger] out@[j]).name@ == sv[j]
                        && exists|k: int|
                        0 <= k < gadgets.len() && gadgets@[k] == out@[j] && forall|m: int|
                            0 <= m < k ==> gadgets@[m].name@ != sv[j] by {
                        if j < i {
                            assert(out@[j] == before[j]);
                        }
                    }
                }
            },
            None => {
                assert(no_gadget_named(gadgets@, sv[i as int]));
                return None;
            },
        }
        i = i + 1;
    }
    Some(out)
}

/// The combination saved as `text`: the gadgets its names name (see `gadgets_by_names`);
/// `None` where the text is not a JSON list of strings or some name has no gadget.
pub fn combination_from_json(gadgets: &Vec<&'static FuncGadget>, text: &str) -> (r: Option<
    Vec<&'static FuncGadget>,
>)
    ensures
        json_string_list(text@) is None ==> r is None,
        json_string_list(text@) is Some && r is Some ==> named_gadgets(
            gadgets@,
            json_string_list(text@)->Some_0,
            r->Some_0@,
        ),
        json_string_list(text@) is Some && r is None ==> exists|i: int|
            0 <= i < json_string_list(text@)->Some_0.len() && #[trigger] no_gadget_named(
                gadgets@,
                json_string_list(text@)->Some_0[i],
            ),
{
    match parse_name_list(text) {
        None => None,
        Some(names) => {
            let r = gadgets_by_names(gadgets, &names);
            assert(json_string_list(text@)->Some_0 == string_views(names@));
            r
        },
    }
}

/// The JSON text that `serde_json` writes for a map from the names to the counts of the pairs.
pub uninterp spec fn json_of_counts(pairs: Seq<(Seq<char>, u32)>) -> Seq<char>;

/// The names of (name, count) pairs, in order.
pub open spec fn pair_names(s: Seq<(Seq<char>, u32)>) -> Seq<Seq<char>> {
    s.map_values(|p: (Seq<char>, u32)| p.0)
}

/// Writes the pairs, whose names are strictly increasing, with `serde_json::to_string` as a
/// JSON object from names to counts (the pairs collected into a `BTreeMap`, which keeps
/// them as they are). Trusted: the result is `json_of_counts` of the pairs.
#[verifier::external_body]
fn counts_to_json(pairs: Vec<(String, u32)>) -> (r: String)
    requires
        strictly_sorted(pair_names(pair_views(pairs@))),
    ensures
        r@ == json_of_counts(pair_views(pairs@)),
{
    let map: std::collections::BTreeMap<String, u32> = pairs.into_iter().collect();
    serde_json::to_string(&map).unwrap()
}

impl PromptCounter {
    /// The counter as the JSON text that is saved: its (name, count) pairs in increasing
    /// order of name, written by `serde_json`.
    pub fn to_json(&self) -> (r: String)
        requires
            self.wf(),
        ensures
            exists|s: Seq<(Seq<char>, u32)>|
                strictly_sorted(pair_names(s)) && pair_names(s).to_set() == self@.dom() && (forall|i: int|
                    0 <= i < s.len() ==> self@[(#[trigger] s[i]).0] == s[i].1) && r@ == json_of_counts(s),
    {
        let entries = self.to_entries();
        proof {
            lemma_entries_map(entries@);
        }
        let mut names: Vec<&str> = Vec::new();
        let mut i: usize = 0;
        while i < entries.len()
            invariant
                i <= entries.len(),
                names.len() == i,
                forall|k: int| 0 <= k < i ==> (#[trigger] names@[k])@ == entries@[k].0@,
            decreases entries.len() - i,
        {
            names.push(entries[i].0.as_str());
            i = i + 1;
        }
        let sorted = sorted_unique(names);
        proof {
            assert forall|n: Seq<char>| views(sorted@).to_set().contains(n) <==> self@.contains_key(n) by {
                if views(names@).to_set().contains(n) {
                    let k = choose|k: int| 0 <= k < views(names@).len() && views(names@)[k] == n;
                    assert(entries@[k].0@ == n);
                }
                if self@.contains_key(n) {
                    let k = choose|k: int| 0 <= k < entries@.len() && entries@[k].0@ == n;
                    assert(views(names@)[k] == n);
                    assert(views(names@).contains(n));
                }
            }
        }
        let mut pairs: Vec<(String, u32)> = Vec::new();
        let mut j: usize = 0;
        while j < sorted.len()
            invariant
                self.wf(),
                j <= sorted.len(),
                pairs.len() == j,
                forall|n: Seq<char>| views(sorted@).to_set().contains(n) <==> self@.contains_key(n),
                forall|k: int| 0 <= k < j ==> (#[trigger] pairs@[k]).0@ == sorted@[k]@
                    && pairs@[k].1 == self@[sorted@[k]@],
            decreases sorted.len() - j,
        {
            let name = sorted[j];
            proof {
                assert(views(sorted@)[j as int] == name@);
                assert(views(sorted@).to_set().contains(name@));
            }
            let value = match get_prompt_counter_value(self, name) {
                Some(v) => v,
                None => {
                    assert(false);
                    0
                },
            };
            pairs.push((owned(name), value));
            j = j + 1;
        }
        let ghost sv = pair_views(pairs@);
        proof {
            assert(pair_names(sv) =~= views(sorted@));
            assert forall|k: int| 0 <= k < sv.len() implies self@[(#[trigger] sv[k]).0] == sv[k].1 by {
                assert(sv[k] == (pairs@[k].0@, pairs@[k].1));
            }
            assert forall|n: Seq<char>| pair_names(sv).to_set().contains(n) <==> self@.dom().contains(n) by {}
            assert(pair_names(sv).to_set() =~= self@.dom());
        }
        counts_to_json(pairs)
    }
}

/// The JSON text that `serde_json` writes for a list of strings.
pub uninterp spec fn json_of_names(names: Seq<Seq<char>>) -> Seq<char>;

/// Writes the names with `serde_json::to_string` as a JSON list of strings. Trusted: the
/// result is `json_of_names` of the names.
#[verifier::external_body]
fn names_to_json(names: Vec<String>) -> (r: String)
    ensures
        r@ == json_of_names(string_views(names@)),
{
    serde_json::to_string(&names).unwrap()
}

/// The combination as the JSON text that is saved: the list of its functions' names.
pub fn combination_to_json(combination: &[&FuncGadget]) -> (r: String)
    ensures
        r@ == json_of_names(gadget_names(combination@)),
{
    let mut names: Vec<String> = Vec::new();
    let mut i: usize = 0;
    while i < combination.len()
        invariant
            i <= combination.len(),
            names.len() == i,
            forall|k: int| 0 <= k < i ==> (#[trigger] names@[k])@ == combination@[k].name@,
        decreases combination.len() - i,
    {
        names.push(combination[i].name.clone());
        i = i + 1;
    }
    assert(string_views(names@) =~= gadget_names(combination@));
    names_to_json(names)
}

} // verus!

verus! {

/// The type names of the functions, one function after the other.
pub open spec fn all_types(s: Seq<Seq<Seq<char>>>) -> Seq<Seq<char>>
    decreases s.len(),
{
    if s.len() == 0 {
        Seq::empty()
    } else {
        all_types(s.drop_last()) + s.last()
    }
}

/// The type names as plain values, function by function.
pub open spec fn type_views(v: Seq<Vec<String>>) -> Seq<Seq<Seq<char>>> {
    v.map_values(|t: Vec<String>| string_views(t@))
}

/// The types whose definitions give a combination its context: for each function its
/// argument types and then its return type (`func_types`, one list per function, in the
/// combination's order), then the types that are always shown (`force_types`); each type
/// once, in the order it is first met.
pub fn combination_types(func_types: &Vec<Vec<String>>, force_types: &Vec<String>) -> (r: Vec<String>)
    ensures
        string_views(r@) == unique_in_order(all_types(type_views(func_types@)) + string_views(force_types@)),
{
    let ghost tv = type_views(func_types@);
    let mut out: Vec<String> = Vec::new();
    let mut i: usize = 0;
    assert(tv.take(0) =~= Seq::<Seq<Seq<char>>>::empty());
    assert(unique_in_order(Seq::<Seq<char>>::empty()) =~= Seq::<Seq<char>>::empty());
    while i < func_types.len()
        invariant
            tv == type_views(func_types@),
            i <= func_types.len(),
            string_views(out@) == unique_in_order(all_types(tv.take(i as int))),
        decreases func_types.len() - i,
    {
        let types = &func_types[i];
        let ghost before = all_types(tv.take(i as int));
        assert(tv[i as int] == string_views(types@));
        let mut j: usize = 0;
        assert(before + string_views(types@).take(0) =~= before);
        while j < types.len()
            invariant
                tv == type_views(func_types@),
                i < func_types.len(),
                types == func_types@[i as int],
                tv[i as int] == string_views(types@),
                j <= types.len(),
                string_views(out@) == unique_in_order(before + string_views(types@).take(j as int)),
            decreases types.len() - j,
        {
            let ghost s0 = before + string_views(types@).take(j as int);
            push_unique(&mut out, types[j].clone());
            proof {
                let s1 = before + string_views(types@).take(j + 1);
                assert(s1 =~= s0.push(types@[j as int]@));
                assert(s1.drop_last() =~= s0);
            }
            j = j + 1;
        }
        proof {
            assert(string_views(types@).take(types.len() as int) =~= string_views(types@));
            assert(tv.take(i + 1).drop_last() =~= tv.take(i as int));
        }
        i = i + 1;
    }
    assert(tv.take(func_types.len() as int) =~= tv);
    let ghost fa = all_types(tv);
    let mut k: usize = 0;
    assert(fa + string_views(force_types@).take(0) =~= fa);
    while k < force_types.len()
        invariant
            k <= force_types.len(),
            string_views(out@) == unique_in_order(fa + string_views(force_types@).take(k as int)),
        decreases force_types.len() - k,
    {
        let ghost s0 = fa + string_views(force_types@).take(k as int);
        push_unique(&mut out, force_types[k].clone());
        proof {
            let s1 = fa + string_views(force_types@).take(k + 1);
            assert(s1 =~= s0.push(force_types@[k as int]@));
            assert(s1.drop_last() =~= s0);
        }
        k = k + 1;
    }
    assert(string_views(force_types@).take(force_types.len() as int) =~= string_views(force_types@));
    out
}

/// The context of a combination: the definitions found for its types (see
/// `combination_types`), separated by blank lines.
pub fn get_combination_definitions(definitions: &Vec<String>) -> (r: String)
    ensures
        r@ == joined(string_views(definitions@), "\n\n"@),
{
    join_strings(definitions, "\n\n")
}

/// The strings of `unique_in_order(s)` are those of `s`, each once.
pub(crate) proof fn lemma_unique_in_order(s: Seq<Seq<char>>)
    ensures
        forall|x: Seq<char>| #[trigger] unique_in_order(s).contains(x) <==> s.contains(x),
        unique_in_order(s).no_duplicates(),
    decreases s.len(),
{
    if s.len() > 0 {
        let init = s.drop_last();
        lemma_unique_in_order(init);
        let rest = unique_in_order(init);
        assert forall|x: Seq<char>| #[trigger] unique_in_order(s).contains(x) <==> s.contains(x) by {
            if s.contains(x) {
                let k = choose|k: int| 0 <= k < s.len() && s[k] == x;
                if k < init.len() {
                    assert(init[k] == x);
                    assert(init.contains(x));
                } else {
                    assert(x == s.last());
                }
                if !rest.contains(s.last()) {
                    assert(unique_in_order(s) == rest.push(s.last()));
                    if rest.contains(x) {
                        let m = choose|m: int| 0 <= m < rest.len() && rest[m] == x;
                        assert(rest.push(s.last())[m] == x);
                    } else {
                        assert(rest.push(s.last())[rest.len() as int] == x);
                    }
                }
            }
            if unique_in_order(s).contains(x) {
                if rest.contains(x) {
                    let k = choose|k: int| 0 <= k < init.len() && init[k] == x;
                    assert(s[k] == x);
                } else {
                    let m = choose|m: int| 0 <= m < unique_in_order(s).len() && unique_in_order(s)[m] == x;
                    if m < rest.len() {
                        assert(unique_in_order(s)[m] == rest[m]);
                    }
                    assert(s[s.len() - 1] == x);
                }
            }
        }
        if !rest.contains(s.last()) {
            let u = rest.push(s.last());
            assert forall|a: int, b: int| 0 <= a < u.len() && 0 <= b < u.len() && a != b implies u[a] != u[b] by {
                if a == rest.len() as int && b < rest.len() {
                    assert(rest[b] == u[b]);
                } else if b == rest.len() as int && a < rest.len() {
                    assert(rest[a] == u[a]);
                }
            }
        }
    }
}

/// The type names of `all_types(s)` are exactly those of the lists of `s`.
proof fn lemma_all_types(s: Seq<Seq<Seq<char>>>)
    ensures
        forall|i: int, j: int|
            0 <= i < s.len() && 0 <= j < s[i].len() ==> all_types(s).contains(#[trigger] s[i][j]),
        forall|x: Seq<char>|
            #[trigger] all_types(s).contains(x) ==> exists|i: int, j: int|
                0 <= i < s.len() && 0 <= j < s[i].len() && s[i][j] == x,
    decreases s.len(),
{
    if s.len() > 0 {
        let init = s.drop_last();
        lemma_all_types(init);
        let a = all_types(init);
        let l = s.last();
        assert(all_types(s) == a + l);
        assert forall|i: int, j: int| 0 <= i < s.len() && 0 <= j < s[i].len() implies all_types(s).contains(
            #[trigger] s[i][j],
        ) by {
            if i < init.len() {
                assert(init[i] == s[i]);
                assert(a.contains(init[i][j]));
                let k = choose|k: int| 0 <= k < a.len() && a[k] == s[i][j];
                assert((a + l)[k] == s[i][j]);
            } else {
                assert((a + l)[a.len() + j] == l[j]);
            }
        }
        assert forall|x: Seq<char>| #[trigger] all_types(s).contains(x) implies exists|i: int, j: int|
            0 <= i < s.len() && 0 <= j < s[i].len() && s[i][j] == x by {
            let k = choose|k: int| 0 <= k < (a + l).len() && (a + l)[k] == x;
            if k < a.len() {
                assert(a[k] == x);
                assert(a.contains(x));
                let (i, j) = choose|i: int, j: int| 0 <= i < init.len() && 0 <= j < init[i].len() && init[i][j] == x;
                assert(s[i] == init[i]);
            } else {
                assert(l[k - a.len()] == x);
                assert(s[s.len() - 1][k - a.len()] == x);
            }
        }
    }
}

/// Law: `combination_types` lists every argument and return type of every function and
/// every forced type, lists nothing else, and lists each type once.
pub proof fn law_combination_types_complete(
    func_types: &Vec<Vec<String>>,
    force_types: &Vec<String>,
    r: Vec<String>,
)
    requires
        call_ensures(combination_types, (func_types, force_types), r),
    ensures
        forall|i: int, j: int|
            0 <= i < func_types.len() && 0 <= j < func_types@[i]@.len() ==> string_views(r@).contains(
                (#[trigger] func_types@[i]@[j])@,
            ),
        forall|k: int| 0 <= k < force_types.len() ==> string_views(r@).contains((#[trigger] force_types@[k])@),
        forall|t: Seq<char>|
            #[trigger] string_views(r@).contains(t) ==> (exists|i: int, j: int|
                0 <= i < func_types.len() && 0 <= j < func_types@[i]@.len() && func_types@[i]@[j]@ == t)
                || (exists|k: int| 0 <= k < force_types.len() && force_types@[k]@ == t),
        string_views(r@).no_duplicates(),
{
    let tv = type_views(func_types@);
    let a = all_types(tv);
    let f = string_views(force_types@);
    lemma_all_types(tv);
    lemma_unique_in_order(a + f);
    assert forall|i: int, j: int|
        0 <= i < func_types.len() && 0 <= j < func_types@[i]@.len() implies string_views(r@).contains(
            (#[trigger] func_types@[i]@[j])@,
        ) by {
        assert(tv[i] == string_views(func_types@[i]@));
        assert(tv[i][j] == func_types@[i]@[j]@);
        assert(a.contains(tv[i][j]));
        let m = choose|m: int| 0 <= m < a.len() && a[m] == tv[i][j];
        assert((a + f)[m] == tv[i][j]);
    }
    assert forall|k: int| 0 <= k < force_types.len() implies string_views(r@).contains(
        (#[trigger] force_types@[k])@,
    ) by {
        assert(f[k] == force_types@[k]@);
        assert((a + f)[a.len() + k] == f[k]);
    }
    assert forall|t: Seq<char>| #[trigger] string_views(r@).contains(t) implies (exists|i: int, j: int|
        0 <= i < func_types.len() && 0 <= j < func_types@[i]@.len() && func_types@[i]@[j]@ == t)
        || (exists|k: int| 0 <= k < force_types.len() && force_types@[k]@ == t) by {
        assert((a + f).contains(t));
        let m = choose|m: int| 0 <= m < (a + f).len() && (a + f)[m] == t;
        if m < a.len() {
            assert(a[m] == t);
            assert(a.contains(t));
            let (i, j) = choose|i: int, j: int| 0 <= i < tv.len() && 0 <= j < tv[i].len() && tv[i][j] == t;
            assert(tv[i] == string_views(func_types@[i]@));
            assert(func_types@[i]@[j]@ == t);
        } else {
            assert(f[m - a.len()] == t);
            assert(force_types@[m - a.len()]@ == t);
        }
    }
}

} // verus!
