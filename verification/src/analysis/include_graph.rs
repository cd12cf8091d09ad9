//! Reachability in a graph of headers given by index: `g[u]` lists the headers that
//! header `u` includes.
use vstd::prelude::*;

verus! {

/// All edges of `g` lead to a node of `g`.
pub open spec fn well_formed(g: Seq<Seq<usize>>) -> bool {
    forall|u: int, j: int| 0 <= u < g.len() && 0 <= j < g[u].len() ==> #[trigger] g[u][j] < g.len()
}

/// `t` is a successor of `u` in `g`.
pub open spec fn edge(g: Seq<Seq<usize>>, u: int, t: int) -> bool {
    0 <= u < g.len() && exists|j: int| 0 <= j < g[u].len() && g[u][j] == t
}

/// The nodes reachable from `s` in at most `k` steps.
pub open spec fn reach_within(g: Seq<Seq<usize>>, s: int, k: nat) -> Set<int>
    decreases k,
{
    if k == 0 {
        set![s]
    } else {
        let p = reach_within(g, s, (k - 1) as nat);
        p.union(Set::new(|t: int| exists|u: int| p.contains(u) && edge(g, u, t)))
    }
}

/// `t` is reachable from `s` (in zero or more steps).
pub open spec fn reaches(g: Seq<Seq<usize>>, s: int, t: int) -> bool {
    exists|k: nat| #[trigger] reach_within(g, s, k).contains(t)
}

pub proof fn lemma_reaches_refl(g: Seq<Seq<usize>>, s: int)
    ensures
        reaches(g, s, s),
{
    assert(reach_within(g, s, 0).contains(s));
}

pub proof fn lemma_reaches_step(g: Seq<Seq<usize>>, s: int, u: int, t: int)
    requires
        reaches(g, s, u),
        edge(g, u, t),
    ensures
        reaches(g, s, t),
{
    let k = choose|k: nat| #[trigger] reach_within(g, s, k).contains(u);
    assert(reach_within(g, s, k + 1).contains(t));
}

/// A set that holds `s` and is closed under the edges of `g` holds everything reachable
/// from `s`.
pub proof fn lemma_closed_holds_reach(g: Seq<Seq<usize>>, s: int, c: Set<int>, k: nat)
    requires
        c.contains(s),
        forall|u: int, t: int| c.contains(u) && #[trigger] edge(g, u, t) ==> c.contains(t),
    ensures
        reach_within(g, s, k).subset_of(c),
    decreases k,
{
    if k > 0 {
        lemma_closed_holds_reach(g, s, c, (k - 1) as nat);
        let p = reach_within(g, s, (k - 1) as nat);
        assert forall|t: int| reach_within(g, s, k).contains(t) implies c.contains(t) by {
            if !p.contains(t) {
                let u = choose|u: int| p.contains(u) && edge(g, u, t);
                assert(c.contains(u));
            }
        }
    }
}

/// Reachability is transitive.
pub proof fn lemma_reaches_trans(g: Seq<Seq<usize>>, s: int, u: int, t: int)
    requires
        reaches(g, s, u),
        reaches(g, u, t),
    ensures
        reaches(g, s, t),
{
    let c = Set::new(|x: int| reaches(g, s, x));
    assert forall|a: int, b: int| c.contains(a) && #[trigger] edge(g, a, b) implies c.contains(b) by {
        lemma_reaches_step(g, s, a, b);
    }
    let k = choose|k: nat| #[trigger] reach_within(g, u, k).contains(t);
    lemma_closed_holds_reach(g, u, c, k);
}

/// The number of nodes below `k` that `s` reaches and that `covered` does not mark.
pub open spec fn fresh_reach(g: Seq<Seq<usize>>, covered: Seq<bool>, s: int, k: int) -> nat
    decreases k,
{
    if k <= 0 {
        0
    } else {
        fresh_reach(g, covered, s, k - 1) + if reaches(g, s, k - 1) && !covered[k - 1] {
            1nat
        } else {
            0nat
        }
    }
}

/// A node that reaches everything `p` reaches, and one more unmarked node, reaches more
/// unmarked nodes than `p`.
pub proof fn lemma_fresh_reach_more(g: Seq<Seq<usize>>, covered: Seq<bool>, x: int, p: int, y: int, k: int)
    requires
        forall|z: int| 0 <= z < k && #[trigger] reaches(g, p, z) ==> reaches(g, x, z),
    ensures
        fresh_reach(g, covered, p, k) <= fresh_reach(g, covered, x, k),
        0 <= y < k && reaches(g, x, y) && !covered[y] && !reaches(g, p, y) ==> fresh_reach(
            g,
            covered,
            p,
            k,
        ) < fresh_reach(g, covered, x, k),
    decreases k,
{
    if k > 0 {
        lemma_fresh_reach_more(g, covered, x, p, y, k - 1);
        if reaches(g, p, k - 1) {
            assert(reaches(g, x, k - 1));
        }
    }
}

/// The number of `false` entries.
pub open spec fn count_false(s: Seq<bool>) -> nat
    decreases s.len(),
{
    if s.len() == 0 {
        0
    } else {
        count_false(s.drop_last()) + if s.last() {
            0nat
        } else {
            1nat
        }
    }
}

pub proof fn lemma_count_false_set(s: Seq<bool>, i: int)
    requires
        0 <= i < s.len(),
    ensures
        count_false(s.update(i, true)) == if s[i] {
            count_false(s)
        } else {
            (count_false(s) - 1) as nat
        },
        !s[i] ==> count_false(s) > 0,
    decreases s.len(),
{
    if i < s.len() - 1 {
        lemma_count_false_set(s.drop_last(), i);
        assert(s.update(i, true).drop_last() =~= s.drop_last().update(i, true));
    } else {
        assert(s.update(i, true).drop_last() =~= s.drop_last());
    }
}

/// The nodes reachable from `start` in `g`: `r[t]` holds exactly when `t` is reachable.
pub fn get_reachable_nodes(start: usize, g: &Vec<Vec<usize>>) -> (r: Vec<bool>)
    requires
        start < g.len(),
        well_formed(g@.map_values(|v: Vec<usize>| v@)),
    ensures
        r.len() == g.len(),
        forall|t: int|
            0 <= t < g.len() ==> (#[trigger] r@[t] <==> reaches(
                g@.map_values(|v: Vec<usize>| v@),
                start as int,
                t,
            )),
{
    let ghost gv = g@.map_values(|v: Vec<usize>| v@);
    let n = g.len();
    let mut visited: Vec<bool> = Vec::new();
    let mut i: usize = 0;
    while i < n
        invariant
            i <= n,
            visited.len() == i,
            forall|t: int| 0 <= t < i ==> !visited@[t],
        decreases n - i,
    {
        visited.push(false);
        i = i + 1;
    }
    let mut stack: Vec<usize> = Vec::new();
    stack.push(start);
    proof {
        lemma_reaches_refl(gv, start as int);
        assert(stack@[0] == start);
    }
    while stack.len() > 0
        invariant
            n == g.len(),
            gv == g@.map_values(|v: Vec<usize>| v@),
            well_formed(gv),
            start < n,
            visited.len() == n,
            forall|x: int| 0 <= x < stack.len() ==> #[trigger] stack@[x] < n,
            forall|t: int| 0 <= t < n && #[trigger] visited@[t] ==> reaches(gv, start as int, t),
            forall|x: int| 0 <= x < stack.len() ==> reaches(gv, start as int, #[trigger] stack@[x] as int),
            visited@[start as int] || stack@.contains(start),
            forall|u: int, j: int|
                0 <= u < n && visited@[u] && 0 <= j < gv[u].len() ==> visited@[#[trigger] gv[u][j] as int]
                    || stack@.contains(gv[u][j]),
        decreases count_false(visited@), stack.len(),
    {
        let ghost old_stack = stack@;
        let ghost old_visited = visited@;
        let current = stack.pop().unwrap();
        proof {
            assert(old_stack =~= stack@.push(current));
            assert(stack@.len() + 1 == old_stack.len());
            assert(old_stack[old_stack.len() - 1] == current);
        }
        if visited[current] {
            proof {
                assert forall|u: int, j: int|
                    0 <= u < n && visited@[u] && 0 <= j < gv[u].len() implies visited@[#[trigger] gv[u][j] as int]
                    || stack@.contains(gv[u][j]) by {
                    let c = gv[u][j];
                    if !visited@[c as int] {
                        assert(old_stack.contains(c));
                        let x = choose|x: int| 0 <= x < old_stack.len() && old_stack[x] == c;
                        if x < stack@.len() {
                            assert(stack@[x] == c);
                        }
                    }
                }
                if !visited@[start as int] {
                    let x = choose|x: int| 0 <= x < old_stack.len() && old_stack[x] == start;
                    if x < stack@.len() {
                        assert(stack@[x] == start);
                    }
                }
            }
            continue;
        }
        proof {
            lemma_count_false_set(visited@, current as int);
        }
        visited.set(current, true);
        let children = &g[current];
        assert(children@ == gv[current as int]);
        let m = children.len();
        let mut j: usize = 0;
        while j < m
            invariant
                n == g.len(),
                gv == g@.map_values(|v: Vec<usize>| v@),
                well_formed(gv),
                current < n,
                children@ == gv[current as int],
                m == children.len(),
                j <= m,
                visited.len() == n,
                visited@ == old_visited.update(current as int, true),
                stack@.len() >= old_stack.len() - 1,
                forall|x: int| 0 <= x < old_stack.len() - 1 ==> #[trigger] stack@[x] == old_stack[x],
                forall|x: int| 0 <= x < stack.len() ==> #[trigger] stack@[x] < n,
                forall|x: int|
                    0 <= x < stack.len() ==> reaches(gv, start as int, #[trigger] stack@[x] as int),
                reaches(gv, start as int, current as int),
                forall|k: int| 0 <= k < j ==> visited@[#[trigger] children@[k] as int] || stack@.contains(children@[k]),
            decreases m - j,
        {
            let c = children[j];
            assert(edge(gv, current as int, c as int));
            if !visited[c] {
                proof {
                    lemma_reaches_step(gv, start as int, current as int, c as int);
                }
                let ghost before = stack@;
                stack.push(c);
                proof {
                    assert forall|k: int| 0 <= k < j implies visited@[#[trigger] children@[k] as int] || stack@.contains(children@[k]) by {
                        if !visited@[children@[k] as int] {
                            let x = choose|x: int| 0 <= x < before.len() && before[x] == children@[k];
                            assert(stack@[x] == children@[k]);
                        }
                    }
                    assert(stack@[stack@.len() - 1] == c);
                }
            }
            j = j + 1;
        }
        proof {
            assert forall|u: int, k: int|
                0 <= u < n && visited@[u] && 0 <= k < gv[u].len() implies visited@[#[trigger] gv[u][k] as int]
                || stack@.contains(gv[u][k]) by {
                let c = gv[u][k];
                if u == current {
                    assert(children@[k] == c);
                } else if !visited@[c as int] {
                    assert(old_visited[u]);
                    assert(old_stack.contains(c));
                    let x = choose|x: int| 0 <= x < old_stack.len() && old_stack[x] == c;
                    if x < old_stack.len() - 1 {
                        assert(stack@[x] == c);
                    } else {
                        assert(c == current);
                    }
                }
            }
            if !visited@[start as int] {
                let x = choose|x: int| 0 <= x < old_stack.len() && old_stack[x] == start;
                if x < old_stack.len() - 1 {
                    assert(stack@[x] == start);
                }
            }
        }
    }
    proof {
        let c = Set::new(|t: int| 0 <= t < n && visited@[t]);
        assert forall|u: int, t: int| c.contains(u) && #[trigger] edge(gv, u, t) implies c.contains(t) by {
            let j = choose|j: int| 0 <= j < gv[u].len() && gv[u][j] == t;
            assert(visited@[gv[u][j] as int] || stack@.contains(gv[u][j]));
        }
        assert forall|t: int| 0 <= t < n && reaches(gv, start as int, t) implies #[trigger] visited@[t] by {
            let k = choose|k: nat| #[trigger] reach_within(gv, start as int, k).contains(t);
            lemma_closed_holds_reach(gv, start as int, c, k);
        }
    }
    visited
}

} // verus!

verus! {

/// The first position holding `true`, if any.
pub fn first_true(v: &Vec<bool>) -> (r: Option<usize>)
    ensures
        match r {
            Some(i) => i < v.len() && v@[i as int] && forall|k: int| 0 <= k < i ==> !v@[k],
            None => forall|k: int| 0 <= k < v.len() ==> !v@[k],
        },
{
    let mut i: usize = 0;
    while i < v.len()
        invariant
            i <= v.len(),
            forall|k: int| 0 <= k < i ==> !v@[k],
        decreases v.len() - i,
    {
        if v[i] {
            return Some(i);
        }
        i = i + 1;
    }
    None
}

pub proof fn lemma_count_false_set_le(s: Seq<bool>, i: int)
    requires
        0 <= i < s.len(),
    ensures
        count_false(s.update(i, true)) <= count_false(s),
{
    lemma_count_false_set(s, i);
}

} // verus!
