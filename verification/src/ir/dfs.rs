//! The state of a depth-first search for strongly connected components, and what
//! each of its steps keeps.

use vstd::prelude::*;
use crate::ir::graph;
use crate::ir::graph::{reaches, Edges};

verus! {

/// Where a search for strongly connected components stands.
pub struct Dfs {
    /// The nodes that were visited, numbered in the order of their visits.
    pub num: Map<usize, int>,
    /// The visited nodes whose component is not complete, in the order of their visits.
    pub stack: Seq<usize>,
    /// The nodes of complete components, with the number of the component.
    pub done: Map<usize, int>,
    /// The nodes whose successors are being explored.
    pub open: Seq<usize>,
}

/// The node `x` reaches an open node.
#[verifier::opaque]
pub open spec fn reaches_open(e: Edges, s: Dfs, x: usize) -> bool {
    exists|g: usize| s.open.contains(g) && #[trigger] reaches(e, x, g)
}

/// The open node that `x` reaches.
proof fn open_reached(e: Edges, s: Dfs, x: usize) -> (g: usize)
    requires
        reaches_open(e, s, x),
    ensures
        s.open.contains(g),
        reaches(e, x, g),
{
    reveal(reaches_open);
    choose|g: usize| s.open.contains(g) && #[trigger] reaches(e, x, g)
}

proof fn lemma_reaches_open(e: Edges, s: Dfs, x: usize, g: usize)
    requires
        s.open.contains(g),
        reaches(e, x, g),
    ensures
        reaches_open(e, s, x),
{
    reveal(reaches_open);
}

/// What holds of the search at every step.
pub open spec fn sound(e: Edges, s: Dfs) -> bool {
    // A visited node is on the stack or in a complete component.
    &&& forall|u: usize| #[trigger]
        s.num.contains_key(u) <==> s.stack.contains(u) || s.done.contains_key(u)
    &&& forall|u: usize| #[trigger] s.stack.contains(u) ==> !s.done.contains_key(u)
    &&& forall|i: int, j: int|
        0 <= i < j < s.stack.len() ==> s.num[#[trigger] s.stack[i]] < s.num[#[trigger] s.stack[j]]
    &&& forall|g: usize| #[trigger] s.open.contains(g) ==> s.stack.contains(g)
    // The successors of a finished node were visited.
    &&& forall|u: usize, v: usize| #[trigger]
        e(u, v) && s.num.contains_key(u) && !s.open.contains(u) ==> s.num.contains_key(v)
    // Edges from complete components lead to components that are not newer.
    &&& forall|u: usize, v: usize| #[trigger]
        e(u, v) && s.done.contains_key(u) ==> s.done.contains_key(v) && s.done[v] <= s.done[u]
    &&& forall|u: usize, v: usize|
        s.done.contains_key(u) && s.done.contains_key(v) && #[trigger] s.done[u]
            == #[trigger] s.done[v] ==> reaches(e, u, v)
    // Open nodes reach what was visited after them and is still on the stack, and
    // what is on the stack reaches an open node.
    &&& forall|x: usize| #[trigger] s.stack.contains(x) ==> reaches_open(e, s, x)
    &&& forall|g: usize, x: usize| #[trigger]
        s.open.contains(g) && #[trigger] s.stack.contains(x) && s.num[g] <= s.num[x] ==> reaches(
            e,
            g,
            x,
        )
}

/// The search went on from `s` to `t`: nothing that was settled has changed.
pub open spec fn grows(s: Dfs, t: Dfs) -> bool {
    &&& forall|u: usize| #[trigger]
        s.num.contains_key(u) ==> t.num.contains_key(u) && t.num[u] == s.num[u]
    &&& s.stack.len() <= t.stack.len()
    &&& forall|i: int| 0 <= i < s.stack.len() ==> #[trigger] t.stack[i] == s.stack[i]
    &&& forall|u: usize| #[trigger]
        s.done.contains_key(u) ==> t.done.contains_key(u) && t.done[u] == s.done[u]
}

/// The search after `b` was visited, as number `k`.
pub open spec fn visited(s: Dfs, b: usize, k: int) -> Dfs {
    Dfs { num: s.num.insert(b, k), stack: s.stack.push(b), done: s.done, open: s.open.push(b) }
}

/// A visit keeps the search sound.
pub proof fn lemma_visit(e: Edges, s: Dfs, b: usize, k: int)
    requires
        sound(e, s),
        !s.num.contains_key(b),
        forall|u: usize| #[trigger] s.num.contains_key(u) ==> s.num[u] < k,
        forall|g: usize| #[trigger] s.open.contains(g) ==> reaches(e, g, b),
    ensures
        sound(e, visited(s, b, k)),
        grows(s, visited(s, b, k)),
{
    let t = visited(s, b, k);
    assert forall|u: usize| #[trigger] t.stack.contains(u) <==> s.stack.contains(u) || u == b by {
        if s.stack.contains(u) {
            let i = s.stack.index_of(u);
            assert(t.stack[i] == u);
        }
        if u == b {
            assert(t.stack[s.stack.len() as int] == b);
        }
        if t.stack.contains(u) {
            let i = t.stack.index_of(u);
            if i < s.stack.len() {
                assert(s.stack[i] == u);
            }
        }
    }
    assert forall|u: usize| #[trigger] t.open.contains(u) <==> s.open.contains(u) || u == b by {
        if s.open.contains(u) {
            let i = s.open.index_of(u);
            assert(t.open[i] == u);
        }
        if u == b {
            assert(t.open[s.open.len() as int] == b);
        }
        if t.open.contains(u) {
            let i = t.open.index_of(u);
            if i < s.open.len() {
                assert(s.open[i] == u);
            }
        }
    }
    assert forall|i: int, j: int| 0 <= i < j < t.stack.len() implies t.num[#[trigger] t.stack[i]]
        < t.num[#[trigger] t.stack[j]] by {
        assert(s.stack.contains(s.stack[i]));
        assert(s.num.contains_key(s.stack[i]));
        if j < s.stack.len() {
            assert(s.stack.contains(s.stack[j]));
            assert(s.num.contains_key(s.stack[j]));
        }
    }
    graph::reaches_self(e, b);
    assert forall|x: usize| #[trigger] t.stack.contains(x) implies reaches_open(e, t, x) by {
        if s.stack.contains(x) {
            let g = open_reached(e, s, x);
            lemma_reaches_open(e, t, x, g);
        } else {
            lemma_reaches_open(e, t, x, b);
        }
    }
    assert forall|g: usize, x: usize| #[trigger]
        t.open.contains(g) && #[trigger] t.stack.contains(x) && t.num[g] <= t.num[x] implies reaches(
        e,
        g,
        x,
    ) by {
        if g != b {
            assert(s.open.contains(g) && s.stack.contains(g) && s.num.contains_key(g));
        }
        if x != b {
            assert(s.stack.contains(x) && s.num.contains_key(x));
        }
    }
}

/// `t` is a search that started with the visit of `b` from `s`, and has explored
/// all successors of `b`.
pub open spec fn explored(e: Edges, s: Dfs, t: Dfs, b: usize) -> bool {
    &&& sound(e, s)
    &&& sound(e, t)
    &&& grows(s, t)
    &&& t.open == s.open.push(b)
    &&& s.stack.len() < t.stack.len()
    &&& t.stack[s.stack.len() as int] == b
    &&& !s.num.contains_key(b)
    &&& forall|g: usize| #[trigger] s.open.contains(g) ==> reaches(e, g, b)
    &&& forall|v: usize| #[trigger] e(b, v) ==> t.num.contains_key(v)
}

/// The search after `b` was left with its component not complete.
pub open spec fn left_open(s: Dfs, t: Dfs) -> Dfs {
    Dfs { open: s.open, ..t }
}

/// Leaving a block that reaches an older one on the stack keeps the search sound: the
/// block stays on the stack.
pub proof fn lemma_leave(e: Edges, s: Dfs, t: Dfs, b: usize, z: usize)
    requires
        explored(e, s, t, b),
        s.stack.contains(z),
        reaches(e, b, z),
    ensures
        sound(e, left_open(s, t)),
        grows(s, left_open(s, t)),
{
    let r = left_open(s, t);
    lemma_stack_prefix(e, s, t);
    lemma_open_push(s, t, b);
    let g0 = open_reached(e, s, z);
    graph::reaches_transitive(e, b, z, g0);
    assert forall|x: usize| #[trigger] r.stack.contains(x) implies reaches_open(e, r, x) by {
        assert(t.stack.contains(x));
        let g = open_reached(e, t, x);
        if g == b {
            graph::reaches_transitive(e, x, b, g0);
            lemma_reaches_open(e, r, x, g0);
        } else {
            lemma_reaches_open(e, r, x, g);
        }
    }
    assert forall|g: usize| #[trigger] r.open.contains(g) implies r.stack.contains(g) by {
        assert(t.open.contains(g));
    }
    assert forall|g: usize, x: usize| #[trigger]
        r.open.contains(g) && #[trigger] r.stack.contains(x) && r.num[g] <= r.num[x] implies reaches(
        e,
        g,
        x,
    ) by {
        assert(t.open.contains(g) && t.stack.contains(x));
    }
    assert forall|u: usize, v: usize| #[trigger]
        e(u, v) && r.num.contains_key(u) && !r.open.contains(u) implies r.num.contains_key(v) by {
        if u != b {
            assert(!t.open.contains(u));
        }
    }
}

/// The nodes of the older stack are on the newer one.
proof fn lemma_stack_prefix(e: Edges, s: Dfs, t: Dfs)
    requires
        grows(s, t),
    ensures
        forall|x: usize| #[trigger] s.stack.contains(x) ==> t.stack.contains(x),
{
    assert forall|x: usize| #[trigger] s.stack.contains(x) implies t.stack.contains(x) by {
        let i = s.stack.index_of(x);
        assert(t.stack[i] == x);
    }
}

proof fn lemma_open_push(s: Dfs, t: Dfs, b: usize)
    requires
        t.open == s.open.push(b),
    ensures
        forall|g: usize| #[trigger] t.open.contains(g) <==> s.open.contains(g) || g == b,
{
    assert forall|g: usize| #[trigger] t.open.contains(g) <==> s.open.contains(g) || g == b by {
        if s.open.contains(g) {
            let i = s.open.index_of(g);
            assert(t.open[i] == g);
        }
        if g == b {
            assert(t.open[s.open.len() as int] == b);
        }
        if t.open.contains(g) {
            let i = t.open.index_of(g);
            if i < s.open.len() {
                assert(s.open[i] == g);
            }
        }
    }
}

/// The nodes that `t` has on its stack beyond the stack of `s`.
pub open spec fn members(s: Dfs, t: Dfs) -> Seq<usize> {
    t.stack.skip(s.stack.len() as int)
}

/// The search after the component of `b`, number `c`, was completed.
pub open spec fn completed(s: Dfs, t: Dfs, c: int) -> Dfs {
    Dfs {
        num: t.num,
        stack: s.stack,
        done: t.done.union_prefer_right(Map::new(|x: usize| members(s, t).contains(x), |x: usize| c)),
        open: s.open,
    }
}

/// Where no edge leads from the members to an older block on the stack, they are a whole
/// component, and taking them off the stack keeps the search sound.
pub proof fn lemma_complete(e: Edges, s: Dfs, t: Dfs, b: usize, c: int)
    requires
        explored(e, s, t, b),
        forall|u: usize| #[trigger] t.done.contains_key(u) ==> t.done[u] < c,
        forall|x: usize, y: usize| #[trigger]
            e(x, y) && members(s, t).contains(x) && t.stack.contains(y) ==> t.num[b] <= t.num[y],
    ensures
        sound(e, completed(s, t, c)),
        grows(s, completed(s, t, c)),
        members(s, t).no_duplicates(),
{
    let r = completed(s, t, c);
    let m = members(s, t);
    let k = s.stack.len() as int;
    lemma_stack_prefix(e, s, t);
    lemma_open_push(s, t, b);
    // The stack falls into the older stack and the members.
    assert forall|x: usize| #[trigger] t.stack.contains(x) <==> s.stack.contains(x) || m.contains(
        x,
    ) by {
        if t.stack.contains(x) {
            let i = t.stack.index_of(x);
            if i < k {
                assert(s.stack[i] == x);
            } else {
                assert(m[i - k] == x);
            }
        }
        if m.contains(x) {
            let i = m.index_of(x);
            assert(t.stack[i + k] == x);
        }
    }
    assert forall|x: usize| #[trigger] m.contains(x) implies !s.stack.contains(x) && t.num[b]
        <= t.num[x] by {
        let i = m.index_of(x);
        assert(t.stack[i + k] == x);
        if s.stack.contains(x) {
            let j = s.stack.index_of(x);
            assert(t.stack[j] == x);
        }
    }
    assert forall|x: usize| #[trigger] s.stack.contains(x) implies t.num[x] < t.num[b] by {
        let j = s.stack.index_of(x);
        assert(t.stack[j] == x);
        assert(t.stack[k] == b);
    }
    assert forall|i: int, j: int| 0 <= i < m.len() && 0 <= j < m.len() && i != j implies m[i]
        != m[j] by {
        assert(t.stack[i + k] == m[i] && t.stack[j + k] == m[j]);
    }
    // No edge leaves the members and the complete components.
    let closed = Set::new(|x: usize| m.contains(x) || t.done.contains_key(x));
    assert forall|x: usize, y: usize| closed.contains(x) && #[trigger] e(x, y) implies closed.contains(
        y,
    ) by {
        if m.contains(x) {
            assert(t.stack.contains(x) && t.num.contains_key(x));
            assert(t.num.contains_key(y)) by {
                if x != b {
                    if t.open.contains(x) {
                        assert(s.open.contains(x) && s.stack.contains(x));
                    }
                }
            }
            if t.stack.contains(y) {
                assert(t.num[b] <= t.num[y]);
                assert(!s.stack.contains(y));
            }
        }
    }
    // Every member reaches `b`, and `b` every member.
    assert(m.contains(b)) by {
        assert(m[0] == b);
    }
    assert(t.open.contains(b));
    assert forall|x: usize| #[trigger] m.contains(x) implies reaches(e, x, b) && reaches(e, b, x) by {
        assert(t.stack.contains(x));
        let g = open_reached(e, t, x);
        if g != b {
            assert(s.open.contains(g) && s.stack.contains(g) && t.stack.contains(g));
            graph::lemma_closed(e, closed, x, g);
            assert(!t.done.contains_key(g));
            assert(false);
        }
    }
    assert forall|u: usize| #[trigger] r.done.contains_key(u) <==> t.done.contains_key(u) || m.contains(
        u,
    ) by {}
    assert forall|u: usize| #[trigger] m.contains(u) implies r.done[u] == c by {}
    assert forall|u: usize| #[trigger] t.done.contains_key(u) implies r.done[u] == t.done[u]
        && !m.contains(u) by {
        if m.contains(u) {
            assert(t.stack.contains(u));
        }
    }
    assert forall|u: usize, v: usize|
        r.done.contains_key(u) && r.done.contains_key(v) && #[trigger] r.done[u]
            == #[trigger] r.done[v] implies reaches(e, u, v) by {
        if m.contains(u) && m.contains(v) {
            graph::reaches_transitive(e, u, b, v);
        } else if m.contains(u) {
            assert(t.done.contains_key(v));
        } else if m.contains(v) {
            assert(t.done.contains_key(u));
        } else {
            assert(t.done[u] == t.done[v]);
        }
    }
    assert forall|u: usize, v: usize| #[trigger]
        e(u, v) && r.done.contains_key(u) implies r.done.contains_key(v) && r.done[v] <= r.done[u] by {
        assert(closed.contains(u));
        assert(closed.contains(v));
        if t.done.contains_key(u) {
            assert(t.done.contains_key(v));
        }
    }
    assert forall|u: usize| #[trigger]
        r.num.contains_key(u) <==> r.stack.contains(u) || r.done.contains_key(u) by {
        assert(t.num.contains_key(u) <==> t.stack.contains(u) || t.done.contains_key(u));
    }
    assert forall|u: usize| #[trigger] r.stack.contains(u) implies !r.done.contains_key(u) by {
        assert(t.stack.contains(u));
    }
    assert forall|i: int, j: int| 0 <= i < j < r.stack.len() implies r.num[#[trigger] r.stack[i]]
        < r.num[#[trigger] r.stack[j]] by {
        assert(t.stack[i] == s.stack[i] && t.stack[j] == s.stack[j]);
    }
    assert forall|u: usize, v: usize| #[trigger]
        e(u, v) && r.num.contains_key(u) && !r.open.contains(u) implies r.num.contains_key(v) by {
        if u != b {
            assert(!t.open.contains(u));
        }
    }
    assert forall|g: usize, x: usize| #[trigger]
        r.open.contains(g) && #[trigger] r.stack.contains(x) && r.num[g] <= r.num[x] implies reaches(
        e,
        g,
        x,
    ) by {
        assert(t.open.contains(g) && t.stack.contains(x));
    }
    assert forall|x: usize| #[trigger] r.stack.contains(x) implies reaches_open(e, r, x) by {
        let g = open_reached(e, s, x);
        lemma_reaches_open(e, r, x, g);
    }
}

} // verus!
