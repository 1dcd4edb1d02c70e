//! Paths and reachability in directed graphs.

use vstd::prelude::*;

verus! {

/// A directed graph, as the relation "there is an edge from ... to ...".
pub type Edges = spec_fn(usize, usize) -> bool;

/// Step `i` of `p` follows an edge.
pub open spec fn is_step(e: Edges, p: Seq<usize>, i: int) -> bool {
    e(p[i], p[i + 1])
}

/// `p` is a non-empty walk along edges.
pub open spec fn is_path(e: Edges, p: Seq<usize>) -> bool {
    &&& p.len() > 0
    &&& forall|i: int| 0 <= i < p.len() - 1 ==> #[trigger] is_step(e, p, i)
}

/// There is a walk, of any length, from `u` to `v`.
#[verifier::opaque]
pub open spec fn reaches(e: Edges, u: usize, v: usize) -> bool {
    exists|p: Seq<usize>| #[trigger] is_path(e, p) && p[0] == u && p.last() == v
}

/// A walk that takes at least one step and ends where it starts.
pub open spec fn is_cycle(e: Edges, p: Seq<usize>) -> bool {
    is_path(e, p) && p.len() > 1 && p[0] == p.last()
}

/// Each of `u` and `v` can be reached from the other.
pub open spec fn mutually_reachable(e: Edges, u: usize, v: usize) -> bool {
    reaches(e, u, v) && reaches(e, v, u)
}

/// Some cycle runs through `u`.
pub open spec fn on_cycle(e: Edges, u: usize) -> bool {
    exists|v: usize| #[trigger] e(u, v) && reaches(e, v, u)
}

/// Every node reaches itself.
pub proof fn reaches_self(e: Edges, u: usize)
    ensures
        reaches(e, u, u),
{
    reveal(reaches);
    let p = seq![u];
    assert(is_path(e, p) && p[0] == u && p.last() == u);
}

/// An edge is a walk.
pub proof fn reaches_by_edge(e: Edges, u: usize, v: usize)
    requires
        e(u, v),
    ensures
        reaches(e, u, v),
{
    reveal(reaches);
    let p = seq![u, v];
    assert forall|i: int| 0 <= i < p.len() - 1 implies #[trigger] is_step(e, p, i) by {
        assert(i == 0);
    }
    assert(is_path(e, p) && p[0] == u && p.last() == v);
}

/// Two walks that meet make one.
pub proof fn lemma_join_paths(e: Edges, p: Seq<usize>, q: Seq<usize>)
    requires
        is_path(e, p),
        is_path(e, q),
        p.last() == q[0],
    ensures
        is_path(e, p + q.drop_first()),
        (p + q.drop_first())[0] == p[0],
        (p + q.drop_first()).last() == q.last(),
        (p + q.drop_first()).len() == p.len() + q.len() - 1,
{
    let r = p + q.drop_first();
    assert forall|i: int| 0 <= i < r.len() - 1 implies #[trigger] is_step(e, r, i) by {
        if i < p.len() - 1 {
            assert(is_step(e, p, i));
        } else {
            assert(is_step(e, q, i - (p.len() - 1)));
        }
    }
}

/// Reachability is transitive.
pub proof fn reaches_transitive(e: Edges, u: usize, v: usize, w: usize)
    requires
        reaches(e, u, v),
        reaches(e, v, w),
    ensures
        reaches(e, u, w),
{
    reveal(reaches);
    let p = choose|p: Seq<usize>| #[trigger] is_path(e, p) && p[0] == u && p.last() == v;
    let q = choose|q: Seq<usize>| #[trigger] is_path(e, q) && q[0] == v && q.last() == w;
    lemma_join_paths(e, p, q);
}

/// A walk is a walk in a graph with more edges.
pub proof fn reaches_along_more(e: Edges, more: Edges, u: usize, v: usize)
    requires
        forall|x: usize, y: usize| #[trigger] e(x, y) ==> more(x, y),
        reaches(e, u, v),
    ensures
        reaches(more, u, v),
{
    reveal(reaches);
    let p = choose|p: Seq<usize>| #[trigger] is_path(e, p) && p[0] == u && p.last() == v;
    assert forall|i: int| 0 <= i < p.len() - 1 implies #[trigger] is_step(more, p, i) by {
        assert(is_step(e, p, i));
    }
    assert(is_path(more, p));
}

/// Every node of a walk lies between its ends.
pub proof fn lemma_on_path(e: Edges, p: Seq<usize>, i: int)
    requires
        is_path(e, p),
        0 <= i < p.len(),
    ensures
        reaches(e, p[0], p[i]),
        reaches(e, p[i], p.last()),
{
    reveal(reaches);
    let a = p.take(i + 1);
    assert forall|j: int| 0 <= j < a.len() - 1 implies #[trigger] is_step(e, a, j) by {
        assert(is_step(e, p, j));
    }
    assert(is_path(e, a) && a[0] == p[0] && a.last() == p[i]);
    let b = p.skip(i);
    assert forall|j: int| 0 <= j < b.len() - 1 implies #[trigger] is_step(e, b, j) by {
        assert(is_step(e, p, i + j));
    }
    assert(is_path(e, b) && b[0] == p[i] && b.last() == p.last());
}

/// A walk cannot leave a set that no edge leaves.
pub proof fn lemma_closed_path(e: Edges, closed: Set<usize>, p: Seq<usize>)
    requires
        forall|x: usize, y: usize| closed.contains(x) && #[trigger] e(x, y) ==> closed.contains(y),
        is_path(e, p),
        closed.contains(p[0]),
    ensures
        forall|i: int| 0 <= i < p.len() ==> closed.contains(#[trigger] p[i]),
    decreases p.len(),
{
    if p.len() > 1 {
        let q = p.drop_last();
        assert forall|j: int| 0 <= j < q.len() - 1 implies #[trigger] is_step(e, q, j) by {
            assert(is_step(e, p, j));
        }
        lemma_closed_path(e, closed, q);
        assert(is_step(e, p, p.len() - 2));
        assert(closed.contains(q[q.len() - 1]));
        assert forall|i: int| 0 <= i < p.len() implies closed.contains(#[trigger] p[i]) by {
            if i < q.len() {
                assert(p[i] == q[i]);
            }
        }
    }
}

/// What is reachable from a set that no edge leaves lies in the set.
pub proof fn lemma_closed(e: Edges, closed: Set<usize>, u: usize, v: usize)
    requires
        forall|x: usize, y: usize| closed.contains(x) && #[trigger] e(x, y) ==> closed.contains(y),
        closed.contains(u),
        reaches(e, u, v),
    ensures
        closed.contains(v),
{
    reveal(reaches);
    let p = choose|p: Seq<usize>| #[trigger] is_path(e, p) && p[0] == u && p.last() == v;
    lemma_closed_path(e, closed, p);
    assert(closed.contains(p[p.len() - 1]));
}

/// Mutual reachability is an equivalence.
pub proof fn mutual_reachability_is_equivalence(e: Edges, u: usize, v: usize, w: usize)
    ensures
        mutually_reachable(e, u, u),
        mutually_reachable(e, u, v) ==> mutually_reachable(e, v, u),
        mutually_reachable(e, u, v) && mutually_reachable(e, v, w) ==> mutually_reachable(e, u, w),
{
    reaches_self(e, u);
    if mutually_reachable(e, u, v) && mutually_reachable(e, v, w) {
        reaches_transitive(e, u, v, w);
        reaches_transitive(e, w, v, u);
    }
}

/// The nodes of a cycle are mutually reachable, and each lies on a cycle.
pub proof fn cycle_is_mutually_reachable(e: Edges, p: Seq<usize>, i: int, j: int)
    requires
        is_cycle(e, p),
        0 <= i < p.len(),
        0 <= j < p.len(),
    ensures
        mutually_reachable(e, p[i], p[j]),
        on_cycle(e, p[i]),
{
    lemma_on_path(e, p, i);
    lemma_on_path(e, p, j);
    reaches_transitive(e, p[i], p[0], p[j]);
    reaches_transitive(e, p[j], p[0], p[i]);
    // The step that leaves `p[i]`, or the first one where the walk ends at it.
    let k = if i < p.len() - 1 {
        i
    } else {
        0
    };
    assert(is_step(e, p, k));
    lemma_on_path(e, p, k + 1);
    reaches_transitive(e, p[k + 1], p[0], p[i]);
    assert(e(p[i], p[k + 1]));
}

} // verus!
