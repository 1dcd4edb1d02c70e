//! Topological order.

use std::collections::VecDeque;
use vstd::prelude::*;
use crate::ir::arena::ArenaSet;
use crate::ir::scc;

verus! {

/// How many of the first `k` nodes have an edge to `c` and are not in `done`.
pub open spec fn waiting(edges: Seq<ArenaSet>, done: Seq<usize>, c: usize, k: nat) -> nat
    decreases k,
{
    if k == 0 {
        0
    } else {
        let p = (k - 1) as nat;
        waiting(edges, done, c, p) + if edges[p as int].has(c) && !done.contains(p as usize) {
            1nat
        } else {
            0nat
        }
    }
}

pub(crate) proof fn lemma_waiting_bound(edges: Seq<ArenaSet>, done: Seq<usize>, c: usize, k: nat)
    ensures
        waiting(edges, done, c, k) <= k,
    decreases k,
{
    if k > 0 {
        lemma_waiting_bound(edges, done, c, (k - 1) as nat);
    }
}

/// Nothing waits exactly where no edge from a node outside `done` is left.
pub(crate) proof fn lemma_waiting_zero(edges: Seq<ArenaSet>, done: Seq<usize>, c: usize, k: nat)
    requires
        k <= usize::MAX,
    ensures
        waiting(edges, done, c, k) == 0 <==> forall|p: usize|
            p < k && #[trigger] edges[p as int].has(c) ==> done.contains(p),
    decreases k,
{
    if k > 0 {
        let q = (k - 1) as usize;
        lemma_waiting_zero(edges, done, c, (k - 1) as nat);
        if waiting(edges, done, c, k) == 0 {
            assert forall|p: usize| p < k && #[trigger] edges[p as int].has(c) implies done.contains(
                p,
            ) by {
                if p == q {
                    assert(edges[q as int].has(c));
                }
            }
        } else if waiting(edges, done, c, (k - 1) as nat) == 0 {
            assert(edges[q as int].has(c) && !done.contains(q));
        }
    }
}

/// Only the edges to `c` and the members of `done` count.
pub(crate) proof fn lemma_waiting_same(
    edges: Seq<ArenaSet>,
    done: Seq<usize>,
    edges2: Seq<ArenaSet>,
    done2: Seq<usize>,
    c: usize,
    k: nat,
)
    requires
        k <= usize::MAX,
        forall|p: usize|
            p < k ==> #[trigger] edges[p as int].has(c) == edges2[p as int].has(c) && (
            edges[p as int].has(c) ==> done.contains(p) == done2.contains(p)),
    ensures
        waiting(edges, done, c, k) == waiting(edges2, done2, c, k),
    decreases k,
{
    if k > 0 {
        let q = (k - 1) as usize;
        lemma_waiting_same(edges, done, edges2, done2, c, (k - 1) as nat);
        assert(edges[q as int].has(c) == edges2[q as int].has(c));
    }
}

/// A new edge adds one.
pub(crate) proof fn lemma_waiting_edge(
    edges: Seq<ArenaSet>,
    edges2: Seq<ArenaSet>,
    done: Seq<usize>,
    q: usize,
    c: usize,
    k: nat,
)
    requires
        q < k <= usize::MAX,
        !edges[q as int].has(c),
        edges2[q as int].has(c),
        !done.contains(q),
        forall|p: usize| p < k && p != q ==> #[trigger] edges[p as int].has(c)
            == edges2[p as int].has(c),
    ensures
        waiting(edges2, done, c, k) == waiting(edges, done, c, k) + 1,
    decreases k,
{
    let r = (k - 1) as usize;
    if r == q {
        assert forall|p: usize| p < r implies #[trigger] edges[p as int].has(c)
            == edges2[p as int].has(c) by {}
        lemma_waiting_same(edges, done, edges2, done, c, r as nat);
    } else {
        lemma_waiting_edge(edges, edges2, done, q, c, r as nat);
        assert(edges[r as int].has(c) == edges2[r as int].has(c));
    }
}

/// Taking `q` up into `done` takes off one, where `q` has an edge to `c`.
pub(crate) proof fn lemma_waiting_done(
    edges: Seq<ArenaSet>,
    done: Seq<usize>,
    q: usize,
    c: usize,
    k: nat,
)
    requires
        q < k <= usize::MAX,
        !done.contains(q),
    ensures
        waiting(edges, done, c, k) == waiting(edges, done.push(q), c, k) + if edges[q as int].has(
            c,
        ) {
            1nat
        } else {
            0nat
        },
    decreases k,
{
    let r = (k - 1) as usize;
    let done2 = done.push(q);
    assert(done2[done.len() as int] == q);
    assert forall|p: usize| p != q implies #[trigger] done2.contains(p) == done.contains(p) by {
        if done.contains(p) {
            assert(done2[done.index_of(p)] == p);
        }
        if done2.contains(p) {
            assert(done[done2.index_of(p)] == p);
        }
    }
    if r == q {
        assert forall|p: usize| p < r implies #[trigger] edges[p as int].has(c)
            == edges[p as int].has(c) && (edges[p as int].has(c) ==> done.contains(p)
            == done2.contains(p)) by {}
        lemma_waiting_same(edges, done, edges, done2, c, r as nat);
        assert(done2.contains(q));
    } else {
        lemma_waiting_done(edges, done, q, c, r as nat);
        assert(done2.contains(r) == done.contains(r));
    }
}

/// Every node of `order` comes after all nodes with an edge to it.
pub open spec fn sources_first(edges: Seq<ArenaSet>, order: Seq<usize>) -> bool {
    forall|j: int, p: usize|
        0 <= j < order.len() && p < edges.len() && #[trigger] edges[p as int].has(
            #[trigger] order[j],
        ) ==> order.take(j).contains(p)
}

/// `order` is an order of all `k` nodes in which edges lead forward.
pub open spec fn is_topological(edges: Seq<ArenaSet>, order: Seq<usize>) -> bool {
    &&& order.len() == edges.len()
    &&& order.no_duplicates()
    &&& forall|i: int| 0 <= i < order.len() ==> #[trigger] order[i] < edges.len()
    &&& sources_first(edges, order)
}

/// Without anything ready, all is done: edges lead to lower numbers.
proof fn lemma_all_done(edges: Seq<ArenaSet>, order: Seq<usize>, c: usize)
    requires
        edges.len() <= usize::MAX,
        c < edges.len(),
        forall|p: usize, d: usize| p < edges.len() && #[trigger] edges[p as int].has(d) ==> d < p,
        forall|d: usize|
            d < edges.len() && !#[trigger] order.contains(d) ==> waiting(
                edges,
                order,
                d,
                edges.len(),
            ) > 0,
    ensures
        order.contains(c),
    decreases edges.len() - c,
{
    if !order.contains(c) {
        lemma_waiting_zero(edges, order, c, edges.len());
        let p = choose|p: usize|
            p < edges.len() && #[trigger] edges[p as int].has(c) && !order.contains(p);
        lemma_all_done(edges, order, p);
    }
}

/// Puts the nodes of a graph in an order in which edges lead forward, by Kahn's
/// method: a node is ready once nothing waits to come before it.
pub fn topological_order(edges: &Vec<ArenaSet>, indegree: Vec<usize>) -> (r: Vec<usize>)
    requires
        indegree@.len() == edges@.len(),
        forall|p: usize, d: usize| p < edges@.len() && #[trigger] edges@[p as int].has(d) ==> d < p,
        forall|c: usize|
            c < edges@.len() ==> #[trigger] indegree@[c as int] == waiting(
                edges@,
                Seq::empty(),
                c,
                edges@.len(),
            ),
    ensures
        is_topological(edges@, r@),
{
    let mut indegree = indegree;
    let total: usize = edges.len();
    let ghost k = total as nat;
    let mut ready: VecDeque<usize> = VecDeque::new();
    let mut component_id: usize = 0;
    while component_id < total
        invariant
            component_id <= total == indegree@.len(),
            forall|c: usize|
                #[trigger] ready@.contains(c) <==> c < component_id && indegree@[c as int] == 0,
            ready@.no_duplicates(),
        decreases total - component_id,
    {
        if indegree[component_id] == 0 {
            let ghost before = ready@;
            ready.push_back(component_id);
            proof {
                lemma_push(before, component_id);
            }
        }
        component_id = component_id + 1;
    }
    let mut topo_order: Vec<usize> = Vec::new();
    proof {
        assert(topo_order@ =~= Seq::empty());
    }
    let mut running: bool = true;
    while running
        invariant
            total == edges@.len() == indegree@.len() == k,
            forall|p: usize, d: usize|
                p < edges@.len() && #[trigger] edges@[p as int].has(d) ==> d < p,
            topo_order@.no_duplicates(),
            topo_order@.len() <= k,
            forall|i: int| 0 <= i < topo_order@.len() ==> #[trigger] topo_order@[i] < k,
            ready@.no_duplicates(),
            forall|c: usize|
                c < k ==> #[trigger] indegree@[c as int] == waiting(edges@, topo_order@, c, k),
            forall|c: usize|
                #[trigger] ready@.contains(c) <==> c < k && !topo_order@.contains(c)
                    && indegree@[c as int] == 0,
            sources_first(edges@, topo_order@),
            !running ==> ready@.len() == 0,
        decreases k - topo_order@.len() + (if running { 1int } else { 0int }),
    {
        let ghost ready0 = ready@;
        let ghost order0 = topo_order@;
        let ghost indegree0 = indegree@;
        match ready.pop_front() {
            None => {
                running = false;
            },
            Some(component_id) => {
                proof {
                    assert(ready0[0] == component_id);
                    assert(ready0.contains(component_id));
                    lemma_push(order0, component_id);
                    scc::lemma_distinct_below(order0.push(component_id), k);
                    lemma_pop(ready0);
                    lemma_waiting_zero(edges@, order0, component_id, k);
                    lemma_sources_push(edges@, order0, component_id);
                }
                topo_order.push(component_id);
                let succs = edges[component_id].items();
                let mut i: usize = 0;
                proof {
                    assert forall|c: usize| c < k implies #[trigger] indegree@[c as int] + 0
                        == waiting(edges@, order0, c, k) by {}
                }
                while i < succs.len()
                    invariant
                        total == edges@.len() == indegree@.len() == k,
                        i <= succs@.len(),
                        component_id < k,
                        !order0.contains(component_id),
                        topo_order@ == order0.push(component_id),
                        forall|d: usize| #[trigger]
                            succs@.contains(d) <==> edges@[component_id as int].has(d),
                        forall|a: int, b: int|
                            0 <= a < b < succs@.len() ==> #[trigger] succs@[a] < #[trigger] succs@[b],
                        forall|p: usize, d: usize|
                            p < edges@.len() && #[trigger] edges@[p as int].has(d) ==> d < p,
                        sources_first(edges@, order0),
                        forall|c: usize|
                            c < k ==> #[trigger] indegree@[c as int] + (if succs@.take(
                                i as int,
                            ).contains(c) {
                                1int
                            } else {
                                0int
                            }) == waiting(edges@, order0, c, k),
                        ready@.no_duplicates(),
                        forall|c: usize|
                            #[trigger] ready@.contains(c) <==> c < k && !topo_order@.contains(c)
                                && indegree@[c as int] == 0,
                    decreases succs@.len() - i,
                {
                    let succ: usize = succs[i];
                    let ghost ready1 = ready@;
                    let ghost indegree1 = indegree@;
                    proof {
                        assert(succs@.contains(succ));
                        assert(edges@[component_id as int].has(succ));
                        lemma_not_taken(succs@, i as int);
                        lemma_waiting_done(edges@, order0, component_id, succ, k);
                        lemma_not_ordered(edges@, order0, component_id, succ);
                        lemma_push_members(order0, component_id);
                    }
                    indegree[succ] = indegree[succ] - 1;
                    if indegree[succ] == 0 {
                        ready.push_back(succ);
                        proof {
                            lemma_push(ready1, succ);
                        }
                    }
                    proof {
                        lemma_take_next(succs@, i as int);
                        assert forall|c: usize| c < k implies #[trigger] indegree@[c as int] + (
                        if succs@.take(i + 1).contains(c) {
                            1int
                        } else {
                            0int
                        }) == waiting(edges@, order0, c, k) by {
                            assert(indegree1[c as int] + (if succs@.take(i as int).contains(c) {
                                1int
                            } else {
                                0int
                            }) == waiting(edges@, order0, c, k));
                        }
                        assert forall|c: usize|
                            #[trigger] ready@.contains(c) <==> c < k && !topo_order@.contains(c)
                                && indegree@[c as int] == 0 by {
                            assert(ready1.contains(c) <==> c < k && !topo_order@.contains(c)
                                && indegree1[c as int] == 0);
                        }
                    }
                    i = i + 1;
                }
                proof {
                    assert(succs@.take(i as int) =~= succs@);
                    assert forall|c: usize| c < k implies #[trigger] indegree@[c as int] == waiting(
                        edges@,
                        topo_order@,
                        c,
                        k,
                    ) by {
                        lemma_waiting_done(edges@, order0, component_id, c, k);
                        assert(succs@.contains(c) <==> edges@[component_id as int].has(c));
                    }
                }
            },
        }
    }
    proof {
        assert forall|d: usize| d < k && !#[trigger] topo_order@.contains(d) implies waiting(
            edges@,
            topo_order@,
            d,
            k,
        ) > 0 by {
            assert(!ready@.contains(d));
            assert(indegree@[d as int] == waiting(edges@, topo_order@, d, k));
        }
        assert forall|c: usize| c < k implies #[trigger] topo_order@.contains(c) by {
            lemma_all_done(edges@, topo_order@, c);
        }
        scc::lemma_distinct_below(topo_order@, k);
        lemma_covers(topo_order@, k);
    }
    topo_order
}

/// A sequence that holds every number below `n` has at least `n` members.
proof fn lemma_covers(s: Seq<usize>, n: nat)
    requires
        n <= usize::MAX,
        forall|c: usize| c < n ==> #[trigger] s.contains(c),
    ensures
        s.len() >= n,
    decreases n,
{
    let all = Seq::new(n, |i: int| s.index_of(i as usize) as usize);
    if s.len() <= usize::MAX {
        assert forall|i: int| 0 <= i < n implies 0 <= s.index_of(i as usize) < s.len()
            && #[trigger] s[s.index_of(i as usize)] == i by {
            assert(s.contains(i as usize));
        }
        assert forall|i: int| 0 <= i < n implies #[trigger] all[i] < s.len() by {
            assert(s[s.index_of(i as usize)] == i);
        }
        assert forall|i: int, j: int| 0 <= i < n && 0 <= j < n && i != j implies all[i] != all[j] by {
            assert(s[s.index_of(i as usize)] == i);
            assert(s[s.index_of(j as usize)] == j);
        }
        scc::lemma_distinct_below(all, s.len());
    }
}

/// An order of the first numbers without repetition holds each of them.
pub(crate) proof fn lemma_permutation(s: Seq<usize>, c: usize)
    requires
        s.no_duplicates(),
        forall|i: int| 0 <= i < s.len() ==> #[trigger] s[i] < s.len(),
        c < s.len(),
    ensures
        s.contains(c),
{
    if !s.contains(c) {
        lemma_push(s, c);
        let t = s.push(c);
        assert forall|i: int| 0 <= i < t.len() implies #[trigger] t[i] < s.len() by {
            if i < s.len() {
                assert(t[i] == s[i]);
            }
        }
        scc::lemma_distinct_below(t, s.len());
    }
}

/// Appending a new member.
proof fn lemma_push(s: Seq<usize>, x: usize)
    requires
        s.no_duplicates(),
        !s.contains(x),
    ensures
        s.push(x).no_duplicates(),
        forall|c: usize| #[trigger] s.push(x).contains(c) <==> s.contains(c) || c == x,
{
    lemma_push_members(s, x);
    let t = s.push(x);
    assert forall|i: int, j: int| 0 <= i < t.len() && 0 <= j < t.len() && i != j implies t[i]
        != t[j] by {
        if i == s.len() {
            assert(s.contains(s[j]));
        } else if j == s.len() {
            assert(s.contains(s[i]));
        }
    }
}

proof fn lemma_push_members(s: Seq<usize>, x: usize)
    ensures
        forall|c: usize| #[trigger] s.push(x).contains(c) <==> s.contains(c) || c == x,
{
    let t = s.push(x);
    assert forall|c: usize| #[trigger] t.contains(c) <==> s.contains(c) || c == x by {
        if s.contains(c) {
            assert(t[s.index_of(c)] == c);
        }
        if c == x {
            assert(t[s.len() as int] == x);
        }
        if t.contains(c) {
            let i = t.index_of(c);
            if i < s.len() {
                assert(s[i] == c);
            }
        }
    }
}

/// Taking the first member off.
proof fn lemma_pop(s: Seq<usize>)
    requires
        s.no_duplicates(),
        s.len() > 0,
    ensures
        s.subrange(1, s.len() as int).no_duplicates(),
        forall|c: usize| #[trigger]
            s.subrange(1, s.len() as int).contains(c) <==> s.contains(c) && c != s[0],
{
    let t = s.subrange(1, s.len() as int);
    assert forall|c: usize| #[trigger] t.contains(c) <==> s.contains(c) && c != s[0] by {
        if t.contains(c) {
            let i = t.index_of(c);
            assert(s[i + 1] == c);
        }
        if s.contains(c) && c != s[0] {
            let i = s.index_of(c);
            assert(t[i - 1] == c);
        }
    }
}

/// A member of an ascending list does not occur before its place.
proof fn lemma_not_taken(s: Seq<usize>, i: int)
    requires
        0 <= i < s.len(),
        forall|a: int, b: int| 0 <= a < b < s.len() ==> #[trigger] s[a] < #[trigger] s[b],
    ensures
        !s.take(i).contains(s[i]),
{
    if s.take(i).contains(s[i]) {
        let a = s.take(i).index_of(s[i]);
        assert(s[a] < s[i]);
    }
}

proof fn lemma_take_next(s: Seq<usize>, i: int)
    requires
        0 <= i < s.len(),
    ensures
        forall|c: usize| #[trigger]
            s.take(i + 1).contains(c) <==> s.take(i).contains(c) || c == s[i],
{
    assert(s.take(i + 1) =~= s.take(i).push(s[i]));
    lemma_push_members(s.take(i), s[i]);
}

/// A node is not ordered before a node with an edge to it.
proof fn lemma_not_ordered(edges: Seq<ArenaSet>, order: Seq<usize>, p: usize, c: usize)
    requires
        p < edges.len(),
        edges[p as int].has(c),
        !order.contains(p),
        sources_first(edges, order),
    ensures
        !order.contains(c),
{
    if order.contains(c) {
        let j = order.index_of(c);
        assert(edges[p as int].has(order[j]));
        let i = order.take(j).index_of(p);
        assert(order[i] == p);
    }
}

/// A node may come next once all nodes with an edge to it are there.
proof fn lemma_sources_push(edges: Seq<ArenaSet>, order: Seq<usize>, c: usize)
    requires
        sources_first(edges, order),
        forall|p: usize| p < edges.len() && #[trigger] edges[p as int].has(c) ==> order.contains(p),
    ensures
        sources_first(edges, order.push(c)),
{
    let next = order.push(c);
    assert forall|j: int, p: usize|
        0 <= j < next.len() && p < edges.len() && #[trigger] edges[p as int].has(
            #[trigger] next[j],
        ) implies next.take(j).contains(p) by {
        if j < order.len() {
            assert(next.take(j) =~= order.take(j));
            assert(edges[p as int].has(order[j]));
        } else {
            assert(next.take(j) =~= order);
        }
    }
}

} // verus!
