//! Strongly connected components of the control flow graph.

use vstd::prelude::*;
use crate::ir;
use crate::ir::arena::{ArenaMap, ArenaSet};
use crate::ir::dfs;
use crate::ir::dfs::Dfs;
use crate::ir::graph;
use crate::ir::graph::{mutually_reachable, reaches, Edges};
use crate::ir::{Block, BlockView, ExecIrBuilder};

verus! {

/// `stacker::maybe_grow` runs `callback` once, on a stack with at least `red_zone`
/// bytes left, and returns what it returned. Where the stack has to grow, memory
/// for `stack_size` bytes is asked of the system, which refuses unreasonably large
/// requests; that the system grants the others is left unsaid.
pub assume_specification<R, F: FnOnce() -> R>[ stacker::maybe_grow::<R, F> ](
    red_zone: usize,
    stack_size: usize,
    callback: F,
) -> (r: R)
    requires
        stack_size <= 0x1000_0000,
        callback.requires(()),
    ensures
        callback.ensures((), r),
;

/// The handle of a component.
pub type SccComponent = usize;

/// Where each block of `components` is: the components hold each block at most once.
pub open spec fn placed(components: Seq<Seq<usize>>, done: Map<usize, int>) -> bool {
    &&& forall|c: int, i: int|
        0 <= c < components.len() && 0 <= i < components[c].len() ==> done.contains_key(
            #[trigger] components[c][i],
        ) && done[components[c][i]] == c
    &&& forall|u: usize| #[trigger]
        done.contains_key(u) ==> 0 <= done[u] < components.len() && components[done[u]].contains(u)
    &&& forall|c: int|
        0 <= c < components.len() ==> (#[trigger] components[c]).no_duplicates()
            && components[c].len() > 0
}

/// A sequence of distinct numbers below `n` has at most `n` of them.
pub proof fn lemma_distinct_below(s: Seq<usize>, n: nat)
    requires
        s.no_duplicates(),
        forall|i: int| 0 <= i < s.len() ==> #[trigger] s[i] < n,
    ensures
        s.len() <= n,
    decreases n,
{
    if n == 0 {
        if s.len() > 0 {
            assert(s[0] < n);
        }
    } else if s.contains((n - 1) as usize) {
        let k = s.index_of((n - 1) as usize);
        let t = s.remove(k);
        assert forall|i: int| 0 <= i < t.len() implies #[trigger] t[i] < n - 1 by {
            let j = if i < k {
                i
            } else {
                i + 1
            };
            assert(t[i] == s[j] && s[j] < n);
            assert(s[j] != s[k]);
        }
        assert forall|i: int, j: int| 0 <= i < t.len() && 0 <= j < t.len() && i != j implies t[i]
            != t[j] by {
            let a = if i < k {
                i
            } else {
                i + 1
            };
            let b = if j < k {
                j
            } else {
                j + 1
            };
            assert(t[i] == s[a] && t[j] == s[b]);
        }
        lemma_distinct_below(t, (n - 1) as nat);
    } else {
        assert forall|i: int| 0 <= i < s.len() implies #[trigger] s[i] < n - 1 by {
            assert(s.contains(s[i]));
        }
        lemma_distinct_below(s, (n - 1) as nat);
    }
}

/// Tarjan's search for strongly connected components.
pub struct Tarjan<'a> {
    pub ir: &'a ExecIrBuilder,
    pub allowed: Option<&'a ArenaSet>,
    pub next_index: usize,
    pub index: ArenaMap<usize>,
    pub lowlink: ArenaMap<usize>,
    pub stack: Vec<Block>,
    pub on_stack: ArenaSet,
    pub components: Vec<Vec<Block>>,
    /// The visited blocks, in the order of their visits.
    pub order: Ghost<Seq<usize>>,
    /// The blocks of complete components, with the number of the component.
    pub done: Ghost<Map<usize, int>>,
    /// The blocks whose successors are being explored.
    pub open: Ghost<Seq<usize>>,
}

/// Going on twice is going on.
proof fn lemma_grows(a: Tarjan, b: Tarjan, c: Tarjan)
    requires
        dfs::grows(a.state(), b.state()),
        dfs::grows(b.state(), c.state()),
    ensures
        dfs::grows(a.state(), c.state()),
{
    let s = a.state();
    let t = b.state();
    let r = c.state();
    assert forall|u: usize| #[trigger] s.num.contains_key(u) implies r.num.contains_key(u)
        && r.num[u] == s.num[u] by {
        assert(t.num.contains_key(u));
    }
    assert forall|i: int| 0 <= i < s.stack.len() implies #[trigger] r.stack[i] == s.stack[i] by {
        assert(t.stack[i] == s.stack[i]);
    }
    assert forall|u: usize| #[trigger] s.done.contains_key(u) implies r.done.contains_key(u)
        && r.done[u] == s.done[u] by {
        assert(t.done.contains_key(u));
    }
}

/// The components as values.
pub open spec fn component_blocks(components: Seq<Vec<Block>>) -> Seq<Seq<usize>> {
    Seq::new(components.len(), |c: int| components[c]@)
}

impl<'a> Tarjan<'a> {
    /// The search may enter `b`.
    pub open spec fn ok(self, b: usize) -> bool {
        b < self.ir@.len() && match self.allowed {
            Some(set) => set.has(b),
            None => true,
        }
    }

    /// The edges that the search follows.
    pub open spec fn e(self) -> Edges {
        |u: usize, v: usize| self.ok(u) && self.ok(v) && self.ir.edges()(u, v)
    }

    /// The state of the search.
    pub open spec fn state(self) -> Dfs {
        Dfs {
            num: Map::new(
                |b: usize| self.index.at(b) is Some,
                |b: usize| self.index.at(b)->0 as int,
            ),
            stack: self.stack@,
            done: self.done@,
            open: self.open@,
        }
    }

    /// What holds between visits.
    pub open spec fn inv(self) -> bool {
        &&& ir::well_formed(self.ir@, self.ir.stmts@)
        &&& dfs::sound(self.e(), self.state())
        &&& placed(component_blocks(self.components@), self.done@)
        &&& self.next_index == self.order@.len() <= self.ir@.len()
        &&& self.order@.no_duplicates()
        &&& forall|i: int|
            0 <= i < self.order@.len() ==> self.ok(#[trigger] self.order@[i]) && self.index.at(
                self.order@[i],
            ) == Some(i as usize)
        &&& forall|b: usize|
            (#[trigger] self.index.at(b)) is Some ==> self.index.at(b)->0 < self.order@.len()
                && self.order@[self.index.at(b)->0 as int] == b
        &&& forall|b: usize| #[trigger] self.on_stack.has(b) <==> self.stack@.contains(b)
    }

    /// The search went on from `self` to `t` without touching what was settled.
    pub open spec fn leads_to(self, t: Self) -> bool {
        &&& t.ir == self.ir
        &&& t.allowed == self.allowed
        &&& dfs::grows(self.state(), t.state())
        &&& self.next_index <= t.next_index
        &&& forall|b: usize| self.index.at(b) is Some ==> #[trigger] t.lowlink.at(b) == self.lowlink.at(b)
        &&& forall|b: usize|
            self.index.at(b) is None && (#[trigger] t.index.at(b)) is Some ==> t.index.at(b)->0
                >= self.next_index
    }

    /// What the visit of `block`, from the state `self`, leaves in `t`.
    pub open spec fn visits(self, block: Block, t: Self) -> bool {
        let low = t.lowlink.at(block)->0;
        &&& self.leads_to(t)
        &&& t.open@ == self.open@
        &&& t.index.at(block) is Some
        &&& t.lowlink.at(block) is Some
        &&& forall|x: usize, y: usize| #[trigger]
            self.e()(x, y) && self.index.at(x) is None && t.stack@.contains(x) && t.stack@.contains(y)
                ==> low <= t.index.at(y)->0
        &&& if t.stack@.contains(block) {
            exists|z: usize|
                self.stack@.contains(z) && t.index.at(z)->0 == low && #[trigger] reaches(
                    self.e(),
                    block,
                    z,
                )
        } else {
            t.stack@ == self.stack@ && low >= self.next_index
        }
    }

    /// The edges between blocks that were not visited yet.
    pub open spec fn fresh(self) -> Edges {
        |u: usize, v: usize|
            self.e()(u, v) && self.index.at(u) is None && self.index.at(v) is None
    }

    /// `b` was visited on the way from `self` to `t`.
    pub open spec fn newly_visited(self, t: Self, b: usize) -> bool {
        self.index.at(b) is None && t.index.at(b) is Some
    }

    /// From `self` to `t` only blocks were visited that `block` reaches along blocks
    /// that were not visited yet, and the components are still there.
    pub open spec fn adds(self, block: Block, t: Self) -> bool {
        &&& forall|b: usize| #[trigger]
            self.newly_visited(t, b) ==> reaches(self.fresh(), block, b)
        &&& self.components@.len() <= t.components@.len()
        &&& forall|c: int|
            0 <= c < self.components@.len() ==> #[trigger] t.components@[c] == self.components@[c]
    }

    /// The visit of `block` has found exactly what `block` reaches along blocks that
    /// were not visited yet. The components are still there, and only blocks that were
    /// found are in the new ones.
    pub open spec fn finds(self, block: Block, t: Self) -> bool {
        &&& forall|b: usize| #[trigger]
            self.newly_visited(t, b) <==> reaches(self.fresh(), block, b)
        &&& self.components@.len() <= t.components@.len()
        &&& forall|c: int|
            0 <= c < self.components@.len() ==> #[trigger] t.components@[c] == self.components@[c]
        &&& forall|c: int, i: int|
            self.components@.len() <= c < t.components@.len() && 0 <= i < t.components@[c]@.len()
                ==> self.newly_visited(t, #[trigger] t.components@[c]@[i])
    }

    /// A visit that adds only what it may has found all that it should.
    proof fn lemma_finds(self, block: Block, t: Self)
        requires
            self.inv(),
            self.ok(block),
            self.index.at(block) is None,
            t.inv(),
            self.visits(block, t),
            self.adds(block, t),
        ensures
            self.finds(block, t),
    {
        let e = self.e();
        let fresh = self.fresh();
        let s = self.state();
        let u = t.state();
        assert(t.e() == e);
        let closed = Set::new(|b: usize| self.newly_visited(t, b));
        assert forall|x: usize, y: usize| closed.contains(x) && #[trigger] fresh(x, y) implies closed.contains(
            y,
        ) by {
            assert(e(x, y));
            assert(u.num.contains_key(x));
            assert(!u.open.contains(x)) by {
                if self.open@.contains(x) {
                    assert(s.open.contains(x));
                    assert(s.stack.contains(x));
                    assert(s.num.contains_key(x));
                }
            }
            assert(u.num.contains_key(y));
        }
        assert forall|b: usize| reaches(fresh, block, b) implies #[trigger] self.newly_visited(
            t,
            b,
        ) by {
            assert(closed.contains(block));
            graph::lemma_closed(fresh, closed, block, b);
        }
        let blocks = component_blocks(t.components@);
        assert forall|c: int, i: int|
            self.components@.len() <= c < t.components@.len() && 0 <= i
                < t.components@[c]@.len() implies self.newly_visited(
            t,
            #[trigger] t.components@[c]@[i],
        ) by {
            let b = blocks[c][i];
            assert(u.done.contains_key(b) && u.done[b] == c);
            assert(u.num.contains_key(b));
            if s.num.contains_key(b) {
                if s.stack.contains(b) {
                    let j = s.stack.index_of(b);
                    assert(u.stack[j] == s.stack[j]);
                    assert(u.stack.contains(b));
                } else {
                    assert(s.done.contains_key(b));
                    assert(u.done[b] == s.done[b]);
                    assert(component_blocks(self.components@).len() == self.components@.len());
                }
            }
        }
    }

    /// One more successor was visited, and what it has found was found.
    proof fn lemma_adds(self, t: Self, r: Self, block: Block, succ: Block)
        requires
            dfs::grows(self.state(), t.state()),
            self.index.at(block) is None,
            self.adds(block, t),
            t.ir == self.ir,
            t.allowed == self.allowed,
            t.index.at(succ) is None,
            self.e()(block, succ),
            t.finds(succ, r),
        ensures
            self.adds(block, r),
    {
        let fresh = self.fresh();
        assert(t.e() == self.e());
        assert(self.index.at(succ) is None) by {
            if self.index.at(succ) is Some {
                assert(self.state().num.contains_key(succ));
                assert(t.state().num.contains_key(succ));
            }
        }
        assert(fresh(block, succ));
        graph::reaches_by_edge(fresh, block, succ);
        assert forall|b: usize| #[trigger] self.newly_visited(r, b) implies reaches(
            fresh,
            block,
            b,
        ) by {
            if t.index.at(b) is Some {
                assert(self.newly_visited(t, b));
            } else {
                assert(t.newly_visited(r, b));
                assert forall|x: usize, y: usize| #[trigger] t.fresh()(x, y) implies fresh(x, y) by {
                    if self.index.at(x) is Some {
                        assert(self.state().num.contains_key(x));
                        assert(t.state().num.contains_key(x));
                    }
                    if self.index.at(y) is Some {
                        assert(self.state().num.contains_key(y));
                        assert(t.state().num.contains_key(y));
                    }
                }
                graph::reaches_along_more(t.fresh(), fresh, succ, b);
                graph::reaches_transitive(fresh, block, succ, b);
            }
        }
        assert forall|c: int| 0 <= c < self.components@.len() implies #[trigger] r.components@[c]
            == self.components@[c] by {
            assert(t.components@[c] == self.components@[c]);
        }
    }

    /// Whether the search may enter `block`.
    fn block_is_allowed(&self, block: Block) -> (r: bool)
        requires
            block < self.ir@.len(),
        ensures
            r == self.ok(block),
    {
        match self.allowed {
            Some(allowed) => allowed.contains(block),
            None => true,
        }
    }

    /// Visits `block` and what can be reached from it, on a stack that grows where
    /// it has to.
    pub fn strong_connect(self, block: Block) -> (r: Self)
        requires
            self.inv(),
            self.ok(block),
            self.index.at(block) is None,
            forall|g: usize| #[trigger] self.open@.contains(g) ==> reaches(self.e(), g, block),
        ensures
            r.inv(),
            self.visits(block, r),
            self.finds(block, r),
        decreases self.ir@.len() - self.next_index, 1nat,
    {
        let this = self;
        stacker::maybe_grow(
            4 * 1024,
            2 * 1024 * 1024,
            move || -> (r: Self)
                ensures r.inv() && this.visits(block, r) && this.finds(block, r)
            {
                this.strong_connect_inner(block)
            },
        )
    }

    /// Visits `block` and what can be reached from it.
    fn strong_connect_inner(self, block: Block) -> (r: Self)
        requires
            self.inv(),
            self.ok(block),
            self.index.at(block) is None,
            forall|g: usize| #[trigger] self.open@.contains(g) ==> reaches(self.e(), g, block),
        ensures
            r.inv(),
            self.visits(block, r),
            self.finds(block, r),
        decreases self.ir@.len() - self.next_index, 0nat,
    {
        let ghost s0 = self;
        let ghost e = self.e();
        let mut t = self;
        let total: usize = t.ir.blocks.len();
        proof {
            let next = s0.order@.push(block);
            assert forall|i: int, j: int| 0 <= i < next.len() && 0 <= j < next.len() && i
                != j implies next[i] != next[j] by {
                if i < s0.order@.len() {
                    assert(s0.index.at(s0.order@[i]) is Some);
                }
                if j < s0.order@.len() {
                    assert(s0.index.at(s0.order@[j]) is Some);
                }
            }
            lemma_distinct_below(next, s0.ir@.len());
        }
        let index: usize = t.next_index;
        t.index.insert(block, index);
        t.lowlink.insert(block, index);
        t.next_index = index + 1;
        t.stack.push(block);
        t.on_stack.insert(block);
        t.order = Ghost(s0.order@.push(block));
        t.open = Ghost(s0.open@.push(block));
        proof {
            s0.lemma_entered(t, block);
            graph::reaches_self(s0.fresh(), block);
            assert(s0.adds(block, t)) by {
                assert forall|b: usize| #[trigger] s0.newly_visited(t, b) implies reaches(
                    s0.fresh(),
                    block,
                    b,
                ) by {
                    if b != block {
                        assert(t.index.at(b) == s0.index.at(b));
                    }
                }
            }
        }
        let ir = t.ir;
        let succs = ir.successors(block);
        let mut i: usize = 0;
        while i < succs.len()
            invariant
                i <= succs@.len(),
                s0 == self,
                ir == s0.ir,
                block < ir@.len(),
                succs@ == ir@[block as int].successors,
                s0.inv(),
                s0.ok(block),
                s0.index.at(block) is None,
                forall|g: usize| #[trigger] s0.open@.contains(g) ==> reaches(s0.e(), g, block),
                e == s0.e(),
                t.lowlink.at(block) is Some,
                s0.exploring(block, t, i as int, t.lowlink.at(block)->0),
                s0.adds(block, t),
            decreases succs@.len() - i,
        {
            let succ: usize = succs[i];
            let ghost t1 = t;
            let ghost low = t.lowlink.at(block)->0;
            proof {
                assert(ir@[block as int].successors[i as int] < ir@.len());
            }
            if t.block_is_allowed(succ) {
                proof {
                    assert(ir@[block as int].successors.contains(succ));
                    assert(s0.ir.edges()(block, succ));
                    assert(e(block, succ));
                    graph::reaches_by_edge(e, block, succ);
                }
                if t.index.get(succ).is_none() {
                    proof {
                        s0.lemma_open_reach(t1, block, succ, low, i as int);
                    }
                    t = t.strong_connect(succ);
                    let ghost t2 = t;
                    let block_lowlink: usize = *t.lowlink.expect(block);
                    let succ_lowlink: usize = *t.lowlink.expect(succ);
                    let least: usize = if block_lowlink < succ_lowlink {
                        block_lowlink
                    } else {
                        succ_lowlink
                    };
                    t.lowlink.insert(block, least);
                    proof {
                        s0.lemma_returned(t1, t2, t, block, succ, i as int, low);
                        s0.lemma_adds(t1, t2, block, succ);
                        assert(s0.adds(block, t)) by {
                            assert forall|b: usize| #[trigger] s0.newly_visited(
                                t,
                                b,
                            ) implies reaches(s0.fresh(), block, b) by {
                                assert(s0.newly_visited(t2, b));
                            }
                        }
                    }
                } else if t.on_stack.contains(succ) {
                    let block_lowlink: usize = *t.lowlink.expect(block);
                    let succ_index: usize = *t.index.expect(succ);
                    let least: usize = if block_lowlink < succ_index {
                        block_lowlink
                    } else {
                        succ_index
                    };
                    t.lowlink.insert(block, least);
                    proof {
                        s0.lemma_met(t1, t, block, succ, i as int, low);
                        assert(s0.adds(block, t)) by {
                            assert forall|b: usize| #[trigger] s0.newly_visited(
                                t,
                                b,
                            ) implies reaches(s0.fresh(), block, b) by {
                                assert(s0.newly_visited(t1, b));
                            }
                        }
                    }
                } else {
                    assert(s0.exploring(block, t, i + 1, low));
                }
            } else {
                assert(s0.exploring(block, t, i + 1, low));
            }
            i = i + 1;
        }
        let ghost t1 = t;
        let ghost low = t.lowlink.at(block)->0;
        proof {
            s0.lemma_explored(t, block, low);
        }
        if *t.lowlink.expect(block) == *t.index.expect(block) {
            let ghost k = s0.stack@.len();
            let mut component: Vec<Block> = Vec::new();
            let mut member: usize = block;
            let mut popping: bool = true;
            proof {
                s0.lemma_stack_distinct(t1, block, low);
                assert(t1.stack@.take(t1.stack@.len() as int) =~= t1.stack@);
            }
            while popping
                invariant
                    s0.stack@.len() == k < t1.stack@.len(),
                    t1.stack@[k as int] == block,
                    forall|i: int, j: int|
                        0 <= i < t1.stack@.len() && 0 <= j < t1.stack@.len() && i != j
                            ==> t1.stack@[i] != t1.stack@[j],
                    t == (Tarjan { stack: t.stack, on_stack: t.on_stack, ..t1 }),
                    k <= t.stack@.len() <= t1.stack@.len(),
                    popping <==> t.stack@.len() > k,
                    t.stack@ == t1.stack@.take(t.stack@.len() as int),
                    forall|b: usize| #[trigger] t.on_stack.has(b) <==> t.stack@.contains(b),
                    component@.len() == t1.stack@.len() - t.stack@.len(),
                    forall|i: int|
                        0 <= i < component@.len() ==> #[trigger] component@[i] == t1.stack@[t1.stack@.len()
                            - 1 - i],
                decreases t.stack@.len() + (if popping { 1int } else { 0int }),
            {
                let ghost before = t.stack@;
                member = t.stack.pop().unwrap();
                t.on_stack.remove(member);
                component.push(member);
                if member == block {
                    popping = false;
                }
                proof {
                    assert(t.stack@ =~= t1.stack@.take(t.stack@.len() as int));
                    assert(member == t1.stack@[before.len() - 1]);
                    assert forall|b: usize| #[trigger] t.on_stack.has(b) <==> t.stack@.contains(b) by {
                        if b == member {
                            if t.stack@.contains(b) {
                                let j = t.stack@.index_of(b);
                                assert(t1.stack@[j] == b);
                            }
                        } else {
                            if before.contains(b) {
                                assert(t.stack@[before.index_of(b)] == b);
                            }
                            if t.stack@.contains(b) {
                                assert(before[t.stack@.index_of(b)] == b);
                            }
                        }
                    }
                }
            }
            let ghost c = t1.components@.len() as int;
            t.components.push(component);
            t.done = Ghost(dfs::completed(s0.state(), t1.state(), c).done);
            t.open = Ghost(s0.open@);
            proof {
                assert(t.stack@ =~= s0.stack@) by {
                    assert forall|i: int| 0 <= i < k implies t1.stack@[i] == s0.stack@[i] by {
                        assert(t1.state().stack[i] == s0.state().stack[i]);
                    }
                }
                s0.lemma_completed(t1, t, block, low);
            }
        } else {
            t.open = Ghost(s0.open@);
            proof {
                s0.lemma_left(t1, t, block, low);
            }
        }
        proof {
            assert(s0.adds(block, t)) by {
                assert forall|b: usize| #[trigger] s0.newly_visited(t, b) implies reaches(
                    s0.fresh(),
                    block,
                    b,
                ) by {
                    assert(s0.newly_visited(t1, b));
                }
            }
            s0.lemma_finds(block, t);
        }
        t
    }

    /// The search of `block` is over.
    pub open spec fn over(self, t: Self, block: Block, low: usize) -> bool {
        &&& self.inv()
        &&& self.ok(block)
        &&& self.index.at(block) is None
        &&& forall|g: usize| #[trigger] self.open@.contains(g) ==> reaches(self.e(), g, block)
        &&& self.exploring(block, t, self.ir@[block as int].successors.len() as int, low)
    }

    proof fn lemma_explored(self, t: Self, block: Block, low: usize)
        requires
            self.over(t, block, low),
        ensures
            dfs::explored(self.e(), self.state(), t.state(), block),
            forall|v: usize| #[trigger]
                self.e()(block, v) && t.stack@.contains(v) ==> low <= t.index.at(v)->0,
            t.e() == self.e(),
    {
        let e = self.e();
        let succs = self.ir@[block as int].successors;
        assert(t.e() == e);
        assert forall|v: usize| #[trigger] e(block, v) implies t.state().num.contains_key(v) && (
        t.stack@.contains(v) ==> low <= t.index.at(v)->0) by {
            assert(succs.contains(v));
            let j = succs.index_of(v);
            assert(self.ok(succs[j]));
            assert(t.index.at(succs[j]) is Some);
        }
    }

    proof fn lemma_stack_distinct(self, t: Self, block: Block, low: usize)
        requires
            self.over(t, block, low),
        ensures
            forall|i: int, j: int|
                0 <= i < t.stack@.len() && 0 <= j < t.stack@.len() && i != j ==> t.stack@[i]
                    != t.stack@[j],
            forall|i: int| 0 <= i < self.stack@.len() ==> #[trigger] t.stack@[i] == self.stack@[i],
    {
        assert forall|i: int, j: int|
            0 <= i < t.stack@.len() && 0 <= j < t.stack@.len() && i != j implies t.stack@[i]
            != t.stack@[j] by {
            let s = t.state();
            if i < j {
                assert(s.num[s.stack[i]] < s.num[s.stack[j]]);
            } else {
                assert(s.num[s.stack[j]] < s.num[s.stack[i]]);
            }
        }
        assert forall|i: int| 0 <= i < self.stack@.len() implies #[trigger] t.stack@[i]
            == self.stack@[i] by {
            assert(t.state().stack[i] == self.state().stack[i]);
        }
    }

    /// The component of `block` was completed.
    proof fn lemma_completed(self, t: Self, r: Self, block: Block, low: usize)
        requires
            self.over(t, block, low),
            low == self.next_index,
            r.ir == t.ir,
            r.allowed == t.allowed,
            r.next_index == t.next_index,
            r.index == t.index,
            r.lowlink == t.lowlink,
            r.order == t.order,
            r.stack@ == self.stack@,
            forall|b: usize| #[trigger] r.on_stack.has(b) <==> r.stack@.contains(b),
            r.components@.len() == t.components@.len() + 1,
            forall|c: int| 0 <= c < t.components@.len() ==> #[trigger] r.components@[c]
                == t.components@[c],
            ({
                let component = r.components@.last()@;
                &&& component.len() == t.stack@.len() - self.stack@.len()
                &&& forall|i: int|
                    0 <= i < component.len() ==> #[trigger] component[i] == t.stack@[t.stack@.len()
                        - 1 - i]
            }),
            r.done@ == dfs::completed(
                self.state(),
                t.state(),
                t.components@.len() as int,
            ).done,
            r.open@ == self.open@,
        ensures
            r.inv(),
            self.visits(block, r),
    {
        let e = self.e();
        let c = t.components@.len() as int;
        let s = self.state();
        let u = t.state();
        let m = dfs::members(s, u);
        let k = self.stack@.len() as int;
        self.lemma_explored(t, block, low);
        self.lemma_stack_distinct(t, block, low);
        assert(r.e() == e);
        assert(component_blocks(t.components@).len() == c);
        assert forall|x: usize| #[trigger] u.done.contains_key(x) implies u.done[x] < c by {}
        assert forall|x: usize, y: usize| #[trigger]
            e(x, y) && m.contains(x) && u.stack.contains(y) implies u.num[block] <= u.num[y] by {
            let j = m.index_of(x);
            assert(u.stack[j + k] == x);
            assert(u.stack.contains(x));
            if self.index.at(x) is Some {
                assert(s.num.contains_key(x));
                if s.stack.contains(x) {
                    let i = s.stack.index_of(x);
                    assert(t.stack@[i] == x && t.stack@[j + k] == x);
                }
                assert(s.done.contains_key(x));
                assert(u.done.contains_key(x));
            }
            assert(t.stack@.contains(y));
        }
        dfs::lemma_complete(e, s, u, block, c);
        let f = dfs::completed(s, u, c);
        assert(r.state() == f);
        // Where the blocks are.
        let blocks = component_blocks(r.components@);
        let before = component_blocks(t.components@);
        assert forall|d: int| 0 <= d < c implies #[trigger] blocks[d] == before[d] by {
            assert(r.components@[d] == t.components@[d]);
        }
        let last = blocks[c];
        assert(last == r.components@.last()@);
        assert forall|x: usize| #[trigger] last.contains(x) <==> m.contains(x) by {
            if last.contains(x) {
                let i = last.index_of(x);
                assert(m[m.len() - 1 - i] == x);
            }
            if m.contains(x) {
                let i = m.index_of(x);
                assert(last[m.len() - 1 - i] == x);
            }
        }
        assert forall|x: usize| #[trigger] m.contains(x) implies !u.done.contains_key(x) by {
            let i = m.index_of(x);
            assert(u.stack[i + k] == x);
            assert(u.stack.contains(x));
        }
        assert forall|d: int, i: int|
            0 <= d < blocks.len() && 0 <= i < blocks[d].len() implies f.done.contains_key(
            #[trigger] blocks[d][i],
        ) && f.done[blocks[d][i]] == d by {
            if d < c {
                assert(u.done.contains_key(before[d][i]));
            } else {
                assert(last.contains(last[i]));
            }
        }
        assert forall|x: usize| #[trigger] f.done.contains_key(x) implies 0 <= f.done[x]
            < blocks.len() && blocks[f.done[x]].contains(x) by {
            if u.done.contains_key(x) {
                assert(before[u.done[x]].contains(x));
            } else {
                assert(m.contains(x));
                assert(last.contains(x));
            }
        }
        assert forall|d: int| 0 <= d < blocks.len() implies (#[trigger] blocks[d]).no_duplicates()
            && blocks[d].len() > 0 by {
            if d < c {
                assert(before[d].no_duplicates());
            } else {
                assert forall|i: int, j: int|
                    0 <= i < last.len() && 0 <= j < last.len() && i != j implies last[i]
                    != last[j] by {
                    assert(last[i] == t.stack@[t.stack@.len() - 1 - i]);
                    assert(last[j] == t.stack@[t.stack@.len() - 1 - j]);
                }
            }
        }
        assert(!r.stack@.contains(block)) by {
            if self.stack@.contains(block) {
                assert(s.stack.contains(block));
                assert(s.num.contains_key(block));
            }
        }
        assert forall|x: usize| self.index.at(x) is None implies !#[trigger] r.stack@.contains(x) by {
            if self.stack@.contains(x) {
                assert(s.stack.contains(x));
                assert(s.num.contains_key(x));
            }
        }
    }

    /// `block` was left with its component not complete.
    proof fn lemma_left(self, t: Self, r: Self, block: Block, low: usize)
        requires
            self.over(t, block, low),
            low != self.next_index,
            r == (Tarjan { open: r.open, ..t }),
            r.open@ == self.open@,
        ensures
            r.inv(),
            self.visits(block, r),
    {
        let e = self.e();
        let s = self.state();
        let u = t.state();
        let k = self.stack@.len() as int;
        self.lemma_explored(t, block, low);
        assert(r.e() == e);
        let z = choose|z: usize|
            t.stack@.contains(z) && t.index.at(z)->0 == low && #[trigger] reaches(e, block, z);
        assert(self.stack@.contains(z)) by {
            let i = t.stack@.index_of(z);
            assert(u.stack[i] == z && u.stack[k] == block);
            assert(u.stack.contains(z) && u.stack.contains(block));
            assert(u.num.contains_key(z) && u.num.contains_key(block));
            if i > k {
                assert(u.num[u.stack[k]] < u.num[u.stack[i]]);
            }
            assert(u.stack[i] == s.stack[i]);
            assert(self.stack@[i] == z);
        }
        dfs::lemma_leave(e, s, u, block, z);
        assert(r.state() == dfs::left_open(s, u));
        assert(r.stack@.contains(block)) by {
            assert(t.stack@[k] == block);
        }
        assert(self.stack@.contains(z) && r.index.at(z)->0 == low && reaches(e, block, z));
        assert forall|x: usize, y: usize| #[trigger]
            e(x, y) && self.index.at(x) is None && r.stack@.contains(x) && r.stack@.contains(y) implies low
            <= r.index.at(y)->0 by {
            assert(t.stack@.contains(x) && t.stack@.contains(y));
        }
    }

    /// `t` is a visit of `block` that started in the state `self` and has explored
    /// the first `i` successors of `block`; the lowest number seen is `low`.
    pub open spec fn exploring(self, block: Block, t: Self, i: int, low: usize) -> bool {
        let succs = self.ir@[block as int].successors;
        &&& t.inv()
        &&& self.leads_to(t)
        &&& t.open@ == self.open@.push(block)
        &&& t.index.at(block) == Some(self.next_index)
        &&& self.next_index < t.next_index
        &&& self.stack@.len() < t.stack@.len()
        &&& t.stack@[self.stack@.len() as int] == block
        &&& t.lowlink.at(block) == Some(low)
        &&& low <= self.next_index
        &&& exists|z: usize|
            t.stack@.contains(z) && t.index.at(z)->0 == low && #[trigger] reaches(
                self.e(),
                block,
                z,
            )
        &&& forall|x: usize, y: usize| #[trigger]
            self.e()(x, y) && self.index.at(x) is None && x != block && t.stack@.contains(x)
                && t.stack@.contains(y) ==> low <= t.index.at(y)->0
        &&& forall|j: int|
            0 <= j < i && self.ok(#[trigger] succs[j]) ==> t.index.at(succs[j]) is Some && (
            t.stack@.contains(succs[j]) ==> low <= t.index.at(succs[j])->0)
    }

    /// Every open block reaches a successor of the block being explored.
    proof fn lemma_open_reach(self, t: Self, block: Block, succ: Block, low: usize, i: int)
        requires
            forall|g: usize| #[trigger] self.open@.contains(g) ==> reaches(self.e(), g, block),
            self.exploring(block, t, i, low),
            self.e()(block, succ),
        ensures
            t.e() == self.e(),
            t.ok(succ),
            forall|g: usize| #[trigger] t.open@.contains(g) ==> reaches(t.e(), g, succ),
    {
        let e = self.e();
        assert(t.e() == e);
        graph::reaches_by_edge(e, block, succ);
        assert forall|g: usize| #[trigger] t.open@.contains(g) implies reaches(t.e(), g, succ) by {
            let j = t.open@.index_of(g);
            if j < self.open@.len() {
                assert(self.open@[j] == g);
                assert(self.open@.contains(g));
                graph::reaches_transitive(e, g, block, succ);
            }
        }
    }

    /// A visited successor on the stack was met.
    proof fn lemma_met(self, t: Self, r: Self, block: Block, succ: Block, i: int, low: usize)
        requires
            self.inv(),
            self.exploring(block, t, i, low),
            0 <= i < self.ir@[block as int].successors.len(),
            succ == self.ir@[block as int].successors[i],
            self.e()(block, succ),
            t.index.at(succ) is Some,
            t.stack@.contains(succ),
            self.index.at(block) is None,
            r == (Tarjan { lowlink: r.lowlink, ..t }),
            r.lowlink.at(block) == Some(
                if low < t.index.at(succ)->0 {
                    low
                } else {
                    t.index.at(succ)->0
                },
            ),
            forall|k: usize| k != block ==> #[trigger] r.lowlink.at(k) == t.lowlink.at(k),
        ensures
            self.exploring(block, r, i + 1, r.lowlink.at(block)->0),
    {
        let e = self.e();
        graph::reaches_by_edge(e, block, succ);
        assert(r.state() == t.state());
        assert(r.e() == t.e());
        let low2 = r.lowlink.at(block)->0;
        if low2 == low {
            let z = choose|z: usize|
                t.stack@.contains(z) && t.index.at(z)->0 == low && #[trigger] reaches(e, block, z);
            assert(r.stack@.contains(z) && r.index.at(z)->0 == low2 && reaches(e, block, z));
        } else {
            assert(r.stack@.contains(succ) && r.index.at(succ)->0 == low2 && reaches(e, block, succ));
        }
    }

    /// An unvisited successor was visited.
    proof fn lemma_returned(
        self,
        t: Self,
        t2: Self,
        r: Self,
        block: Block,
        succ: Block,
        i: int,
        low: usize,
    )
        requires
            self.inv(),
            self.exploring(block, t, i, low),
            0 <= i < self.ir@[block as int].successors.len(),
            succ == self.ir@[block as int].successors[i],
            self.e()(block, succ),
            t.index.at(succ) is None,
            self.index.at(block) is None,
            t2.inv(),
            t.visits(succ, t2),
            r == (Tarjan { lowlink: r.lowlink, ..t2 }),
            r.lowlink.at(block) == Some(
                if low < t2.lowlink.at(succ)->0 {
                    low
                } else {
                    t2.lowlink.at(succ)->0
                },
            ),
            forall|k: usize| k != block ==> #[trigger] r.lowlink.at(k) == t2.lowlink.at(k),
        ensures
            self.exploring(block, r, i + 1, r.lowlink.at(block)->0),
    {
        let e = self.e();
        let succs = self.ir@[block as int].successors;
        let low2 = r.lowlink.at(block)->0;
        let low_s = t2.lowlink.at(succ)->0;
        assert(t.e() == e && t2.e() == e && r.e() == e);
        assert(r.state() == t2.state());
        graph::reaches_by_edge(e, block, succ);
        lemma_grows(self, t, t2);
        assert(self.leads_to(r)) by {
            assert forall|b: usize| self.index.at(b) is Some implies #[trigger] r.lowlink.at(b)
                == self.lowlink.at(b) by {
                assert(self.state().num.contains_key(b));
                assert(t.state().num.contains_key(b));
                assert(t.lowlink.at(b) == self.lowlink.at(b));
                assert(t2.lowlink.at(b) == t.lowlink.at(b));
            }
            assert forall|b: usize|
                self.index.at(b) is None && (#[trigger] r.index.at(b)) is Some implies r.index.at(
                b,
            )->0 >= self.next_index by {
                if t.index.at(b) is Some {
                    assert(t.state().num.contains_key(b));
                    assert(t2.state().num[b] == t.state().num[b]);
                } else {
                    assert(t2.index.at(b) is Some);
                }
            }
        }
        // Blocks that `t` had visited keep their numbers.
        assert forall|b: usize| (#[trigger] t.index.at(b)) is Some implies r.index.at(b)
            == t.index.at(b) by {
            assert(t.state().num.contains_key(b));
            assert(t2.state().num[b] == t.state().num[b]);
        }
        // The stack of `t` is still there.
        assert forall|x: usize| #[trigger] t.stack@.contains(x) implies r.stack@.contains(x) by {
            let j = t.stack@.index_of(x);
            assert(t2.state().stack[j] == t.state().stack[j]);
        }
        // What `t` had visited is on the stack now only if it was then.
        assert forall|x: usize| t.index.at(x) is Some && #[trigger] r.stack@.contains(x) implies t.stack@.contains(
            x,
        ) by {
            assert(t.state().num.contains_key(x));
            if !t.stack@.contains(x) {
                assert(t.state().done.contains_key(x));
                assert(t2.state().done.contains_key(x));
                assert(t2.state().stack.contains(x));
            }
        }
        let z = choose|z: usize|
            t.stack@.contains(z) && t.index.at(z)->0 == low && #[trigger] reaches(e, block, z);
        assert(t.state().stack.contains(z));
        assert(t.state().num.contains_key(z));
        assert(t.index.at(z) is Some);
        if low2 == low {
            assert(r.stack@.contains(z) && r.index.at(z)->0 == low2 && reaches(e, block, z));
        } else if t2.stack@.contains(succ) {
            let y = choose|y: usize|
                t.stack@.contains(y) && t2.index.at(y)->0 == low_s && #[trigger] reaches(e, succ, y);
            graph::reaches_transitive(e, block, succ, y);
            assert(r.stack@.contains(y) && r.index.at(y)->0 == low2 && reaches(e, block, y));
        }
        assert forall|x: usize, y: usize| #[trigger]
            e(x, y) && self.index.at(x) is None && x != block && r.stack@.contains(x)
                && r.stack@.contains(y) implies low2 <= r.index.at(y)->0 by {
            if t.index.at(x) is Some {
                assert(t.state().num.contains_key(x));
                assert(t.stack@.contains(x));
                assert(!self.open@.contains(x)) by {
                    if self.open@.contains(x) {
                        assert(self.state().open.contains(x));
                        assert(self.state().stack.contains(x));
                        assert(self.state().num.contains_key(x));
                    }
                }
                assert(!t.open@.contains(x)) by {
                    if t.open@.contains(x) {
                        let j = t.open@.index_of(x);
                        assert(j < self.open@.len());
                        assert(self.open@[j] == x);
                    }
                }
                assert(t.state().num.contains_key(y));
                assert(t.stack@.contains(y));
                assert(low <= t.index.at(y)->0);
            } else {
                assert(low_s <= t2.index.at(y)->0);
            }
        }
        assert forall|j: int| 0 <= j < i + 1 && self.ok(#[trigger] succs[j]) implies r.index.at(
            succs[j],
        ) is Some && (r.stack@.contains(succs[j]) ==> low2 <= r.index.at(succs[j])->0) by {
            if j < i {
                assert(t.index.at(succs[j]) is Some);
            } else if r.stack@.contains(succ) {
                // The number that `succ` can get back to is not above its own.
                let y = choose|y: usize|
                    t.stack@.contains(y) && t2.index.at(y)->0 == low_s && #[trigger] reaches(
                        e,
                        succ,
                        y,
                    );
                assert(t.state().stack.contains(y));
                assert(t.state().num.contains_key(y));
                assert(t.index.at(y)->0 < t.next_index);
                assert(t2.index.at(succ)->0 >= t.next_index);
            }
        }
        assert(t2.state().num.contains_key(block)) by {
            assert(t.state().num.contains_key(block));
        }
        assert(r.stack@[self.stack@.len() as int] == block) by {
            assert(t2.state().stack[self.stack@.len() as int] == t.state().stack[self.stack@.len() as int]);
        }
    }

    /// The state right after `block` was entered.
    proof fn lemma_entered(self, t: Self, block: Block)
        requires
            self.inv(),
            self.ok(block),
            self.index.at(block) is None,
            forall|g: usize| #[trigger] self.open@.contains(g) ==> reaches(self.e(), g, block),
            t.ir == self.ir,
            t.allowed == self.allowed,
            t.next_index == self.next_index + 1,
            t.index.at(block) == Some(self.next_index),
            forall|k: usize| k != block ==> #[trigger] t.index.at(k) == self.index.at(k),
            t.lowlink.at(block) == Some(self.next_index),
            forall|k: usize| k != block ==> #[trigger] t.lowlink.at(k) == self.lowlink.at(k),
            t.stack@ == self.stack@.push(block),
            t.on_stack.has(block),
            forall|k: usize| k != block ==> #[trigger] t.on_stack.has(k) == self.on_stack.has(k),
            t.components@ == self.components@,
            t.order@ == self.order@.push(block),
            t.done@ == self.done@,
            t.open@ == self.open@.push(block),
            self.next_index < self.ir@.len(),
        ensures
            self.exploring(block, t, 0, self.next_index),
    {
        let k = self.next_index as int;
        assert(t.state().num =~= self.state().num.insert(block, k));
        assert(t.state() == dfs::visited(self.state(), block, k));
        dfs::lemma_visit(self.e(), self.state(), block, k);
        assert(t.e() == self.e());
        assert forall|i: int| 0 <= i < t.order@.len() implies t.ok(#[trigger] t.order@[i])
            && t.index.at(t.order@[i]) == Some(i as usize) by {
            if i < self.order@.len() {
                assert(self.index.at(self.order@[i]) == Some(i as usize));
            }
        }
        assert forall|b: usize| #[trigger] t.on_stack.has(b) <==> t.stack@.contains(b) by {
            if b == block {
                assert(t.stack@[self.stack@.len() as int] == block);
            } else {
                if self.stack@.contains(b) {
                    assert(t.stack@[self.stack@.index_of(b)] == b);
                }
                if t.stack@.contains(b) {
                    assert(self.stack@[t.stack@.index_of(b)] == b);
                }
                assert(self.on_stack.has(b) <==> self.stack@.contains(b));
            }
        }
        assert forall|b: usize| (#[trigger] t.index.at(b)) is Some implies t.index.at(b)->0
            < t.order@.len() && t.order@[t.index.at(b)->0 as int] == b by {
            if b != block {
                assert(self.index.at(b) is Some);
            }
        }
        assert forall|i: int, j: int| 0 <= i < t.order@.len() && 0 <= j < t.order@.len() && i
            != j implies t.order@[i] != t.order@[j] by {
            assert(t.index.at(t.order@[i]) == Some(i as usize));
            assert(t.index.at(t.order@[j]) == Some(j as usize));
        }
        graph::reaches_self(self.e(), block);
        assert(t.stack@[self.stack@.len() as int] == block);
        assert(t.stack@.contains(block) && t.index.at(block)->0 == self.next_index && reaches(
            self.e(),
            block,
            block,
        ));
        assert forall|x: usize| self.index.at(x) is None && #[trigger] t.stack@.contains(x) implies x
            == block by {
            let j = t.stack@.index_of(x);
            if j < self.stack@.len() {
                assert(self.stack@[j] == x);
                assert(self.state().stack.contains(x));
                assert(self.state().num.contains_key(x));
            }
        }
    }

    /// Visits every block that the search may enter.
    fn run(self) -> (r: Vec<Vec<Block>>)
        requires
            self.inv(),
            self.open@.len() == 0,
            self.next_index == 0,
        ensures
            is_scc_list(self.e(), |b: usize| self.ok(b), component_blocks(r@)),
    {
        let ghost s0 = self;
        let mut t = self;
        let total: usize = t.ir.blocks.len();
        let mut block: usize = 0;
        while block < total
            invariant
                total == t.ir@.len(),
                block <= total,
                t.inv(),
                t.ir == s0.ir,
                t.allowed == s0.allowed,
                t.open@.len() == 0,
                forall|b: usize| b < block && #[trigger] s0.ok(b) ==> t.index.at(b) is Some,
            decreases total - block,
        {
            let ghost t1 = t;
            if t.block_is_allowed(block) {
                if t.index.get(block).is_none() {
                    t = t.strong_connect(block);
                    proof {
                        assert forall|b: usize| b < block + 1 && #[trigger] s0.ok(b) implies t.index.at(
                            b,
                        ) is Some by {
                            if b < block {
                                assert(t1.state().num.contains_key(b));
                                assert(t.state().num.contains_key(b));
                            }
                        }
                    }
                }
            }
            block = block + 1;
        }
        proof {
            assert(t.e() == s0.e());
            assert forall|b: usize| #[trigger] t.ok(b) implies t.index.at(b) is Some by {
                assert(s0.ok(b));
            }
            let f = |b: usize| t.ok(b);
            let g = |b: usize| s0.ok(b);
            assert(f =~= g) by {
                assert forall|b: usize| #[trigger] f(b) == g(b) by {}
            }
            t.lemma_components();
        }
        t.components
    }

    /// Once every block was visited, the components are complete.
    proof fn lemma_components(self)
        requires
            self.inv(),
            self.open@.len() == 0,
            forall|b: usize| #[trigger] self.ok(b) ==> self.index.at(b) is Some,
        ensures
            is_scc_list(self.e(), |b: usize| self.ok(b), component_blocks(self.components@)),
    {
        let e = self.e();
        let s = self.state();
        let blocks = component_blocks(self.components@);
        let ok = |b: usize| self.ok(b);
        assert forall|x: usize| !#[trigger] s.stack.contains(x) by {
            if s.stack.contains(x) {
                reveal(dfs::reaches_open);
                let g = choose|g: usize| s.open.contains(g) && #[trigger] reaches(e, x, g);
                assert(s.open.contains(g));
            }
        }
        assert forall|b: usize| #[trigger] ok(b) <==> s.done.contains_key(b) by {
            if self.ok(b) {
                assert(self.index.at(b) is Some);
                assert(s.num.contains_key(b));
            }
            if s.done.contains_key(b) {
                assert(s.num.contains_key(b));
                assert(self.index.at(b) is Some);
                assert(self.ok(self.order@[self.index.at(b)->0 as int]));
            }
        }
        assert forall|c: int, i: int| 0 <= c < blocks.len() && 0 <= i < blocks[c].len() implies ok(
            #[trigger] blocks[c][i],
        ) by {
            assert(s.done.contains_key(blocks[c][i]));
        }
        assert forall|b: usize| #[trigger] ok(b) implies exists|c: int|
            0 <= c < blocks.len() && #[trigger] blocks[c].contains(b) by {
            assert(s.done.contains_key(b));
            assert(blocks[s.done[b]].contains(b));
        }
        assert forall|c: int, i: int, d: int, j: int|
            0 <= c < blocks.len() && 0 <= i < blocks[c].len() && 0 <= d < blocks.len() && 0 <= j
                < blocks[d].len() && #[trigger] blocks[c][i] == #[trigger] blocks[d][j] implies c == d
            && i == j by {
            assert(s.done[blocks[c][i]] == c && s.done[blocks[d][j]] == d);
            assert(blocks[c].no_duplicates());
        }
        assert forall|u: usize, v: usize|
            s.done.contains_key(u) && #[trigger] reaches(e, u, v) implies s.done.contains_key(v)
            && s.done[v] <= s.done[u] by {
            let closed = Set::new(|x: usize| s.done.contains_key(x) && s.done[x] <= s.done[u]);
            graph::lemma_closed(e, closed, u, v);
        }
        assert forall|c: int, i: int, d: int, j: int|
            0 <= c < blocks.len() && 0 <= i < blocks[c].len() && 0 <= d < blocks.len() && 0 <= j
                < blocks[d].len() implies (mutually_reachable(
            e,
            #[trigger] blocks[c][i],
            #[trigger] blocks[d][j],
        ) <==> c == d) && (e(blocks[c][i], blocks[d][j]) ==> d <= c) by {
            let u = blocks[c][i];
            let v = blocks[d][j];
            assert(s.done[u] == c && s.done[v] == d);
            if c == d {
                assert(reaches(e, u, v) && reaches(e, v, u));
            }
        }
    }
}

/// No component is empty; the blocks of `components` are the blocks for which `ok`
/// holds, each once; two of them are in the same component exactly where each can be reached from the
/// other; and no edge leads to a later component.
pub open spec fn is_scc_list(
    e: Edges,
    ok: spec_fn(usize) -> bool,
    components: Seq<Seq<usize>>,
) -> bool {
    &&& forall|c: int| 0 <= c < components.len() ==> (#[trigger] components[c]).len() > 0
    &&& forall|c: int, i: int|
        0 <= c < components.len() && 0 <= i < components[c].len() ==> ok(
            #[trigger] components[c][i],
        )
    &&& forall|b: usize| #[trigger]
        ok(b) ==> exists|c: int| 0 <= c < components.len() && #[trigger] components[c].contains(b)
    &&& forall|c: int, i: int, d: int, j: int|
        0 <= c < components.len() && 0 <= i < components[c].len() && 0 <= d < components.len() && 0
            <= j < components[d].len() && #[trigger] components[c][i] == #[trigger] components[d][j]
            ==> c == d && i == j
    &&& forall|c: int, i: int, d: int, j: int|
        0 <= c < components.len() && 0 <= i < components[c].len() && 0 <= d < components.len() && 0
            <= j < components[d].len() ==> (mutually_reachable(
            e,
            #[trigger] components[c][i],
            #[trigger] components[d][j],
        ) <==> c == d) && (e(components[c][i], components[d][j]) ==> d <= c)
}

/// A visit that starts with an empty stack ends with an empty stack. It visits exactly the
/// unvisited blocks that `block` reaches, and the components that it appends are the
/// strongly connected components of those blocks.
pub proof fn visits_complete_components<'a>(before: Tarjan<'a>, after: Tarjan<'a>, block: Block)
    requires
        before.inv(),
        before.ok(block),
        before.index.at(block) is None,
        before.stack@.len() == 0,
        after.inv(),
        before.visits(block, after),
        before.finds(block, after),
    ensures
        after.stack@.len() == 0,
        forall|b: usize| #[trigger]
            before.newly_visited(after, b) <==> before.index.at(b) is None && reaches(
                before.e(),
                block,
                b,
            ),
        is_scc_list(
            before.e(),
            |b: usize| before.newly_visited(after, b),
            component_blocks(after.components@.skip(before.components@.len() as int)),
        ),
{
    let e = before.e();
    let s = before.state();
    let u = after.state();
    let n = before.components@.len() as int;
    let all = component_blocks(after.components@);
    let blocks = component_blocks(after.components@.skip(n));
    let new = |b: usize| before.newly_visited(after, b);
    assert(after.e() == e);
    assert(after.stack@.len() == 0);
    assert forall|x: usize| !#[trigger] u.stack.contains(x) by {}
    assert forall|x: usize| !#[trigger] s.stack.contains(x) by {}
    assert forall|c: int| 0 <= c < blocks.len() implies #[trigger] blocks[c] == all[n + c] by {}
    assert forall|b: usize| #[trigger] before.newly_visited(after, b) <==> before.index.at(
        b,
    ) is None && reaches(e, block, b) by {
        if before.newly_visited(after, b) {
            graph::reaches_along_more(before.fresh(), e, block, b);
        }
        if before.index.at(b) is None && reaches(e, block, b) {
            let closed = Set::new(|x: usize| u.num.contains_key(x));
            assert forall|x: usize, y: usize| closed.contains(x) && #[trigger] e(x, y) implies closed.contains(
                y,
            ) by {
                assert(u.num.contains_key(x));
                assert(u.done.contains_key(y));
                assert(u.num.contains_key(y));
            }
            assert(u.num.contains_key(block));
            graph::lemma_closed(e, closed, block, b);
        }
    }
    assert forall|c: int, i: int| 0 <= c < blocks.len() && 0 <= i < blocks[c].len() implies new(
        #[trigger] blocks[c][i],
    ) by {
        assert(blocks[c] == all[n + c]);
        assert(before.newly_visited(after, after.components@[n + c]@[i]));
    }
    assert forall|b: usize| #[trigger] new(b) implies exists|c: int|
        0 <= c < blocks.len() && #[trigger] blocks[c].contains(b) by {
        assert(before.newly_visited(after, b));
        assert(u.num.contains_key(b));
        assert(u.done.contains_key(b));
        let c = u.done[b];
        assert(all[c].contains(b));
        if c < n {
            let i = all[c].index_of(b);
            assert(after.components@[c] == before.components@[c]);
            assert(component_blocks(before.components@)[c][i] == b);
            assert(s.done.contains_key(b));
            assert(s.num.contains_key(b));
        }
        assert(blocks[c - n].contains(b));
    }
    assert forall|c: int| 0 <= c < blocks.len() implies (#[trigger] blocks[c]).len() > 0 by {
        assert(all[n + c].len() > 0);
    }
    assert forall|c: int, i: int, d: int, j: int|
        0 <= c < blocks.len() && 0 <= i < blocks[c].len() && 0 <= d < blocks.len() && 0 <= j
            < blocks[d].len() && #[trigger] blocks[c][i] == #[trigger] blocks[d][j] implies c == d
        && i == j by {
        assert(u.done[all[n + c][i]] == n + c && u.done[all[n + d][j]] == n + d);
        assert(all[n + c].no_duplicates());
    }
    assert forall|x: usize, y: usize|
        u.done.contains_key(x) && #[trigger] reaches(e, x, y) implies u.done.contains_key(y)
        && u.done[y] <= u.done[x] by {
        let closed = Set::new(|z: usize| u.done.contains_key(z) && u.done[z] <= u.done[x]);
        graph::lemma_closed(e, closed, x, y);
    }
    assert forall|c: int, i: int, d: int, j: int|
        0 <= c < blocks.len() && 0 <= i < blocks[c].len() && 0 <= d < blocks.len() && 0 <= j
            < blocks[d].len() implies (mutually_reachable(
        e,
        #[trigger] blocks[c][i],
        #[trigger] blocks[d][j],
    ) <==> c == d) && (e(blocks[c][i], blocks[d][j]) ==> d <= c) by {
        let x = blocks[c][i];
        let y = blocks[d][j];
        assert(x == all[n + c][i] && y == all[n + d][j]);
        assert(u.done[x] == n + c && u.done[y] == n + d);
        if c == d {
            assert(reaches(e, x, y) && reaches(e, y, x));
        }
    }
}

/// The blocks that take part: the members of the set, or all where there is none.
pub open spec fn takes_part(blocks: Seq<BlockView>, allowed: Option<ArenaSet>, b: usize) -> bool {
    b < blocks.len() && match allowed {
        Some(set) => set.has(b),
        None => true,
    }
}

/// The edges between blocks that take part.
pub open spec fn part_flow(blocks: Seq<BlockView>, allowed: Option<ArenaSet>) -> Edges {
    |u: usize, v: usize|
        takes_part(blocks, allowed, u) && takes_part(blocks, allowed, v) && ir::flow(blocks)(u, v)
}

/// The strongly connected components of the control flow graph, or of the part of
/// it that the blocks of `allowed` make up.
pub fn strongly_connected_components(ir: &ExecIrBuilder, allowed: Option<ArenaSet>) -> (r: Vec<
    Vec<Block>,
>)
    requires
        ir::well_formed(ir@, ir.stmts@),
    ensures
        is_scc_list(
            part_flow(ir@, allowed),
            |b: usize| takes_part(ir@, allowed, b),
            component_blocks(r@),
        ),
{
    let tarjan = Tarjan {
        ir,
        allowed: allowed.as_ref(),
        next_index: 0,
        index: ArenaMap::new(),
        lowlink: ArenaMap::new(),
        stack: Vec::new(),
        on_stack: ArenaSet::new(),
        components: Vec::new(),
        order: Ghost(Seq::empty()),
        done: Ghost(Map::empty()),
        open: Ghost(Seq::empty()),
    };
    proof {
        let s = tarjan.state();
        assert forall|u: usize| !#[trigger] s.stack.contains(u) by {}
        assert forall|u: usize| !#[trigger] s.num.contains_key(u) by {
            assert(tarjan.index.at(u) is None);
        }
        assert(tarjan.e() =~= part_flow(ir@, allowed)) by {
            assert forall|u: usize, v: usize| #[trigger]
                tarjan.e()(u, v) == part_flow(ir@, allowed)(u, v) by {}
        }
        let f = |b: usize| tarjan.ok(b);
        let g = |b: usize| takes_part(ir@, allowed, b);
        assert(f =~= g) by {
            assert forall|b: usize| #[trigger] f(b) == g(b) by {}
        }
    }
    tarjan.run()
}

} // verus!
