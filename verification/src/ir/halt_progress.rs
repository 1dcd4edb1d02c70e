//! How far the insertion of halt checks has come, and what each of its steps keeps.

use vstd::prelude::*;
use crate::ir;
use crate::ir::halt_map;
use crate::ir::halt_map::{Arrival, HaltStateMap};
use crate::ir::halt_spec;
use crate::ir::halt_state;
use crate::ir::{Block, BlockView, Stmt, StmtData};

verus! {

/// The blocks that are being worked on, as they were, and how many safepoints are
/// allowed between halt checks.
pub struct Task {
    pub blocks: Seq<BlockView>,
    pub kinds: Seq<StmtData>,
    pub n: nat,
}

/// What was done.
pub struct Progress {
    /// The countdown at the start of each block that is done.
    pub rin: Seq<nat>,
    /// Where the new pieces of each block that is done start.
    pub base: Seq<int>,
    /// The block that each piece belongs to.
    pub owner: Seq<usize>,
    /// The blocks that are broken down.
    pub done: Set<usize>,
    /// The edges whose state was sent off.
    pub sent: Set<(usize, usize)>,
    /// The blocks whose arrivals were collected.
    pub settled: Set<usize>,
}

impl Task {
    /// The pieces of the block `b`.
    pub open spec fn pieces(self, g: Progress, b: usize) -> Seq<Seq<Stmt>> {
        halt_spec::block_pieces(self.blocks, self.kinds, self.n, g.rin, b)
    }

    /// The last piece of the block `b`.
    pub open spec fn last(self, g: Progress, b: usize) -> int {
        halt_spec::piece_id(b as int, g.base[b as int], self.pieces(g, b).len() - 1)
    }

    /// The countdown at the end of the block `b`.
    pub open spec fn leaving(self, g: Progress, b: usize) -> nat {
        halt_spec::leaving(self.blocks, self.kinds, self.n, g.rin, b)
    }

    /// The pieces of the blocks that are done stand in `after`; the other blocks are
    /// untouched.
    pub open spec fn laid_out(self, g: Progress, after: Seq<BlockView>) -> bool {
        &&& self.blocks.len() <= after.len()
        &&& g.rin.len() == self.blocks.len()
        &&& g.base.len() == self.blocks.len()
        &&& g.owner.len() == after.len()
        &&& forall|b: usize| #[trigger] g.done.contains(b) ==> b < self.blocks.len()
        &&& forall|b: usize| #[trigger]
            g.done.contains(b) ==> halt_spec::stands(
                self.blocks,
                after,
                b,
                g.base[b as int],
                self.pieces(g, b),
            )
        &&& forall|b: usize|
            b < self.blocks.len() && !(#[trigger] g.done.contains(b)) ==> after[b as int]
                == self.blocks[b as int]
        &&& forall|x: int| 0 <= x < self.blocks.len() ==> #[trigger] g.owner[x] == x
        &&& forall|x: int|
            self.blocks.len() <= x < after.len() ==> g.done.contains(#[trigger] g.owner[x])
                && halt_spec::is_piece_of(
                self.blocks,
                self.kinds,
                self.n,
                g.rin,
                g.base,
                x,
                g.owner[x],
            )
        &&& forall|b: usize, i: int|
            g.done.contains(b) && 0 <= i < self.pieces(g, b).len()
                ==> g.owner[#[trigger] halt_spec::piece_id(b as int, g.base[b as int], i)] == b
    }

    /// The countdowns of the blocks that are done are right.
    pub open spec fn counted(self, g: Progress) -> bool {
        &&& forall|b: usize| #[trigger]
            g.done.contains(b) ==> halt_spec::counts_down(
                self.blocks,
                self.kinds,
                self.n,
                g.rin,
                b,
            )
        &&& forall|b: usize, p: usize| #[trigger]
            g.done.contains(b) && #[trigger] halt_spec::enters(ir::flow(self.blocks), p, b)
                ==> g.done.contains(p)
    }

    /// The arrival carries the state of the edge from `p` to `c`.
    pub open spec fn carries(self, g: Progress, arrival: Arrival, p: usize, c: usize) -> bool {
        &&& g.sent.contains((p, c))
        &&& g.done.contains(p)
        &&& arrival.from == self.last(g, p)
        &&& arrival.state.remaining == self.leaving(g, p)
    }

    /// The arrival carries the state of some edge to `c`.
    pub open spec fn accounted(self, g: Progress, arrival: Arrival, c: usize) -> bool {
        exists|p: usize| #[trigger] self.carries(g, arrival, p, c)
    }

    /// Of the blocks that are not settled, the states that were sent have arrived.
    pub open spec fn arrived(self, g: Progress, map: HaltStateMap) -> bool {
        &&& forall|c: usize|
            c >= self.blocks.len() || g.settled.contains(c) ==> (#[trigger] map.arrivals(c)).len()
                == 0
        &&& forall|c: usize, i: int|
            c < self.blocks.len() && !g.settled.contains(c) && 0 <= i < map.arrivals(c).len()
                ==> self.accounted(g, #[trigger] map.arrivals(c)[i], c)
        &&& forall|p: usize, c: usize|
            c < self.blocks.len() && !g.settled.contains(c) && #[trigger] g.sent.contains((p, c))
                ==> exists|i: int|
                0 <= i < map.arrivals(c).len() && self.carries(
                    g,
                    #[trigger] map.arrivals(c)[i],
                    p,
                    c,
                )
    }

    /// Countdowns stay in range.
    pub proof fn lemma_leaving_range(self, g: Progress, p: usize)
        requires
            self.n > 0,
            1 <= g.rin[p as int] <= self.n,
        ensures
            1 <= self.leaving(g, p) <= self.n,
    {
        lemma_countdown_range(self.kinds, self.blocks[p as int].stmts, g.rin[p as int], self.n);
    }

    /// Only the countdown of a block decides on its pieces and its end.
    proof fn lemma_same_block(self, g: Progress, h: Progress, p: usize)
        requires
            h.rin[p as int] == g.rin[p as int],
            h.base[p as int] == g.base[p as int],
        ensures
            self.pieces(h, p) == self.pieces(g, p),
            self.last(h, p) == self.last(g, p),
            self.leaving(h, p) == self.leaving(g, p),
    {
    }
}

pub(crate) proof fn lemma_countdown_range(
    kinds: Seq<StmtData>,
    stmts: Seq<Stmt>,
    remaining: nat,
    n: nat,
)
    requires
        1 <= remaining <= n,
    ensures
        1 <= halt_state::countdown_after(kinds, stmts, remaining, n) <= n,
    decreases stmts.len(),
{
    if stmts.len() > 0 {
        let next = if ir::is_safepoint(kinds, stmts[0]) {
            halt_state::counted_down(remaining, n)
        } else {
            remaining
        };
        lemma_countdown_range(kinds, stmts.drop_first(), next, n);
    }
}

/// The progress after the block `b` was broken down, entered with the countdown `r`,
/// where `len` blocks were there before.
pub open spec fn after_break(g: Progress, b: usize, r: nat, len: nat, count: nat) -> Progress {
    Progress {
        rin: g.rin.update(b as int, r),
        base: g.base.update(b as int, len as int),
        owner: g.owner + Seq::new(count, |i: int| b),
        done: g.done.insert(b),
        ..g
    }
}

impl Task {
    /// Breaking one more block down keeps the layout.
    pub proof fn lemma_break(
        self,
        g: Progress,
        before: Seq<BlockView>,
        after: Seq<BlockView>,
        b: usize,
        r: nat,
        ps: Seq<Seq<Stmt>>,
    )
        requires
            self.laid_out(g, before),
            b < self.blocks.len(),
            !g.done.contains(b),
            ps.len() > 0,
            after == broken(before, b as int, ps),
            ps == self.pieces(after_break(g, b, r, before.len(), (ps.len() - 1) as nat), b),
        ensures
            self.laid_out(after_break(g, b, r, before.len(), (ps.len() - 1) as nat), after),
    {
        let h = after_break(g, b, r, before.len(), (ps.len() - 1) as nat);
        let len = before.len() as int;
        assert(after.len() == len + ps.len() - 1);
        assert forall|d: usize| #[trigger] h.done.contains(d) implies halt_spec::stands(
            self.blocks,
            after,
            d,
            h.base[d as int],
            self.pieces(h, d),
        ) by {
            if d == b {
                assert forall|i: int| 0 <= i < ps.len() implies after[#[trigger] halt_spec::piece_id(
                    b as int,
                    len,
                    i,
                )] == halt_spec::piece(self.blocks[b as int], b as int, len, ps, i) by {
                    assert(before[b as int] == self.blocks[b as int]);
                }
            } else {
                assert(g.done.contains(d));
                self.lemma_same_block(g, h, d);
                let qs = self.pieces(g, d);
                assert forall|i: int| 0 <= i < qs.len() implies after[#[trigger] halt_spec::piece_id(
                    d as int,
                    h.base[d as int],
                    i,
                )] == halt_spec::piece(
                    self.blocks[d as int],
                    d as int,
                    h.base[d as int],
                    qs,
                    i,
                ) by {
                    let x = halt_spec::piece_id(d as int, g.base[d as int], i);
                    assert(before[x] == halt_spec::piece(
                        self.blocks[d as int],
                        d as int,
                        g.base[d as int],
                        qs,
                        i,
                    ));
                    assert(x != b && 0 <= x < len);
                }
            }
        }
        assert forall|d: usize|
            d < self.blocks.len() && !(#[trigger] h.done.contains(d)) implies after[d as int]
            == self.blocks[d as int] by {
            assert(!g.done.contains(d));
        }
        assert forall|x: int| 0 <= x < self.blocks.len() implies #[trigger] h.owner[x] == x by {
            assert(g.owner[x] == x);
        }
        assert forall|x: int| self.blocks.len() <= x < after.len() implies h.done.contains(
            #[trigger] h.owner[x],
        ) && halt_spec::is_piece_of(
            self.blocks,
            self.kinds,
            self.n,
            h.rin,
            h.base,
            x,
            h.owner[x],
        ) by {
            if x < len {
                let d = g.owner[x];
                assert(g.done.contains(d));
                self.lemma_same_block(g, h, d);
            } else {
                assert(h.owner[x] == b);
            }
        }
        assert forall|d: usize, i: int|
            h.done.contains(d) && 0 <= i < self.pieces(h, d).len() implies h.owner[
        #[trigger] halt_spec::piece_id(d as int, h.base[d as int], i)] == d by {
            let x = halt_spec::piece_id(d as int, h.base[d as int], i);
            if d == b {
                if i == 0 {
                    assert(g.owner[b as int] == b);
                } else {
                    assert(h.owner[x] == b);
                }
            } else {
                assert(g.done.contains(d));
                self.lemma_same_block(g, h, d);
                assert(halt_spec::stands(
                    self.blocks,
                    before,
                    d,
                    g.base[d as int],
                    self.pieces(g, d),
                ));
                assert(g.owner[halt_spec::piece_id(d as int, g.base[d as int], i)] == d);
            }
        }
    }

    /// A block whose countdown is right joins the others.
    pub proof fn lemma_count(self, g: Progress, h: Progress, b: usize, r: nat)
        requires
            self.counted(g),
            b < self.blocks.len() == g.rin.len(),
            !g.done.contains(b),
            forall|d: usize| #[trigger] g.done.contains(d) ==> d < self.blocks.len(),
            h.rin == g.rin.update(b as int, r),
            h.done == g.done.insert(b),
            1 <= r <= self.n,
            forall|p: usize| #[trigger]
                halt_spec::enters(ir::flow(self.blocks), p, b) ==> h.done.contains(p) && p != b && r
                    <= self.leaving(h, p),
            r == self.n || exists|p: usize| #[trigger]
                halt_spec::enters(ir::flow(self.blocks), p, b) && r == self.leaving(h, p),
        ensures
            self.counted(h),
    {
        let e = ir::flow(self.blocks);
        assert forall|d: usize| #[trigger] h.done.contains(d) implies halt_spec::counts_down(
            self.blocks,
            self.kinds,
            self.n,
            h.rin,
            d,
        ) by {
            if d == b {
                if r != self.n {
                    let p = choose|p: usize| #[trigger]
                        halt_spec::enters(e, p, b) && r == self.leaving(h, p);
                    assert(halt_spec::enters(e, p, b) && r == halt_spec::leaving(
                        self.blocks,
                        self.kinds,
                        self.n,
                        h.rin,
                        p,
                    ));
                }
                assert forall|p: usize| #[trigger] halt_spec::enters(e, p, b) implies h.rin[b as int]
                    <= halt_spec::leaving(self.blocks, self.kinds, self.n, h.rin, p) by {
                    assert(r <= self.leaving(h, p));
                }
            } else {
                assert(g.done.contains(d));
                assert forall|p: usize| #[trigger] halt_spec::enters(e, p, d) implies h.rin[d as int]
                    <= halt_spec::leaving(self.blocks, self.kinds, self.n, h.rin, p) by {
                    assert(g.done.contains(p));
                    assert(g.rin[d as int] <= halt_spec::leaving(
                        self.blocks,
                        self.kinds,
                        self.n,
                        g.rin,
                        p,
                    ));
                }
                if g.rin[d as int] != self.n {
                    let p = choose|p: usize| #[trigger]
                        halt_spec::enters(e, p, d) && g.rin[d as int] == halt_spec::leaving(
                            self.blocks,
                            self.kinds,
                            self.n,
                            g.rin,
                            p,
                        );
                    assert(g.done.contains(p));
                    assert(halt_spec::enters(e, p, d) && h.rin[d as int] == halt_spec::leaving(
                        self.blocks,
                        self.kinds,
                        self.n,
                        h.rin,
                        p,
                    ));
                }
            }
        }
        assert forall|d: usize, p: usize| #[trigger]
            h.done.contains(d) && #[trigger] halt_spec::enters(e, p, d) implies h.done.contains(p) by {
            if d != b {
                assert(g.done.contains(d));
                assert(g.done.contains(p));
            }
        }
    }

    /// Two blocks that are done have different last pieces.
    proof fn lemma_last_distinct(self, g: Progress, after: Seq<BlockView>, p: usize, q: usize)
        requires
            self.laid_out(g, after),
            g.done.contains(p),
            g.done.contains(q),
            self.last(g, p) == self.last(g, q),
        ensures
            p == q,
    {
        assert(halt_spec::stands(self.blocks, after, p, g.base[p as int], self.pieces(g, p)));
        assert(halt_spec::stands(self.blocks, after, q, g.base[q as int], self.pieces(g, q)));
        let i = self.pieces(g, p).len() - 1;
        let j = self.pieces(g, q).len() - 1;
        assert(g.owner[halt_spec::piece_id(p as int, g.base[p as int], i)] == p);
        assert(g.owner[halt_spec::piece_id(q as int, g.base[q as int], j)] == q);
    }

    /// Breaking a block down changes nothing of what has arrived: no edge starts from
    /// it yet.
    pub proof fn lemma_arrived_break(
        self,
        g: Progress,
        h: Progress,
        before: HaltStateMap,
        after: HaltStateMap,
        blocks: Seq<BlockView>,
        b: usize,
        to: usize,
    )
        requires
            self.laid_out(g, blocks),
            self.arrived(g, before),
            b < self.blocks.len(),
            !g.done.contains(b),
            h.sent == g.sent,
            h.settled == g.settled,
            h.done == g.done.insert(b),
            h.rin.len() == g.rin.len(),
            h.base.len() == g.base.len(),
            forall|p: usize| #![trigger g.done.contains(p)]
                g.done.contains(p) ==> h.rin[p as int] == g.rin[p as int] && h.base[p as int]
                    == g.base[p as int],
            forall|k: Block| #[trigger]
                after.arrivals(k) == halt_map::renamed(before.arrivals(k), b, to),
        ensures
            self.arrived(h, after),
            forall|k: Block| #[trigger] after.arrivals(k) == before.arrivals(k),
    {
        assert forall|k: Block| #[trigger] after.arrivals(k) == before.arrivals(k) by {
            assert forall|i: int| 0 <= i < before.arrivals(k).len() implies #[trigger] before.arrivals(
                k,
            )[i].from != b by {
                assert(self.accounted(g, before.arrivals(k)[i], k));
                let p = choose|p: usize| #[trigger] self.carries(g, before.arrivals(k)[i], p, k);
                assert(halt_spec::stands(
                    self.blocks,
                    blocks,
                    p,
                    g.base[p as int],
                    self.pieces(g, p),
                ));
            }
            assert(after.arrivals(k) =~= before.arrivals(k));
        }
        self.lemma_arrived_same(g, h, before, after);
    }

    /// What has arrived is the same for a later state of progress.
    proof fn lemma_arrived_same(
        self,
        g: Progress,
        h: Progress,
        before: HaltStateMap,
        after: HaltStateMap,
    )
        requires
            self.arrived(g, before),
            h.sent == g.sent,
            h.settled == g.settled,
            forall|p: usize| #[trigger] g.done.contains(p) ==> h.done.contains(p) && h.rin[p as int]
                == g.rin[p as int] && h.base[p as int] == g.base[p as int],
            forall|k: Block| #[trigger] after.arrivals(k) == before.arrivals(k),
        ensures
            self.arrived(h, after),
    {
        assert forall|k: usize| k >= self.blocks.len() || h.settled.contains(k) implies (
        #[trigger] after.arrivals(k)).len() == 0 by {
            assert(before.arrivals(k).len() == 0);
        }
        assert forall|c: usize, i: int|
            c < self.blocks.len() && !h.settled.contains(c) && 0 <= i < after.arrivals(
                c,
            ).len() implies self.accounted(
            h,
            #[trigger] after.arrivals(c)[i],
            c,
        ) by {
            assert(after.arrivals(c) == before.arrivals(c));
            assert(self.accounted(g, before.arrivals(c)[i], c));
                let p = choose|p: usize| #[trigger] self.carries(g, before.arrivals(c)[i], p, c);
            self.lemma_same_block(g, h, p);
            assert(self.carries(h, after.arrivals(c)[i], p, c));
        }
        assert forall|p: usize, c: usize|
            c < self.blocks.len() && !h.settled.contains(c) && #[trigger] h.sent.contains(
                (p, c),
            ) implies exists|i: int|
            0 <= i < after.arrivals(c).len() && self.carries(
                h,
                #[trigger] after.arrivals(c)[i],
                p,
                c,
            ) by {
            assert(g.sent.contains((p, c)));
            let i = choose|i: int|
                0 <= i < before.arrivals(c).len() && self.carries(
                    g,
                    #[trigger] before.arrivals(c)[i],
                    p,
                    c,
                );
            assert(after.arrivals(c) == before.arrivals(c));
            self.lemma_same_block(g, h, p);
            assert(self.carries(h, after.arrivals(c)[i], p, c));
        }
    }

    /// What was sent does not matter to the blocks.
    pub proof fn lemma_same_sent(self, g: Progress, h: Progress, b: usize)
        requires
            h == (Progress { sent: h.sent, ..g }),
        ensures
            self.last(h, b) == self.last(g, b),
            self.leaving(h, b) == self.leaving(g, b),
            forall|after: Seq<BlockView>| self.laid_out(g, after) ==> #[trigger] self.laid_out(
                h,
                after,
            ),
    {
        assert forall|after: Seq<BlockView>| self.laid_out(g, after) implies #[trigger] self.laid_out(
            h,
            after,
        ) by {
            assert forall|b: usize| #[trigger] h.done.contains(b) implies halt_spec::stands(
                self.blocks,
                after,
                b,
                h.base[b as int],
                self.pieces(h, b),
            ) by {
                assert(g.done.contains(b));
                self.lemma_same_block(g, h, b);
            }
            assert forall|b: usize, i: int|
                h.done.contains(b) && 0 <= i < self.pieces(h, b).len() implies h.owner[
            #[trigger] halt_spec::piece_id(b as int, h.base[b as int], i)] == b by {
                self.lemma_same_block(g, h, b);
            }
        }
    }

    /// What was sent does not matter to the countdowns.
    pub proof fn lemma_same_counts(self, g: Progress, h: Progress)
        requires
            h == (Progress { sent: h.sent, ..g }),
            self.counted(g),
        ensures
            self.counted(h),
    {
        assert forall|b: usize| #[trigger] h.done.contains(b) implies halt_spec::counts_down(
            self.blocks,
            self.kinds,
            self.n,
            h.rin,
            b,
        ) by {
            assert(g.done.contains(b));
        }
        assert forall|b: usize, p: usize| #[trigger]
            h.done.contains(b) && #[trigger] halt_spec::enters(
                ir::flow(self.blocks),
                p,
                b,
            ) implies h.done.contains(p) by {
            assert(g.done.contains(b));
        }
    }

    /// What was collected does not matter to the blocks and the countdowns.
    pub proof fn lemma_same_settled(self, g: Progress, h: Progress)
        requires
            h == (Progress { settled: h.settled, ..g }),
            self.counted(g),
        ensures
            self.counted(h),
            forall|after: Seq<BlockView>| self.laid_out(g, after) ==> #[trigger] self.laid_out(
                h,
                after,
            ),
    {
        assert forall|b: usize| #[trigger] h.done.contains(b) implies halt_spec::counts_down(
            self.blocks,
            self.kinds,
            self.n,
            h.rin,
            b,
        ) by {
            assert(g.done.contains(b));
        }
        assert forall|b: usize, p: usize| #[trigger]
            h.done.contains(b) && #[trigger] halt_spec::enters(
                ir::flow(self.blocks),
                p,
                b,
            ) implies h.done.contains(p) by {
            assert(g.done.contains(b));
        }
        assert forall|after: Seq<BlockView>| self.laid_out(g, after) implies #[trigger] self.laid_out(
            h,
            after,
        ) by {
            assert forall|b: usize| #[trigger] h.done.contains(b) implies halt_spec::stands(
                self.blocks,
                after,
                b,
                h.base[b as int],
                self.pieces(h, b),
            ) by {
                assert(g.done.contains(b));
                self.lemma_same_block(g, h, b);
            }
            assert forall|b: usize, i: int|
                h.done.contains(b) && 0 <= i < self.pieces(h, b).len() implies h.owner[
            #[trigger] halt_spec::piece_id(b as int, h.base[b as int], i)] == b by {
                self.lemma_same_block(g, h, b);
            }
        }
    }

    /// The state of the edge from `b` to `c` was sent.
    pub proof fn lemma_send(
        self,
        g: Progress,
        before: HaltStateMap,
        after: HaltStateMap,
        blocks: Seq<BlockView>,
        b: usize,
        c: usize,
        arrival: Arrival,
        at: int,
    )
        requires
            self.laid_out(g, blocks),
            self.arrived(g, before),
            g.done.contains(b),
            c < self.blocks.len(),
            !g.settled.contains(c),
            arrival.from == self.last(g, b),
            arrival.state.remaining == self.leaving(g, b),
            forall|k: Block| k != c ==> #[trigger] after.arrivals(k) == before.arrivals(k),
            if at < before.arrivals(c).len() {
                &&& halt_map::arrives(before.arrivals(c), arrival.from, at)
                &&& after.arrivals(c) == before.arrivals(c).update(at, arrival)
            } else {
                after.arrivals(c) == before.arrivals(c).push(arrival)
            },
        ensures
            self.arrived((Progress { sent: g.sent.insert((b, c)), ..g }), after),
    {
        let h = Progress { sent: g.sent.insert((b, c)), ..g };
        let old = before.arrivals(c);
        let new = after.arrivals(c);
        let place = if at < old.len() {
            at
        } else {
            old.len() as int
        };
        assert(new[place] == arrival);
        assert(self.carries(h, new[place], b, c));
        assert forall|k: usize| k >= self.blocks.len() || h.settled.contains(k) implies (
        #[trigger] after.arrivals(k)).len() == 0 by {
            assert(before.arrivals(k).len() == 0);
        }
        assert forall|d: usize, i: int|
            d < self.blocks.len() && !h.settled.contains(d) && 0 <= i < after.arrivals(
                d,
            ).len() implies self.accounted(
            h,
            #[trigger] after.arrivals(d)[i],
            d,
        ) by {
            if d == c && i == place {
                assert(self.carries(h, after.arrivals(d)[i], b, d));
            } else {
                assert(after.arrivals(d)[i] == before.arrivals(d)[i]);
                assert(self.accounted(g, before.arrivals(d)[i], d));
                let p = choose|p: usize| #[trigger] self.carries(g, before.arrivals(d)[i], p, d);
                assert(self.carries(h, after.arrivals(d)[i], p, d));
            }
        }
        assert forall|p: usize, d: usize|
            d < self.blocks.len() && !h.settled.contains(d) && #[trigger] h.sent.contains(
                (p, d),
            ) implies exists|i: int|
            0 <= i < after.arrivals(d).len() && self.carries(
                h,
                #[trigger] after.arrivals(d)[i],
                p,
                d,
            ) by {
            if p == b && d == c {
                assert(self.carries(h, after.arrivals(d)[place], p, d));
            } else {
                assert(g.sent.contains((p, d)));
                let i = choose|i: int|
                    0 <= i < before.arrivals(d).len() && self.carries(
                        g,
                        #[trigger] before.arrivals(d)[i],
                        p,
                        d,
                    );
                if d == c && i == place {
                    self.lemma_last_distinct(g, blocks, p, b);
                }
                assert(after.arrivals(d)[i] == before.arrivals(d)[i]);
                assert(self.carries(h, after.arrivals(d)[i], p, d));
            }
        }
    }

    /// The arrivals of the block `c` were collected.
    pub proof fn lemma_collect(
        self,
        g: Progress,
        before: HaltStateMap,
        after: HaltStateMap,
        c: usize,
    )
        requires
            self.arrived(g, before),
            forall|k: Block| k != c ==> #[trigger] after.arrivals(k) == before.arrivals(k),
            after.arrivals(c).len() == 0,
        ensures
            self.arrived((Progress { settled: g.settled.insert(c), ..g }), after),
    {
        let h = Progress { settled: g.settled.insert(c), ..g };
        assert forall|k: usize| k >= self.blocks.len() || h.settled.contains(k) implies (
        #[trigger] after.arrivals(k)).len() == 0 by {
            if k != c {
                assert(before.arrivals(k).len() == 0);
            }
        }
        assert forall|d: usize, i: int|
            d < self.blocks.len() && !h.settled.contains(d) && 0 <= i < after.arrivals(
                d,
            ).len() implies self.accounted(
            h,
            #[trigger] after.arrivals(d)[i],
            d,
        ) by {
            assert(after.arrivals(d) == before.arrivals(d));
            assert(self.accounted(g, before.arrivals(d)[i], d));
                let p = choose|p: usize| #[trigger] self.carries(g, before.arrivals(d)[i], p, d);
            assert(self.carries(h, after.arrivals(d)[i], p, d));
        }
        assert forall|p: usize, d: usize|
            d < self.blocks.len() && !h.settled.contains(d) && #[trigger] h.sent.contains(
                (p, d),
            ) implies exists|i: int|
            0 <= i < after.arrivals(d).len() && self.carries(
                h,
                #[trigger] after.arrivals(d)[i],
                p,
                d,
            ) by {
            assert(g.sent.contains((p, d)));
            let i = choose|i: int|
                0 <= i < before.arrivals(d).len() && self.carries(
                    g,
                    #[trigger] before.arrivals(d)[i],
                    p,
                    d,
                );
            assert(after.arrivals(d) == before.arrivals(d));
            assert(self.carries(h, after.arrivals(d)[i], p, d));
        }
    }
}

/// The blocks after the block `b` was broken into the pieces `ps`.
pub open spec fn broken(blocks: Seq<BlockView>, b: int, ps: Seq<Seq<Stmt>>) -> Seq<BlockView> {
    let n = blocks.len() as int;
    Seq::new(
        (n + ps.len() - 1) as nat,
        |x: int|
            if x == b {
                halt_spec::piece(blocks[b], b, n, ps, 0)
            } else if x < n {
                blocks[x]
            } else {
                halt_spec::piece(blocks[b], b, n, ps, x - n + 1)
            },
    )
}

} // verus!
