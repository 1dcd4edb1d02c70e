//! The pass that inserts halt checks.

use std::collections::HashMap;
use vstd::prelude::*;
use crate::ir;
use crate::ir::halt_map;
use crate::ir::halt_map::{Arrival, HaltStateMap};
use crate::ir::graph::mutually_reachable;
use crate::ir::halt_progress;
use crate::ir::halt_progress::{Progress, Task};
use crate::ir::halt_spec;
use crate::ir::halt_state;
use crate::ir::halt_state::{HaltState, IncomingStates};
use crate::ir::scc;
use crate::ir::scc::SccComponent;
use crate::ir::scc_graph;
use crate::ir::scc_graph::SccGraph;
use crate::ir::topo;
use crate::ir::{Block, BlockView, ExecIrBuilder, Stmt, StmtData, StmtKind};

verus! {

/// Splits blocks at halt checks, and keeps track of where the safepoints are.
pub struct HaltCheckInserter {
    pub ir: ExecIrBuilder,
    /// The block of each safepoint, and the place in it.
    pub safepoints: HashMap<Stmt, (Block, usize)>,
    pub map: HaltStateMap,
}

/// `places` says of every safepoint where it is, and of nothing else.
pub open spec fn located(
    blocks: Seq<BlockView>,
    kinds: Seq<StmtData>,
    places: Map<usize, (usize, usize)>,
) -> bool {
    &&& forall|b: int, i: int|
        0 <= b < blocks.len() && 0 <= i < blocks[b].stmts.len() && ir::is_safepoint(
            kinds,
            #[trigger] blocks[b].stmts[i],
        ) ==> places.contains_key(blocks[b].stmts[i]) && places[blocks[b].stmts[i]] == (
            b as usize,
            i as usize,
        )
    &&& forall|s: usize| #[trigger]
        places.contains_key(s) ==> ir::is_safepoint(kinds, s) && {
            let place = places[s];
            place.0 < blocks.len() && place.1 < blocks[place.0 as int].stmts.len()
                && blocks[place.0 as int].stmts[place.1 as int] == s
        }
}

/// Edges start from blocks.
pub open spec fn starts_below(map: HaltStateMap, n: nat) -> bool {
    forall|k: Block, i: int|
        0 <= i < map.arrivals(k).len() ==> (#[trigger] map.arrivals(k)[i]).from < n
}

/// Cutting a block keeps the blocks well formed.
pub(crate) proof fn lemma_cut_well_formed(
    blocks: Seq<BlockView>,
    kinds: Seq<StmtData>,
    b: int,
    at: int,
)
    requires
        ir::well_formed(blocks, kinds),
        0 <= b < blocks.len() < usize::MAX,
        0 <= at <= blocks[b].stmts.len(),
    ensures
        ir::well_formed(ir::cut(blocks, b, at), kinds),
{
    let after = ir::cut(blocks, b, at);
    assert forall|c: int, i: int|
        0 <= c < after.len() && 0 <= i < after[c].successors.len() implies #[trigger] after[c].successors[i]
        < after.len() by {
        if c == blocks.len() {
            assert(blocks[b].successors[i] < blocks.len());
        } else if c != b {
            assert(blocks[c].successors[i] < blocks.len());
        }
    }
    assert forall|c: int, i: int|
        0 <= c < after.len() && 0 <= i < after[c].stmts.len() implies #[trigger] after[c].stmts[i]
        < kinds.len() by {
        if c == blocks.len() {
            assert(blocks[b].stmts[at + i] < kinds.len());
        } else {
            assert(blocks[c].stmts[i] < kinds.len());
        }
    }
    assert forall|c: int, i: int, d: int, j: int|
        0 <= c < after.len() && 0 <= i < after[c].stmts.len() && 0 <= d < after.len() && 0 <= j
            < after[d].stmts.len() && ir::is_safepoint(kinds, after[c].stmts[i])
            && #[trigger] after[c].stmts[i] == #[trigger] after[d].stmts[j] implies c == d && i == j by {
        let (c0, i0) = if c == blocks.len() {
            (b, at + i)
        } else {
            (c, i)
        };
        let (d0, j0) = if d == blocks.len() {
            (b, at + j)
        } else {
            (d, j)
        };
        assert(blocks[c0].stmts[i0] == blocks[d0].stmts[j0]);
    }
}

impl HaltCheckInserter {
    pub open spec fn wf(&self) -> bool {
        &&& ir::well_formed(self.ir@, self.ir.stmts@)
        &&& located(self.ir@, self.ir.stmts@, self.safepoints@)
        &&& self.map.wf()
        &&& starts_below(self.map, self.ir@.len())
    }

    /// Takes over `ir`, and finds its safepoints.
    pub fn new(ir: ExecIrBuilder) -> (r: Self)
        requires
            ir::well_formed(ir@, ir.stmts@),
        ensures
            r.ir == ir,
            r.wf(),
            forall|to: Block| (#[trigger] r.map.arrivals(to)).len() == 0,
    {
        broadcast use vstd::std_specs::hash::group_hash_axioms;

        let mut safepoints: HashMap<Stmt, (Block, usize)> = HashMap::new();
        let total: usize = ir.blocks.len();
        let mut block: usize = 0;
        while block < total
            invariant
                block <= total == ir@.len(),
                ir::well_formed(ir@, ir.stmts@),
                forall|b: int, i: int|
                    0 <= b < block && 0 <= i < ir@[b].stmts.len() && ir::is_safepoint(
                        ir.stmts@,
                        #[trigger] ir@[b].stmts[i],
                    ) ==> safepoints@.contains_key(ir@[b].stmts[i])
                        && safepoints@[ir@[b].stmts[i]] == (b as usize, i as usize),
                forall|s: usize| #[trigger]
                    safepoints@.contains_key(s) ==> ir::is_safepoint(ir.stmts@, s) && {
                        let place = safepoints@[s];
                        place.0 < block && place.1 < ir@[place.0 as int].stmts.len()
                            && ir@[place.0 as int].stmts[place.1 as int] == s
                    },
            decreases total - block,
        {
            let stmts = &ir.blocks[block].stmts;
            let count: usize = stmts.len();
            let mut i: usize = 0;
            while i < count
                invariant
                    block < total == ir@.len(),
                    i <= count == stmts@.len(),
                    stmts@ == ir@[block as int].stmts,
                    ir::well_formed(ir@, ir.stmts@),
                    forall|b: int, j: int|
                        0 <= b <= block && 0 <= j < ir@[b].stmts.len() && (b < block || j < i)
                            && ir::is_safepoint(ir.stmts@, #[trigger] ir@[b].stmts[j])
                            ==> safepoints@.contains_key(ir@[b].stmts[j])
                            && safepoints@[ir@[b].stmts[j]] == (b as usize, j as usize),
                    forall|s: usize| #[trigger]
                        safepoints@.contains_key(s) ==> ir::is_safepoint(ir.stmts@, s) && {
                            let place = safepoints@[s];
                            place.0 <= block && place.1 < ir@[place.0 as int].stmts.len()
                                && ir@[place.0 as int].stmts[place.1 as int] == s
                        },
                decreases count - i,
            {
                let stmt: usize = stmts[i];
                assert(ir@[block as int].stmts[i as int] < ir.stmts@.len());
                match ir.stmts[stmt].rvalue {
                    StmtKind::Safepoint => {
                        let ghost before = safepoints@;
                        safepoints.insert(stmt, (block, i));
                        proof {
                            assert forall|b: int, j: int|
                                0 <= b <= block && 0 <= j < ir@[b].stmts.len() && (b < block || j < i
                                    + 1) && ir::is_safepoint(
                                    ir.stmts@,
                                    #[trigger] ir@[b].stmts[j],
                                ) implies safepoints@.contains_key(ir@[b].stmts[j])
                                && safepoints@[ir@[b].stmts[j]] == (b as usize, j as usize) by {
                                if b == block && j == i {
                                } else {
                                    assert(ir@[b].stmts[j] != ir@[block as int].stmts[i as int]);
                                }
                            }
                        }
                    },
                    StmtKind::Other => {},
                }
                i = i + 1;
            }
            block = block + 1;
        }
        let map = HaltStateMap::new();
        HaltCheckInserter { ir, safepoints, map }
    }

    /// The blocks being worked on.
    pub fn ir(&self) -> (r: &ExecIrBuilder)
        ensures
            *r == self.ir,
    {
        &self.ir
    }

    /// Puts a halt check behind the statement `stmt_index` of `block`, and returns
    /// the block that execution goes on with.
    ///
    /// The state of an edge is that after the block it starts from has run to its
    /// end, so the edges that started from `block` start from the new block then.
    pub fn insert_halt_check_after_safepoint_indexed(
        &mut self,
        block: Block,
        stmt_index: usize,
    ) -> (r: Block)
        requires
            old(self).wf(),
            block < old(self).ir@.len(),
            stmt_index < old(self).ir@[block as int].stmts.len(),
        ensures
            final(self).wf(),
            r == old(self).ir@.len(),
            final(self).ir@ == ir::cut(old(self).ir@, block as int, stmt_index + 1),
            final(self).ir.stmts@ == old(self).ir.stmts@,
            final(self).ir.halt_check_every == old(self).ir.halt_check_every,
            forall|k: Block| #[trigger]
                final(self).map.arrivals(k) == halt_map::renamed(
                    old(self).map.arrivals(k),
                    block,
                    r,
                ),
    {
        broadcast use vstd::std_specs::hash::group_hash_axioms;

        let ghost blocks0 = self.ir@;
        let ghost kinds = self.ir.stmts@;
        let ghost places0 = self.safepoints@;
        let in_block: usize = self.ir.blocks[block].stmts.len();
        let ghost at = stmt_index + 1;
        let continuation = self.ir.insert_halt_check_at(block, stmt_index + 1);
        let ghost blocks1 = self.ir@;
        let total: usize = self.ir.blocks.len();
        proof {
            assert(total == blocks1.len() == blocks0.len() + 1);
            lemma_cut_well_formed(blocks0, kinds, block as int, at);
        }
        let count: usize = self.ir.blocks[continuation].stmts.len();
        let mut i: usize = 0;
        while i < count
            invariant
                i <= count,
                blocks1 == self.ir@,
                blocks1 == ir::cut(blocks0, block as int, at),
                kinds == self.ir.stmts@,
                self.map == old(self).map,
                self.ir.halt_check_every == old(self).ir.halt_check_every,
                ir::well_formed(blocks0, kinds),
                ir::well_formed(blocks1, kinds),
                located(blocks0, kinds, places0),
                continuation == blocks0.len(),
                blocks1.len() == blocks0.len() + 1 == self.ir.blocks@.len(),
                self.ir.blocks@[continuation as int]@ == blocks1[continuation as int],
                block < blocks0.len(),
                at == stmt_index + 1 <= blocks0[block as int].stmts.len(),
                count == blocks1[continuation as int].stmts.len(),
                forall|s: usize| #[trigger]
                    self.safepoints@.contains_key(s) <==> places0.contains_key(s),
                forall|s: usize| #[trigger]
                    places0.contains_key(s) ==> self.safepoints@[s] == if places0[s].0 == block
                        && at <= places0[s].1 < at + i {
                        (continuation, (places0[s].1 - at) as usize)
                    } else {
                        places0[s]
                    },
            decreases count - i,
        {
            assert(blocks1[continuation as int].stmts[i as int] == blocks0[block as int].stmts[at
                + i]);
            assert(blocks1[continuation as int].stmts[i as int] < kinds.len());
            let stmt: usize = self.ir.blocks[continuation].stmts[i];
            match self.ir.stmts[stmt].rvalue {
                StmtKind::Safepoint => {
                    let ghost before = self.safepoints@;
                    self.safepoints.insert(stmt, (continuation, i));
                    proof {
                        assert(places0.contains_key(stmt) && places0[stmt] == (
                            block,
                            (at + i) as usize,
                        ));
                        assert forall|s: usize| #[trigger]
                            places0.contains_key(s) implies self.safepoints@[s] == if places0[s].0
                            == block && at <= places0[s].1 < at + i + 1 {
                            (continuation, (places0[s].1 - at) as usize)
                        } else {
                            places0[s]
                        } by {
                            if s != stmt {
                                assert(before.contains_key(s));
                            }
                        }
                    }
                },
                StmtKind::Other => {
                    proof {
                        assert forall|s: usize| #[trigger]
                            places0.contains_key(s) implies self.safepoints@[s] == if places0[s].0
                            == block && at <= places0[s].1 < at + i + 1 {
                            (continuation, (places0[s].1 - at) as usize)
                        } else {
                            places0[s]
                        } by {
                            if places0[s].0 == block && places0[s].1 == at + i {
                                assert(blocks0[block as int].stmts[at + i] == s);
                            }
                        }
                    }
                },
            }
            i = i + 1;
        }
        proof {
            lemma_relocated(
                blocks0,
                kinds,
                places0,
                self.safepoints@,
                block,
                at,
                continuation,
            );
            assert forall|k: Block, j: int|
                0 <= j < self.map.arrivals(k).len() implies (#[trigger] self.map.arrivals(k)[j]).from
                != continuation by {}
        }
        self.map.rename(block, continuation);
        proof {
            assert forall|k: Block, j: int|
                0 <= j < self.map.arrivals(k).len() implies (#[trigger] self.map.arrivals(k)[j]).from
                < self.ir@.len() by {
                assert(self.map.arrivals(k) == halt_map::renamed(
                    old(self).map.arrivals(k),
                    block,
                    continuation,
                ));
                assert(old(self).map.arrivals(k)[j].from < blocks0.len());
            }
        }
        continuation
    }
}

/// The safepoints are where the cut has left them.
proof fn lemma_relocated(
    blocks: Seq<BlockView>,
    kinds: Seq<StmtData>,
    before: Map<usize, (usize, usize)>,
    after: Map<usize, (usize, usize)>,
    block: Block,
    at: int,
    continuation: Block,
)
    requires
        ir::well_formed(blocks, kinds),
        located(blocks, kinds, before),
        block < blocks.len(),
        continuation == blocks.len(),
        0 <= at <= blocks[block as int].stmts.len() <= usize::MAX,
        forall|s: usize| #[trigger] after.contains_key(s) <==> before.contains_key(s),
        forall|s: usize| #[trigger]
            before.contains_key(s) ==> after[s] == if before[s].0 == block && at <= before[s].1 {
                (continuation, (before[s].1 - at) as usize)
            } else {
                before[s]
            },
    ensures
        located(ir::cut(blocks, block as int, at), kinds, after),
{
    let next = ir::cut(blocks, block as int, at);
    assert forall|b: int, i: int|
        0 <= b < next.len() && 0 <= i < next[b].stmts.len() && ir::is_safepoint(
            kinds,
            #[trigger] next[b].stmts[i],
        ) implies after.contains_key(next[b].stmts[i]) && after[next[b].stmts[i]] == (
        b as usize,
        i as usize,
    ) by {
        let (b0, i0) = if b == blocks.len() {
            (block as int, at + i)
        } else {
            (b, i)
        };
        assert(blocks[b0].stmts[i0] == next[b].stmts[i]);
        assert(before.contains_key(blocks[b0].stmts[i0]));
    }
    assert forall|s: usize| #[trigger] after.contains_key(s) implies ir::is_safepoint(kinds, s) && {
        let place = after[s];
        place.0 < next.len() && place.1 < next[place.0 as int].stmts.len()
            && next[place.0 as int].stmts[place.1 as int] == s
    } by {
        assert(before.contains_key(s));
    }
}

/// A block in one piece is whole.
proof fn lemma_whole(blocks: Seq<BlockView>, b: int)
    requires
        0 <= b < blocks.len(),
    ensures
        halt_progress::broken(blocks, b, seq![blocks[b].stmts]) == blocks,
{
    let after = halt_progress::broken(blocks, b, seq![blocks[b].stmts]);
    assert forall|x: int| 0 <= x < blocks.len() implies after[x] == blocks[x] by {}
    assert(after =~= blocks);
}

/// Breaking a block is cutting its first piece off and breaking the rest.
proof fn lemma_break_on(blocks: Seq<BlockView>, b: int, at: int, rest: Seq<Seq<Stmt>>)
    requires
        0 <= b < blocks.len(),
        0 <= at <= blocks[b].stmts.len(),
        rest.len() > 0,
    ensures
        halt_progress::broken(ir::cut(blocks, b, at), blocks.len() as int, rest) == halt_progress::broken(
            blocks,
            b,
            seq![blocks[b].stmts.take(at)] + rest,
        ),
{
    let n = blocks.len() as int;
    let ps = seq![blocks[b].stmts.take(at)] + rest;
    let one = ir::cut(blocks, b, at);
    let left = halt_progress::broken(one, n, rest);
    let right = halt_progress::broken(blocks, b, ps);
    assert(left.len() == right.len());
    assert forall|x: int| 0 <= x < left.len() implies left[x] == right[x] by {
        if x == b {
            assert(left[x] == one[b]);
        } else if x < n {
        } else if x == n {
            assert(ps[1] == rest[0]);
        } else {
            assert(ps[x - n + 1] == rest[x - n]);
        }
    }
    assert(left =~= right);
}

/// The first cut, found from the statement `i` on.
proof fn lemma_first_cut_step(
    kinds: Seq<StmtData>,
    stmts: Seq<Stmt>,
    i: int,
    remaining: nat,
    n: nat,
)
    requires
        0 <= i < stmts.len(),
        remaining > 0,
    ensures
        ({
            let rest = stmts.skip(i);
            let hit = ir::is_safepoint(kinds, stmts[i]);
            let next = if hit {
                halt_state::counted_down(remaining, n)
            } else {
                remaining
            };
            &&& halt_state::countdown_after(kinds, rest, remaining, n)
                == halt_state::countdown_after(kinds, stmts.skip(i + 1), next, n)
            &&& hit && remaining == 1 ==> halt_state::first_cut(kinds, rest, remaining) == Some(
                1nat,
            )
            &&& !(hit && remaining == 1) ==> halt_state::first_cut(kinds, rest, remaining)
                == match halt_state::first_cut(kinds, stmts.skip(i + 1), next) {
                Some(at) => Some(at + 1),
                None => None::<nat>,
            }
        }),
{
    assert(stmts.skip(i).drop_first() =~= stmts.skip(i + 1));
    assert(stmts.skip(i)[0] == stmts[i]);
}

/// The countdown that a block is broken down with, and how often a halt check is
/// due: without a state, behind every safepoint.
pub open spec fn starting_countdown(this: Option<HaltState>, halt_check_every: usize) -> (nat, nat) {
    match this {
        Some(state) => (state.remaining as nat, halt_check_every as nat),
        None => (1, 1),
    }
}

/// The history that a block is broken down with.
pub open spec fn starting_history(this: Option<HaltState>) -> Seq<usize> {
    match this {
        Some(state) => halt_state::queued(state.suffix_safepoints),
        None => Seq::empty(),
    }
}

impl HaltState {
    /// Where the next halt check is due in `block`, if one is, and the state there
    /// or at the end of the block.
    fn next_halt(
        this: Option<HaltState>,
        ir: &ExecIrBuilder,
        halt_check_every: usize,
        block: Block,
    ) -> (r: (Option<usize>, Option<HaltState>))
        requires
            ir::well_formed(ir@, ir.stmts@),
            block < ir@.len(),
            halt_check_every > 0,
            this matches Some(state) ==> state.remaining > 0,
        ensures
            r.1 is Some == this is Some,
            r.1 matches Some(state) ==> state.remaining > 0,
            ({
                let (c, n) = starting_countdown(this, halt_check_every);
                let (d, _) = starting_countdown(r.1, halt_check_every);
                let stmts = ir@[block as int].stmts;
                match r.0 {
                    Some(pos) => {
                        &&& pos < stmts.len()
                        &&& halt_state::first_cut(ir.stmts@, stmts, c) == Some((pos + 1) as nat)
                        &&& d == n
                        &&& halt_state::countdown_after(ir.stmts@, stmts, c, n)
                            == halt_state::countdown_after(
                            ir.stmts@,
                            stmts.skip(pos + 1),
                            d,
                            n,
                        )
                        &&& this is Some ==> halt_state::history_after(
                            ir.stmts@,
                            stmts,
                            c,
                            starting_history(this),
                            n,
                        ) == halt_state::history_after(
                            ir.stmts@,
                            stmts.skip(pos + 1),
                            d,
                            starting_history(r.1),
                            n,
                        )
                    },
                    None => {
                        &&& halt_state::first_cut(ir.stmts@, stmts, c) is None
                        &&& d == halt_state::countdown_after(ir.stmts@, stmts, c, n)
                        &&& this is Some ==> starting_history(r.1) == halt_state::history_after(
                            ir.stmts@,
                            stmts,
                            c,
                            starting_history(this),
                            n,
                        )
                    },
                }
            }),
    {
        let ghost kinds = ir.stmts@;
        let ghost start = this;
        let ghost (c, n) = starting_countdown(this, halt_check_every);
        let mut current = this;
        let stmts = &ir.blocks[block].stmts;
        let total: usize = stmts.len();
        let mut i: usize = 0;
        assert(stmts@.skip(0) =~= stmts@);
        while i < total
            invariant
                i <= total == stmts@.len(),
                start == this,
                ir::well_formed(ir@, ir.stmts@),
                block < ir@.len(),
                stmts@ == ir@[block as int].stmts,
                kinds == ir.stmts@,
                halt_check_every > 0,
                current is Some == start is Some,
                current matches Some(state) ==> state.remaining > 0,
                (c, n) == starting_countdown(start, halt_check_every),
                starting_countdown(current, halt_check_every).1 == n,
                halt_state::countdown_after(kinds, stmts@, c, n) == halt_state::countdown_after(
                    kinds,
                    stmts@.skip(i as int),
                    starting_countdown(current, halt_check_every).0,
                    n,
                ),
                start is Some ==> halt_state::history_after(
                    kinds,
                    stmts@,
                    c,
                    starting_history(start),
                    n,
                ) == halt_state::history_after(
                    kinds,
                    stmts@.skip(i as int),
                    starting_countdown(current, halt_check_every).0,
                    starting_history(current),
                    n,
                ),
                halt_state::first_cut(kinds, stmts@, c) == match halt_state::first_cut(
                    kinds,
                    stmts@.skip(i as int),
                    starting_countdown(current, halt_check_every).0,
                ) {
                    Some(at) => Some(at + i as nat),
                    None => None::<nat>,
                },
            decreases total - i,
        {
            let stmt: usize = stmts[i];
            assert(ir@[block as int].stmts[i as int] < kinds.len());
            proof {
                lemma_first_cut_step(
                    kinds,
                    stmts@,
                    i as int,
                    starting_countdown(current, halt_check_every).0,
                    n,
                );
                assert(stmts@.skip(i as int).drop_first() =~= stmts@.skip(i + 1));
                assert(stmts@.skip(i as int)[0] == stmt);
            }
            match ir.stmts[stmt].rvalue {
                StmtKind::Safepoint => {
                    let (should_halt, next) = match current {
                        Some(mut state) => {
                            let should_halt = state.push_safepoint(halt_check_every, stmt);
                            (should_halt.0, Some(state))
                        },
                        None => (true, None),
                    };
                    current = next;
                    if should_halt {
                        return (Some(i), current);
                    }
                },
                StmtKind::Other => {},
            }
            i = i + 1;
        }
        assert(stmts@.skip(i as int) =~= Seq::empty());
        (None, current)
    }

    /// Breaks `block` down with the countdown of `this`, or behind every safepoint
    /// where there is none. Returns the last piece, and the state at its end.
    fn break_down_block_inner(
        this: Option<HaltState>,
        inserter: &mut HaltCheckInserter,
        halt_check_every: usize,
        block: Block,
    ) -> (r: (Block, Option<HaltState>))
        requires
            old(inserter).wf(),
            block < old(inserter).ir@.len(),
            halt_check_every > 0,
            this matches Some(state) ==> state.remaining > 0,
        ensures
            final(inserter).wf(),
            final(inserter).ir.stmts@ == old(inserter).ir.stmts@,
            final(inserter).ir.halt_check_every == old(inserter).ir.halt_check_every,
            r.1 is Some == this is Some,
            r.1 matches Some(state) ==> state.remaining > 0,
            ({
                let kinds = old(inserter).ir.stmts@;
                let stmts = old(inserter).ir@[block as int].stmts;
                let (c, n) = starting_countdown(this, halt_check_every);
                let ps = halt_state::pieces(kinds, stmts, c, n);
                &&& ps.len() > 0
                &&& final(inserter).ir@ == halt_progress::broken(old(inserter).ir@, block as int, ps)
                &&& r.0 == halt_spec::piece_id(block as int, old(inserter).ir@.len() as int, ps.len() - 1)
                &&& starting_countdown(r.1, halt_check_every).0 == halt_state::countdown_after(
                    kinds,
                    stmts,
                    c,
                    n,
                )
                &&& this is Some ==> starting_history(r.1) == halt_state::history_after(
                    kinds,
                    stmts,
                    c,
                    starting_history(this),
                    n,
                )
            }),
            forall|k: Block| #[trigger]
                final(inserter).map.arrivals(k) == halt_map::renamed(
                    old(inserter).map.arrivals(k),
                    block,
                    r.0,
                ),
    {
        let ghost kinds = inserter.ir.stmts@;
        let ghost blocks0 = inserter.ir@;
        let ghost stmts0 = blocks0[block as int].stmts;
        let ghost (c, n) = starting_countdown(this, halt_check_every);
        let ghost ps0 = halt_state::pieces(kinds, stmts0, c, n);
        let ghost last0 = halt_spec::piece_id(block as int, blocks0.len() as int, ps0.len() - 1);
        let ghost after0 = halt_state::history_after(
            kinds,
            stmts0,
            c,
            starting_history(this),
            n,
        );
        let mut current = this;
        let mut block = block;
        let ghost block0 = block;
        let mut running: bool = true;
        proof {
            assert forall|k: Block| #[trigger]
                inserter.map.arrivals(k) == halt_map::renamed(
                    old(inserter).map.arrivals(k),
                    block0,
                    block,
                ) by {
                assert(inserter.map.arrivals(k) =~= halt_map::renamed(
                    old(inserter).map.arrivals(k),
                    block0,
                    block,
                ));
            }
        }
        while running
            invariant
                current is Some == this is Some,
                inserter.wf(),
                old(inserter).wf(),
                kinds == inserter.ir.stmts@,
                inserter.ir.halt_check_every == old(inserter).ir.halt_check_every,
                blocks0 == old(inserter).ir@,
                blocks0.len() <= inserter.ir@.len(),
                block < inserter.ir@.len(),
                block == block0 || block >= blocks0.len(),
                block0 < blocks0.len(),
                halt_check_every > 0,
                current matches Some(state) ==> state.remaining > 0,
                starting_countdown(current, halt_check_every).1 == n,
                running ==> {
                    let d = starting_countdown(current, halt_check_every).0;
                    let stmts = inserter.ir@[block as int].stmts;
                    let ps = halt_state::pieces(kinds, stmts, d, n);
                    &&& halt_progress::broken(inserter.ir@, block as int, ps) == halt_progress::broken(
                        blocks0,
                        block0 as int,
                        ps0,
                    )
                    &&& halt_spec::piece_id(block as int, inserter.ir@.len() as int, ps.len() - 1) == last0
                    &&& halt_state::countdown_after(kinds, stmts, d, n)
                        == halt_state::countdown_after(kinds, stmts0, c, n)
                    &&& this is Some ==> halt_state::history_after(
                        kinds,
                        stmts,
                        d,
                        starting_history(current),
                        n,
                    ) == after0
                    &&& ps.len() > 0 && ps0.len() > 0
                },
                !running ==> {
                    &&& inserter.ir@ == halt_progress::broken(blocks0, block0 as int, ps0)
                    &&& block == last0
                    &&& starting_countdown(current, halt_check_every).0
                        == halt_state::countdown_after(kinds, stmts0, c, n)
                    &&& this is Some ==> starting_history(current) == after0
                    &&& ps0.len() > 0
                },
                forall|k: Block| #[trigger]
                    inserter.map.arrivals(k) == halt_map::renamed(
                        old(inserter).map.arrivals(k),
                        block0,
                        block,
                    ),
            decreases
                    inserter.ir@[block as int].stmts.len() + (if running {
                        1int
                    } else {
                        0int
                    }),
        {
            let ghost blocks1 = inserter.ir@;
            let ghost map1 = inserter.map;
            let ghost block1 = block;
            let ghost d = starting_countdown(current, halt_check_every).0;
            let ghost stmts = blocks1[block as int].stmts;
            let ghost ps = halt_state::pieces(kinds, stmts, d, n);
            let (split, next) = Self::next_halt(current, inserter.ir(), halt_check_every, block);
            current = next;
            match split {
                None => {
                    running = false;
                    proof {
                        assert(ps =~= seq![stmts]);
                        lemma_whole(blocks1, block as int);
                    }
                },
                Some(pos) => {
                    let ghost rest = halt_state::pieces(kinds, stmts.skip(pos + 1), n, n);
                    block = inserter.insert_halt_check_after_safepoint_indexed(block, pos);
                    let total: usize = inserter.ir.blocks.len();
                    proof {
                        lemma_pieces_nonempty(kinds, stmts.skip(pos + 1), n, n);
                        assert(ps == seq![stmts.take(pos + 1)] + rest);
                        assert(total == inserter.ir@.len());
                        lemma_break_on(blocks1, block1 as int, pos + 1, rest);
                        assert(inserter.ir@[block as int].stmts == stmts.skip(pos + 1));
                        assert forall|k: Block| #[trigger]
                            inserter.map.arrivals(k) == halt_map::renamed(
                                old(inserter).map.arrivals(k),
                                block0,
                                block,
                            ) by {
                            assert(map1.arrivals(k) == halt_map::renamed(
                                old(inserter).map.arrivals(k),
                                block0,
                                block1,
                            ));
                            lemma_renamed_twice(
                                old(inserter).map.arrivals(k),
                                block0,
                                block1,
                                block,
                                blocks0.len(),
                            );
                        }
                    }
                },
            }
        }
        (block, current)
    }
}

/// Renaming twice is renaming once, where the name in between is new.
proof fn lemma_renamed_twice(arrivals: Seq<Arrival>, from: Block, mid: Block, to: Block, n: nat)
    requires
        forall|i: int| 0 <= i < arrivals.len() ==> (#[trigger] arrivals[i]).from < n,
        mid == from || mid >= n,
    ensures
        halt_map::renamed(halt_map::renamed(arrivals, from, mid), mid, to) == halt_map::renamed(
            arrivals,
            from,
            to,
        ),
{
    let left = halt_map::renamed(halt_map::renamed(arrivals, from, mid), mid, to);
    let right = halt_map::renamed(arrivals, from, to);
    assert forall|i: int| 0 <= i < arrivals.len() implies left[i] == right[i] by {
        assert(arrivals[i].from < n);
    }
    assert(left =~= right);
}

proof fn lemma_pieces_nonempty(kinds: Seq<StmtData>, stmts: Seq<Stmt>, remaining: nat, n: nat)
    ensures
        halt_state::pieces(kinds, stmts, remaining, n).len() > 0,
{
}

impl HaltState {
    /// Breaks `block` down with this countdown. Returns the last piece, and the state
    /// at its end.
    pub fn break_down_block(
        self,
        inserter: &mut HaltCheckInserter,
        halt_check_every: usize,
        block: Block,
    ) -> (r: (Block, HaltState))
        requires
            old(inserter).wf(),
            block < old(inserter).ir@.len(),
            halt_check_every > 0,
            self.remaining > 0,
        ensures
            final(inserter).wf(),
            final(inserter).ir.stmts@ == old(inserter).ir.stmts@,
            final(inserter).ir.halt_check_every == old(inserter).ir.halt_check_every,
            r.1.remaining > 0,
            ({
                let kinds = old(inserter).ir.stmts@;
                let stmts = old(inserter).ir@[block as int].stmts;
                let ps = halt_state::pieces(
                    kinds,
                    stmts,
                    self.remaining as nat,
                    halt_check_every as nat,
                );
                &&& ps.len() > 0
                &&& final(inserter).ir@ == halt_progress::broken(
                    old(inserter).ir@,
                    block as int,
                    ps,
                )
                &&& r.0 == halt_spec::piece_id(
                    block as int,
                    old(inserter).ir@.len() as int,
                    ps.len() - 1,
                )
                &&& r.1.remaining == halt_state::countdown_after(
                    kinds,
                    stmts,
                    self.remaining as nat,
                    halt_check_every as nat,
                )
                &&& halt_state::queued(r.1.suffix_safepoints) == halt_state::history_after(
                    kinds,
                    stmts,
                    self.remaining as nat,
                    halt_state::queued(self.suffix_safepoints),
                    halt_check_every as nat,
                )
            }),
            forall|k: Block| #[trigger]
                final(inserter).map.arrivals(k) == halt_map::renamed(
                    old(inserter).map.arrivals(k),
                    block,
                    r.0,
                ),
    {
        let (last_block, state) = Self::break_down_block_inner(
            Some(self),
            inserter,
            halt_check_every,
            block,
        );
        (last_block, state.unwrap())
    }

    /// Puts a halt check behind every safepoint of `block`, and returns its last
    /// piece.
    ///
    /// In a cyclic component the countdown does not matter: once every cycle holds a
    /// safepoint, halt checks behind all of them leave no cycle without one.
    pub fn force_halt_checks_after_safepoints(
        inserter: &mut HaltCheckInserter,
        block: Block,
    ) -> (r: Block)
        requires
            old(inserter).wf(),
            block < old(inserter).ir@.len(),
        ensures
            final(inserter).wf(),
            final(inserter).ir.stmts@ == old(inserter).ir.stmts@,
            final(inserter).ir.halt_check_every == old(inserter).ir.halt_check_every,
            ({
                let kinds = old(inserter).ir.stmts@;
                let stmts = old(inserter).ir@[block as int].stmts;
                let ps = halt_state::pieces(kinds, stmts, 1, 1);
                &&& ps.len() > 0
                &&& final(inserter).ir@ == halt_progress::broken(
                    old(inserter).ir@,
                    block as int,
                    ps,
                )
                &&& r == halt_spec::piece_id(
                    block as int,
                    old(inserter).ir@.len() as int,
                    ps.len() - 1,
                )
            }),
            forall|k: Block| #[trigger]
                final(inserter).map.arrivals(k) == halt_map::renamed(
                    old(inserter).map.arrivals(k),
                    block,
                    r,
                ),
    {
        let (last_block, _) = Self::break_down_block_inner(None, inserter, 1, block);
        last_block
    }
}

/// What holds between two components: the components up to the `t`-th are done.
pub open spec fn between(
    task: Task,
    graph: SccGraph,
    g: Progress,
    inserter: HaltCheckInserter,
    t: int,
) -> bool {
    let e = ir::flow(task.blocks);
    &&& inserter.wf()
    &&& inserter.ir.stmts@ == task.kinds
    &&& task.laid_out(g, inserter.ir@)
    &&& task.counted(g)
    &&& task.arrived(g, inserter.map)
    &&& forall|b: usize| #[trigger]
        g.done.contains(b) <==> b < task.blocks.len() && graph.topo_order@.take(t).contains(
            graph.component_of.at(b)->0,
        )
    &&& forall|b: usize| #[trigger] g.settled.contains(b) <==> g.done.contains(b)
    &&& forall|p: usize, c: usize|
        c < task.blocks.len() && !g.settled.contains(c) ==> (#[trigger] g.sent.contains((p, c))
            <==> g.done.contains(p) && e(p, c))
}

/// The task is one that the pass can do.
pub open spec fn sensible(task: Task, graph: SccGraph) -> bool {
    &&& ir::well_formed(task.blocks, task.kinds)
    &&& graph.condenses(task.blocks)
    &&& task.n > 0
}

/// The states that wait at the blocks of a component.
pub open spec fn collects(
    task: Task,
    g: Progress,
    members: Seq<usize>,
    states: Seq<HaltState>,
) -> bool {
    &&& forall|k: int|
        0 <= k < states.len() ==> comes_from(task, g, members, (#[trigger] states[k]).remaining)
    &&& forall|p: usize, c: usize|
        members.contains(c) && #[trigger] g.sent.contains((p, c)) ==> exists|k: int|
            0 <= k < states.len() && (#[trigger] states[k]).remaining == task.leaving(g, p)
}

/// The countdown is one that was sent to a block of the component.
pub open spec fn comes_from(
    task: Task,
    g: Progress,
    members: Seq<usize>,
    remaining: usize,
) -> bool {
    exists|p: usize, c: usize|
        members.contains(c) && #[trigger] g.sent.contains((p, c)) && g.done.contains(p) && remaining
            == task.leaving(g, p)
}

/// Collects the states that wait at the blocks of a component.
fn collect_incoming(
    inserter: &mut HaltCheckInserter,
    component: &Vec<Block>,
    Ghost(task): Ghost<Task>,
    Ghost(g): Ghost<Progress>,
) -> (r: IncomingStates)
    requires
        old(inserter).wf(),
        task.arrived(g, old(inserter).map),
        component@.no_duplicates(),
        forall|i: int|
            0 <= i < component@.len() ==> #[trigger] component@[i] < task.blocks.len()
                && !g.settled.contains(component@[i]),
    ensures
        final(inserter).wf(),
        final(inserter).ir == old(inserter).ir,
        task.arrived(
            (Progress { settled: g.settled.union(component@.to_set()), ..g }),
            final(inserter).map,
        ),
        collects(task, g, component@, halt_state::arriving(r)),
{
    let mut states = IncomingStates::new();
    let total: usize = component.len();
    let mut i: usize = 0;
    let ghost map0 = inserter.map;
    let ghost mut h = g;
    proof {
        assert(component@.take(0).to_set() =~= Set::empty());
        assert(g.settled.union(component@.take(0).to_set()) =~= g.settled);
    }
    while i < total
        invariant
            i <= total == component@.len(),
            inserter.wf(),
            inserter.ir == old(inserter).ir,
            component@.no_duplicates(),
            forall|j: int|
                0 <= j < component@.len() ==> #[trigger] component@[j] < task.blocks.len()
                    && !g.settled.contains(component@[j]),
            h == (Progress { settled: g.settled.union(component@.take(i as int).to_set()), ..g }),
            task.arrived(h, inserter.map),
            collects(task, g, component@.take(i as int), halt_state::arriving(states)),
        decreases total - i,
    {
        let block: usize = component[i];
        let ghost map1 = inserter.map;
        let ghost states1 = halt_state::arriving(states);
        let ghost done = component@.take(i as int);
        proof {
            assert(component@.take(i + 1) =~= done.push(block));
            assert(!done.contains(block)) by {
                if done.contains(block) {
                    let j = done.index_of(block);
                    assert(component@[j] == component@[i as int]);
                }
            }
            assert(!h.settled.contains(block)) by {
                assert(!g.settled.contains(component@[i as int]));
            }
        }
        let mut drained = inserter.map.drain_incoming(block);
        let ghost all = drained@;
        proof {
            assert forall|k: Block, j: int|
                0 <= j < inserter.map.arrivals(k).len() implies (#[trigger] inserter.map.arrivals(
                k,
            )[j]).from < inserter.ir@.len() by {
                if k != block {
                    assert(inserter.map.arrivals(k) == map1.arrivals(k));
                }
            }
            task.lemma_collect(h, map1, inserter.map, block);
            assert(drained@.take(drained@.len() as int) =~= drained@);
        }
        while drained.len() > 0
            invariant
                inserter.wf(),
                inserter.ir == old(inserter).ir,
                drained@.len() <= all.len(),
                drained@ == all.take(drained@.len() as int),
                halt_state::arriving(states).len() == states1.len() + (all.len() - drained@.len()),
                forall|k: int| 0 <= k < states1.len() ==> #[trigger] halt_state::arriving(states)[k] == states1[k],
                forall|k: int|
                    states1.len() <= k < halt_state::arriving(states).len() ==> #[trigger] halt_state::arriving(states)[k] == all[all.len() - 1
                        - (k - states1.len())].1,
            decreases drained@.len(),
        {
            let ghost before = halt_state::arriving(states);
            let (_, state) = drained.pop().unwrap();
            states.push(state);
            proof {
                assert(drained@ =~= all.take(drained@.len() as int));
            }
        }
        proof {
            let arrivals = map1.arrivals(block);
            let next = component@.take(i + 1);
            assert(next.contains(block)) by {
                assert(next[i as int] == block);
            }
            assert forall|k: int| 0 <= k < halt_state::arriving(states).len() implies comes_from(
                task,
                g,
                next,
                (#[trigger] halt_state::arriving(states)[k]).remaining,
            ) by {
                if k < states1.len() {
                    assert(comes_from(task, g, done, states1[k].remaining));
                    let (p, c) = choose|p: usize, c: usize|
                        done.contains(c) && #[trigger] g.sent.contains((p, c)) && g.done.contains(p)
                            && states1[k].remaining == task.leaving(g, p);
                    assert(next.contains(c)) by {
                        assert(next[done.index_of(c)] == c);
                    }
                    assert(g.sent.contains((p, c)));
                } else {
                    let x = all.len() - 1 - (k - states1.len());
                    let y = arrivals.len() - 1 - x;
                    assert(halt_state::arriving(states)[k] == arrivals[y].state);
                    assert(task.accounted(h, map1.arrivals(block)[y], block));
                    let p = choose|p: usize| #[trigger] task.carries(h, arrivals[y], p, block);
                    assert(g.sent.contains((p, block)));
                }
            }
            assert forall|p: usize, c: usize|
                next.contains(c) && #[trigger] g.sent.contains((p, c)) implies exists|k: int|
                0 <= k < halt_state::arriving(states).len() && (#[trigger] halt_state::arriving(states)[k]).remaining == task.leaving(
                    g,
                    p,
                ) by {
                if c == block {
                    assert(h.sent.contains((p, c)));
                    let y = choose|y: int|
                        0 <= y < map1.arrivals(c).len() && task.carries(
                            h,
                            #[trigger] map1.arrivals(c)[y],
                            p,
                            c,
                        );
                    let x = arrivals.len() - 1 - y;
                    let k = states1.len() + (all.len() - 1 - x);
                    assert(halt_state::arriving(states)[k] == all[all.len() - 1 - (k - states1.len())].1);
                    assert(halt_state::arriving(states)[k].remaining == task.leaving(g, p));
                } else {
                    let j = next.index_of(c);
                    assert(done[j] == c);
                    assert(done.contains(c));
                    let k = choose|k: int|
                        0 <= k < states1.len() && (#[trigger] states1[k]).remaining == task.leaving(
                            g,
                            p,
                        );
                    assert(halt_state::arriving(states)[k].remaining == task.leaving(g, p));
                }
            }
            let settled = g.settled.union(done.to_set()).insert(block);
            assert(g.settled.union(next.to_set()) =~= settled) by {
                assert forall|x: usize| next.contains(x) <==> done.contains(x) || x == block by {
                    if next.contains(x) {
                        let j = next.index_of(x);
                        if j < i {
                            assert(done[j] == x);
                        }
                    }
                    if done.contains(x) {
                        assert(next[done.index_of(x)] == x);
                    }
                }
            }
            h = Progress { settled, ..g };
        }
        i = i + 1;
    }
    proof {
        assert(component@.take(i as int) =~= component@);
    }
    states
}

/// `h` is `g` with the edges that leave the component of `b` from `b` sent.
pub open spec fn sent_on(
    task: Task,
    graph: SccGraph,
    g: Progress,
    h: Progress,
    b: usize,
) -> bool {
    &&& h == (Progress { sent: h.sent, ..g })
    &&& forall|p: usize, c: usize| #[trigger]
        h.sent.contains((p, c)) <==> g.sent.contains((p, c)) || (p == b && ir::flow(task.blocks)(
            b,
            c,
        ) && graph.component_of.at(c) != graph.component_of.at(b))
}

/// Sends `state` along the edges that leave the component of the block `b`, whose
/// last piece is `last_block`.
fn send_on(
    inserter: &mut HaltCheckInserter,
    graph: &SccGraph,
    component_id: SccComponent,
    last_block: Block,
    state: &HaltState,
    Ghost(task): Ghost<Task>,
    Ghost(g): Ghost<Progress>,
    Ghost(b): Ghost<usize>,
) -> (r: Ghost<Progress>)
    requires
        old(inserter).wf(),
        sensible(task, *graph),
        task.laid_out(g, old(inserter).ir@),
        task.arrived(g, old(inserter).map),
        g.done.contains(b),
        b < task.blocks.len(),
        graph.component_of.at(b) == Some(component_id),
        last_block == task.last(g, b),
        state.remaining == task.leaving(g, b),
        forall|c: usize| #[trigger]
            ir::flow(task.blocks)(b, c) && graph.component_of.at(c) != graph.component_of.at(b)
                ==> !g.settled.contains(c),
    ensures
        final(inserter).wf(),
        final(inserter).ir == old(inserter).ir,
        sent_on(task, *graph, g, r@, b),
        task.arrived(r@, final(inserter).map),
{
    let ghost e = ir::flow(task.blocks);
    let ghost mut h = g;
    proof {
        assert(halt_spec::stands(
            task.blocks,
            inserter.ir@,
            b,
            g.base[b as int],
            task.pieces(g, b),
        ));
        let k = task.pieces(g, b).len() - 1;
        assert(inserter.ir@[halt_spec::piece_id(b as int, g.base[b as int], k)]
            == halt_spec::piece(
            task.blocks[b as int],
            b as int,
            g.base[b as int],
            task.pieces(g, b),
            k,
        ));
    }
    let total: usize = inserter.ir().successors(last_block).len();
    let ghost succs = task.blocks[b as int].successors;
    let mut i: usize = 0;
    while i < total
        invariant
            i <= total == succs.len(),
            inserter.wf(),
            inserter.ir == old(inserter).ir,
            sensible(task, *graph),
            e == ir::flow(task.blocks),
            b < task.blocks.len(),
            succs == task.blocks[b as int].successors,
            last_block < inserter.ir@.len(),
            inserter.ir@[last_block as int].successors == succs,
            graph.component_of.at(b) == Some(component_id),
            last_block == task.last(g, b),
            state.remaining == task.leaving(g, b),
            g.done.contains(b),
            task.laid_out(g, inserter.ir@),
            forall|c: usize| #[trigger]
                e(b, c) && graph.component_of.at(c) != graph.component_of.at(b)
                    ==> !g.settled.contains(c),
            h == (Progress { sent: h.sent, ..g }),
            task.arrived(h, inserter.map),
            forall|p: usize, c: usize| #[trigger]
                h.sent.contains((p, c)) <==> g.sent.contains((p, c)) || (p == b && succs.take(
                    i as int,
                ).contains(c) && graph.component_of.at(c) != graph.component_of.at(b)),
        decreases total - i,
    {
        let succ: usize = inserter.ir().successors(last_block)[i];
        let ghost h0 = h;
        proof {
            assert(succs[i as int] == succ);
            assert(succs.contains(succ));
            assert(e(b, succ));
            assert(task.blocks[b as int].successors[i as int] < task.blocks.len());
            graph.lemma_has_component(task.blocks, succ);
            assert(succs.take(i + 1) =~= succs.take(i as int).push(succ));
            assert forall|c: usize| #[trigger]
                succs.take(i + 1).contains(c) <==> succs.take(i as int).contains(c) || c == succ by {
                let a = succs.take(i as int);
                if a.contains(c) {
                    assert(succs.take(i + 1)[a.index_of(c)] == c);
                }
                if c == succ {
                    assert(succs.take(i + 1)[i as int] == c);
                }
                if succs.take(i + 1).contains(c) {
                    let j = succs.take(i + 1).index_of(c);
                    if j < i {
                        assert(a[j] == c);
                    }
                }
            }
        }
        let succ_component: usize = *graph.component_of.expect(succ);
        if succ_component != component_id {
            let ghost map0 = inserter.map;
            let fresh = state.duplicate();
            let ghost arrival = Arrival { from: last_block, state: fresh };
            let old_state = inserter.map.add_edge(last_block, succ, fresh);
            proof {
                let at = if old_state is Some {
                    choose|j: int| #[trigger]
                        halt_map::arrives(map0.arrivals(succ), last_block, j)
                            && inserter.map.arrivals(succ) == map0.arrivals(succ).update(j, arrival)
                } else {
                    map0.arrivals(succ).len() as int
                };
                task.lemma_same_sent(g, h0, b);
                task.lemma_send(h0, map0, inserter.map, inserter.ir@, b, succ, arrival, at);
                h = Progress { sent: h0.sent.insert((b, succ)), ..h0 };
                assert forall|k: Block, j: int|
                    0 <= j < inserter.map.arrivals(k).len() implies (
                #[trigger] inserter.map.arrivals(k)[j]).from < inserter.ir@.len() by {
                    if k != succ {
                        assert(inserter.map.arrivals(k) == map0.arrivals(k));
                    } else if old_state is Some {
                        if j != at {
                            assert(map0.arrivals(k)[j].from < inserter.ir@.len());
                        }
                    } else if j < map0.arrivals(k).len() {
                        assert(map0.arrivals(k)[j].from < inserter.ir@.len());
                    }
                }
            }
        }
        proof {
            assert forall|p: usize, c: usize| #[trigger]
                h.sent.contains((p, c)) <==> g.sent.contains((p, c)) || (p == b && succs.take(
                    i + 1,
                ).contains(c) && graph.component_of.at(c) != graph.component_of.at(b)) by {
                assert(h0.sent.contains((p, c)) <==> g.sent.contains((p, c)) || (p == b
                    && succs.take(i as int).contains(c) && graph.component_of.at(c)
                    != graph.component_of.at(b)));
            }
        }
        i = i + 1;
    }
    proof {
        assert(succs.take(i as int) =~= succs);
    }
    Ghost(h)
}

/// `members` are the blocks of the component at the place `t` of the order.
pub open spec fn is_next(task: Task, graph: SccGraph, members: Seq<usize>, t: int) -> bool {
    &&& 0 <= t < graph.topo_order@.len()
    &&& members == graph.components@[graph.topo_order@[t] as int]@
}

/// What is known of the blocks of the next component.
proof fn lemma_members(
    task: Task,
    graph: SccGraph,
    g: Progress,
    inserter: HaltCheckInserter,
    members: Seq<usize>,
    t: int,
)
    requires
        sensible(task, graph),
        between(task, graph, g, inserter, t),
        is_next(task, graph, members, t),
    ensures
        members.no_duplicates(),
        forall|b: usize| #[trigger]
            members.contains(b) <==> b < task.blocks.len() && graph.component_of.at(b) == Some(
                graph.topo_order@[t],
            ),
        forall|b: usize| #[trigger]
            members.contains(b) ==> b < task.blocks.len() && !g.done.contains(b)
                && !g.settled.contains(b),
        members.len() > 0,
        // Edges from the component lead to blocks that are not done, or back to it.
        forall|b: usize, c: usize| #[trigger]
            ir::flow(task.blocks)(b, c) && members.contains(b) ==> c < task.blocks.len()
                && !g.done.contains(c),
        // Edges into the component come from it, or from blocks that are done.
        forall|p: usize, c: usize| #[trigger]
            ir::flow(task.blocks)(p, c) && members.contains(c) ==> g.done.contains(p)
                || members.contains(p),
{
    reveal(SccGraph::condenses);
    let e = ir::flow(task.blocks);
    let cid = graph.topo_order@[t];
    let comps = scc::component_blocks(graph.components@);
    let ok = |b: usize| b < task.blocks.len();
    assert(comps[cid as int] == members);
    assert(members.no_duplicates()) by {
        assert forall|x: int, y: int|
            0 <= x < members.len() && 0 <= y < members.len() && x != y implies members[x]
            != members[y] by {
            assert(comps[cid as int][x] != comps[cid as int][y]);
        }
    }
    assert forall|b: usize| #[trigger] members.contains(b) <==> b < task.blocks.len()
        && graph.component_of.at(b) == Some(cid) by {
        if members.contains(b) {
            let i = members.index_of(b);
            assert(ok(comps[cid as int][i]));
            assert(graph.component_of.at(b) is Some);
            let d = graph.component_of.at(b)->0;
            assert(comps[d as int].contains(b));
            let j = comps[d as int].index_of(b);
            assert(comps[d as int][j] == comps[cid as int][i]);
        }
        if b < task.blocks.len() && graph.component_of.at(b) == Some(cid) {
            assert(comps[graph.component_of.at(b)->0 as int].contains(b));
        }
    }
    let earlier = graph.topo_order@.take(t);
    assert(!earlier.contains(cid)) by {
        if earlier.contains(cid) {
            let i = earlier.index_of(cid);
            assert(graph.topo_order@[i] == graph.topo_order@[t]);
        }
    }
    assert forall|b: usize| #[trigger] members.contains(b) implies b < task.blocks.len()
        && !g.done.contains(b) && !g.settled.contains(b) by {
        assert(graph.component_of.at(b) == Some(cid));
    }
    assert forall|b: usize, c: usize| #[trigger] e(b, c) && members.contains(b) implies c
        < task.blocks.len() && !g.done.contains(c) by {
        scc_graph::lemma_flow_range(task.blocks, task.kinds, b, c);
        if g.done.contains(c) {
            let d = graph.component_of.at(c)->0;
            assert(graph.component_of.at(c) is Some);
            let j = earlier.index_of(d);
            assert(graph.topo_order@[j] == d);
            assert(e(b, c));
            let i = graph.topo_order@.take(j).index_of(cid);
            assert(graph.topo_order@[i] == graph.topo_order@[t]);
        }
    }
    assert forall|p: usize, c: usize| #[trigger] e(p, c) && members.contains(c) implies g.done.contains(
        p,
    ) || members.contains(p) by {
        scc_graph::lemma_flow_range(task.blocks, task.kinds, p, c);
        assert(graph.component_of.at(p) is Some);
        if graph.component_of.at(p) != graph.component_of.at(c) {
            assert(graph.component_of.at(c) == Some(graph.topo_order@[t]));
            assert(graph.topo_order@.take(t).contains(graph.component_of.at(p)->0));
        }
    }
}

/// Control enters the component with the countdown `r`.
pub open spec fn entered_with(task: Task, g: Progress, members: Seq<usize>, r: nat) -> bool {
    let e = ir::flow(task.blocks);
    &&& 1 <= r <= task.n
    &&& forall|b: usize, p: usize| #[trigger]
        halt_spec::enters(e, p, b) && members.contains(b) ==> g.done.contains(p) && r
            <= task.leaving(g, p)
    &&& forall|b: usize| #[trigger]
        members.contains(b) ==> r == task.n || exists|p: usize| #[trigger]
            halt_spec::enters(e, p, b) && g.done.contains(p) && r == task.leaving(g, p)
}

proof fn lemma_entered(
    task: Task,
    graph: SccGraph,
    g: Progress,
    inserter: HaltCheckInserter,
    members: Seq<usize>,
    t: int,
    states: Seq<HaltState>,
    r: nat,
)
    requires
        sensible(task, graph),
        between(task, graph, g, inserter, t),
        is_next(task, graph, members, t),
        collects(task, g, members, states),
        states.len() == 0 ==> r == task.n,
        states.len() > 0 ==> exists|i: int|
            0 <= i < states.len() && r == (#[trigger] states[i]).remaining,
        forall|i: int| 0 <= i < states.len() ==> r <= (#[trigger] states[i]).remaining,
    ensures
        entered_with(task, g, members, r),
{
    let e = ir::flow(task.blocks);
    lemma_members(task, graph, g, inserter, members, t);
    if states.len() > 0 {
        let i = choose|i: int| 0 <= i < states.len() && r == (#[trigger] states[i]).remaining;
        assert(comes_from(task, g, members, states[i].remaining));
        let (p, c) = choose|p: usize, c: usize|
            members.contains(c) && #[trigger] g.sent.contains((p, c)) && g.done.contains(p)
                && states[i].remaining == task.leaving(g, p);
        assert(halt_spec::counts_down(task.blocks, task.kinds, task.n, g.rin, p));
        task.lemma_leaving_range(g, p);
        assert(e(p, c));
        assert forall|b: usize| #[trigger] members.contains(b) implies exists|q: usize| #[trigger]
            halt_spec::enters(e, q, b) && g.done.contains(q) && r == task.leaving(g, q) by {
            graph.components_are_right(task.blocks, task.kinds, c, b);
            graph.components_are_right(task.blocks, task.kinds, p, b);
            assert(!members.contains(p));
            assert(e(p, c) && mutually_reachable(e, c, b));
            assert(halt_spec::enters(e, p, b));
        }
    }
    assert forall|b: usize, p: usize| #[trigger]
        halt_spec::enters(e, p, b) && members.contains(b) implies g.done.contains(p) && r
        <= task.leaving(g, p) by {
        let c = choose|c: usize| #[trigger] e(p, c) && mutually_reachable(e, c, b);
        scc_graph::lemma_flow_range(task.blocks, task.kinds, p, c);
        graph.components_are_right(task.blocks, task.kinds, c, b);
        graph.components_are_right(task.blocks, task.kinds, p, b);
        assert(members.contains(c));
        assert(!members.contains(p));
        assert(g.done.contains(p));
        assert(g.sent.contains((p, c)));
        let k = choose|k: int|
            0 <= k < states.len() && (#[trigger] states[k]).remaining == task.leaving(g, p);
        assert(r <= states[k].remaining);
    }
}

/// `h` is `g` with the first `i` blocks of the component done and sent on.
pub open spec fn partly_done(
    task: Task,
    graph: SccGraph,
    g: Progress,
    h: Progress,
    members: Seq<usize>,
    i: int,
) -> bool {
    let e = ir::flow(task.blocks);
    &&& forall|b: usize| #[trigger]
        h.done.contains(b) <==> g.done.contains(b) || members.take(i).contains(b)
    &&& h.settled == g.settled.union(members.to_set())
    &&& forall|p: usize| #[trigger]
        g.done.contains(p) ==> h.rin[p as int] == g.rin[p as int] && h.base[p as int]
            == g.base[p as int]
    &&& forall|p: usize, c: usize| #[trigger]
        h.sent.contains((p, c)) <==> g.sent.contains((p, c)) || (members.take(i).contains(p) && e(
            p,
            c,
        ) && graph.component_of.at(c) != graph.component_of.at(p))
}

/// One more block of the component was broken down.
#[verifier::spinoff_prover]
proof fn lemma_broken_down(
    task: Task,
    graph: SccGraph,
    g: Progress,
    h: Progress,
    inserter0: HaltCheckInserter,
    before: HaltCheckInserter,
    after: HaltCheckInserter,
    members: Seq<usize>,
    t: int,
    i: int,
    r: nat,
    ps: Seq<Seq<Stmt>>,
    last: usize,
) -> (k: Progress)
    requires
        sensible(task, graph),
        between(task, graph, g, inserter0, t),
        is_next(task, graph, members, t),
        entered_with(task, g, members, r),
        partly_done(task, graph, g, h, members, i),
        0 <= i < members.len(),
        task.laid_out(h, before.ir@),
        task.counted(h),
        task.arrived(h, before.map),
        ps.len() > 0,
        after.ir@ == halt_progress::broken(before.ir@, members[i] as int, ps),
        ps == if graph.is_cyclic.has(graph.topo_order@[t]) {
            halt_state::pieces(task.kinds, task.blocks[members[i] as int].stmts, 1, 1)
        } else {
            halt_state::pieces(task.kinds, task.blocks[members[i] as int].stmts, r, task.n)
        },
        last == halt_spec::piece_id(members[i] as int, before.ir@.len() as int, ps.len() - 1),
        forall|c: Block| #[trigger]
            after.map.arrivals(c) == halt_map::renamed(before.map.arrivals(c), members[i], last),
    ensures
        task.laid_out(k, after.ir@),
        task.counted(k),
        task.arrived(k, after.map),
        k == halt_progress::after_break(
            h,
            members[i],
            r,
            before.ir@.len(),
            (ps.len() - 1) as nat,
        ),
        last == task.last(k, members[i]),
        task.leaving(k, members[i]) == if graph.is_cyclic.has(graph.topo_order@[t]) {
            r
        } else {
            halt_state::countdown_after(
                task.kinds,
                task.blocks[members[i] as int].stmts,
                r,
                task.n,
            )
        },
        k.done.contains(members[i]),
{
    let e = ir::flow(task.blocks);
    let b = members[i];
    lemma_members(task, graph, g, inserter0, members, t);
    assert(members.contains(b));
    graph.components_are_right(task.blocks, task.kinds, b, b);
    assert(!h.done.contains(b)) by {
        if members.take(i).contains(b) {
            let j = members.take(i).index_of(b);
            assert(members[j] == members[i]);
        }
    }
    let k = halt_progress::after_break(h, b, r, before.ir@.len(), (ps.len() - 1) as nat);
    assert(k.rin[b as int] == r);
    task.lemma_break(h, before.ir@, after.ir@, b, r, ps);
    assert forall|p: usize| #[trigger] halt_spec::enters(e, p, b) implies k.done.contains(p) && p
        != b && r <= task.leaving(k, p) by {
        assert(members.contains(b));
        assert(g.done.contains(p));
        assert(h.done.contains(p));
        assert(p != b);
        assert(task.leaving(k, p) == task.leaving(g, p));
    }
    if r != task.n {
        let p = choose|p: usize| #[trigger]
            halt_spec::enters(e, p, b) && g.done.contains(p) && r == task.leaving(g, p);
        assert(h.done.contains(p) && p != b);
        assert(halt_spec::enters(e, p, b) && r == task.leaving(k, p));
    }
    task.lemma_count(h, k, b, r);
    task.lemma_arrived_break(h, k, before.map, after.map, before.ir@, b, last);
    k
}

/// A block that was broken down has been sent on.
proof fn lemma_sent_on(
    task: Task,
    graph: SccGraph,
    g: Progress,
    h: Progress,
    k: Progress,
    m: Progress,
    members: Seq<usize>,
    i: int,
    r: nat,
    len: nat,
    count: nat,
)
    requires
        partly_done(task, graph, g, h, members, i),
        0 <= i < members.len(),
        members.no_duplicates(),
        h.rin.len() == task.blocks.len(),
        h.base.len() == task.blocks.len(),
        members[i] < task.blocks.len(),
        forall|b: usize| #[trigger] members.contains(b) ==> !g.done.contains(b),
        forall|b: usize| #[trigger] h.done.contains(b) ==> b < task.blocks.len(),
        k == halt_progress::after_break(h, members[i], r, len, count),
        sent_on(task, graph, k, m, members[i]),
    ensures
        partly_done(task, graph, g, m, members, i + 1),
{
    let e = ir::flow(task.blocks);
    let b = members[i];
    let old_part = members.take(i);
    let new_part = members.take(i + 1);
    assert(members.contains(b));
    assert forall|x: usize| #[trigger] new_part.contains(x) <==> old_part.contains(x) || x == b by {
        if old_part.contains(x) {
            assert(new_part[old_part.index_of(x)] == x);
        }
        if x == b {
            assert(new_part[i] == x);
        }
        if new_part.contains(x) {
            let j = new_part.index_of(x);
            if j < i {
                assert(old_part[j] == x);
            }
        }
    }
    assert forall|p: usize| #[trigger] g.done.contains(p) implies m.rin[p as int] == g.rin[p as int]
        && m.base[p as int] == g.base[p as int] by {
        assert(h.done.contains(p));
        assert(p != b);
    }
    assert forall|p: usize, c: usize| #[trigger]
        m.sent.contains((p, c)) <==> g.sent.contains((p, c)) || (new_part.contains(p) && e(p, c)
            && graph.component_of.at(c) != graph.component_of.at(p)) by {
        assert(k.sent.contains((p, c)) <==> h.sent.contains((p, c)));
    }
}

/// All blocks of the component are done.
proof fn lemma_component_done(
    task: Task,
    graph: SccGraph,
    g: Progress,
    h: Progress,
    inserter0: HaltCheckInserter,
    after: HaltCheckInserter,
    members: Seq<usize>,
    t: int,
)
    requires
        sensible(task, graph),
        between(task, graph, g, inserter0, t),
        is_next(task, graph, members, t),
        partly_done(task, graph, g, h, members, members.len() as int),
        after.wf(),
        after.ir.stmts@ == task.kinds,
        task.laid_out(h, after.ir@),
        task.counted(h),
        task.arrived(h, after.map),
    ensures
        between(task, graph, h, after, t + 1),
{
    let e = ir::flow(task.blocks);
    let cid = graph.topo_order@[t];
    lemma_members(task, graph, g, inserter0, members, t);
    assert(members.take(members.len() as int) =~= members);
    let earlier = graph.topo_order@.take(t);
    let upto = graph.topo_order@.take(t + 1);
    assert forall|x: usize| #[trigger] upto.contains(x) <==> earlier.contains(x) || x == cid by {
        if earlier.contains(x) {
            assert(upto[earlier.index_of(x)] == x);
        }
        if x == cid {
            assert(upto[t] == x);
        }
        if upto.contains(x) {
            let j = upto.index_of(x);
            if j < t {
                assert(earlier[j] == x);
            }
        }
    }
    assert forall|b: usize| #[trigger] h.done.contains(b) <==> b < task.blocks.len()
        && upto.contains(graph.component_of.at(b)->0) by {
        assert(g.done.contains(b) <==> b < task.blocks.len() && earlier.contains(
            graph.component_of.at(b)->0,
        ));
        if b < task.blocks.len() {
            graph.lemma_has_component(task.blocks, b);
        }
    }
    assert forall|b: usize| #[trigger] h.settled.contains(b) <==> h.done.contains(b) by {
        assert(g.settled.contains(b) <==> g.done.contains(b));
    }
    assert forall|p: usize, c: usize| c < task.blocks.len() && !h.settled.contains(c) implies (
    #[trigger] h.sent.contains((p, c)) <==> h.done.contains(p) && e(p, c)) by {
        assert(!g.settled.contains(c));
        assert(!members.contains(c));
        assert(g.sent.contains((p, c)) <==> g.done.contains(p) && e(p, c));
    }
}

/// Breaks the blocks of the next component down.
fn process_component(
    inserter: &mut HaltCheckInserter,
    graph: &SccGraph,
    halt_check_every: usize,
    t: usize,
    Ghost(task): Ghost<Task>,
    Ghost(g): Ghost<Progress>,
) -> (r: Ghost<Progress>)
    requires
        sensible(task, *graph),
        task.n == halt_check_every,
        between(task, *graph, g, *old(inserter), t as int),
        t < graph.topo_order@.len(),
    ensures
        between(task, *graph, r@, *final(inserter), t + 1),
        final(inserter).ir.halt_check_every == old(inserter).ir.halt_check_every,
{
    let component_id: usize = graph.topo_order[t];
    proof {
        reveal(SccGraph::condenses);
        assert(graph.topo_order@[t as int] < scc::component_blocks(graph.components@).len());
    }
    let component = &graph.components[component_id];
    let ghost members = component@;
    let ghost inserter0 = *inserter;
    proof {
        lemma_members(task, *graph, g, inserter0, members, t as int);
        assert forall|i: int| 0 <= i < members.len() implies #[trigger] members[i]
            < task.blocks.len() && !g.settled.contains(members[i]) by {
            assert(members.contains(members[i]));
        }
    }
    let incoming = collect_incoming(inserter, component, Ghost(task), Ghost(g));
    let ghost states = halt_state::arriving(incoming);
    let state = HaltState::merge_halt_states(halt_check_every, incoming.as_slice());
    let ghost r = state.remaining as nat;
    let ghost mut h = Progress { settled: g.settled.union(members.to_set()), ..g };
    proof {
        lemma_entered(task, *graph, g, inserter0, members, t as int, states, r);
        assert(members.take(0) =~= Seq::empty());
        task.lemma_same_settled(g, h);
        assert(partly_done(task, *graph, g, h, members, 0));
    }
    let total: usize = component.len();
    if graph.component_is_cyclic(component_id) {
        // Every safepoint of the component gets a halt check, so the countdown does
        // not matter inside. A path through it may pass no safepoint, so that
        // control leaves with the countdown that it entered with.
        let exit_state = HaltState::from_remaining(state.remaining);
        let mut i: usize = 0;
        while i < total
            invariant
                i <= total == members.len(),
                members == component@,
                graph.topo_order@[t as int] == component_id,
                is_next(task, *graph, members, t as int),
                graph.is_cyclic.has(component_id),
                sensible(task, *graph),
                between(task, *graph, g, inserter0, t as int),
                entered_with(task, g, members, r),
                exit_state.remaining == r,
                partly_done(task, *graph, g, h, members, i as int),
                inserter.wf(),
                inserter.ir.stmts@ == task.kinds,
                inserter.ir.halt_check_every == old(inserter).ir.halt_check_every,
                task.laid_out(h, inserter.ir@),
                task.counted(h),
                task.arrived(h, inserter.map),
            decreases total - i,
        {
            let block: usize = component[i];
            let ghost before = *inserter;
            let ghost h0 = h;
            proof {
                lemma_members(task, *graph, g, inserter0, members, t as int);
                assert(members.contains(block));
                lemma_not_yet(task, *graph, g, h0, members, i as int);
            }
            let last_block = HaltState::force_halt_checks_after_safepoints(inserter, block);
            let ghost ps = halt_state::pieces(
                task.kinds,
                task.blocks[block as int].stmts,
                1,
                1,
            );
            let ghost k = lemma_broken_down(
                task,
                *graph,
                g,
                h0,
                inserter0,
                before,
                *inserter,
                members,
                t as int,
                i as int,
                r,
                ps,
                last_block,
            );
            let sent = send_on(
                inserter,
                graph,
                component_id,
                last_block,
                &exit_state,
                Ghost(task),
                Ghost(k),
                Ghost(block),
            );
            proof {
                h = sent@;
                lemma_sent_on(
                    task,
                    *graph,
                    g,
                    h0,
                    k,
                    h,
                    members,
                    i as int,
                    r,
                    before.ir@.len(),
                    (ps.len() - 1) as nat,
                );
                task.lemma_same_sent(k, h, block);
                task.lemma_same_counts(k, h);
            }
            i = i + 1;
        }
    } else {
        proof {
            lemma_acyclic(task, *graph, members, t as int);
        }
        let block: usize = component[0];
        let ghost before = *inserter;
        let ghost h0 = h;
        proof {
            assert(members.contains(block));
            lemma_not_yet(task, *graph, g, h0, members, 0);
        }
        let (last_block, exit_state) = state.break_down_block(inserter, halt_check_every, block);
        let ghost ps = halt_state::pieces(
            task.kinds,
            task.blocks[block as int].stmts,
            r,
            task.n,
        );
        let ghost k = lemma_broken_down(
            task,
            *graph,
            g,
            h0,
            inserter0,
            before,
            *inserter,
            members,
            t as int,
            0,
            r,
            ps,
            last_block,
        );
        let sent = send_on(
            inserter,
            graph,
            component_id,
            last_block,
            &exit_state,
            Ghost(task),
            Ghost(k),
            Ghost(block),
        );
        proof {
            h = sent@;
            lemma_sent_on(
                task,
                *graph,
                g,
                h0,
                k,
                h,
                members,
                0,
                r,
                before.ir@.len(),
                (ps.len() - 1) as nat,
            );
            task.lemma_same_sent(k, h, block);
            task.lemma_same_counts(k, h);
        }
    }
    proof {
        lemma_component_done(task, *graph, g, h, inserter0, *inserter, members, t as int);
    }
    Ghost(h)
}

/// The next block of the component is not done, and as it was.
proof fn lemma_not_yet(
    task: Task,
    graph: SccGraph,
    g: Progress,
    h: Progress,
    members: Seq<usize>,
    i: int,
)
    requires
        partly_done(task, graph, g, h, members, i),
        0 <= i < members.len(),
        members.no_duplicates(),
        forall|b: usize| #[trigger] members.contains(b) ==> !g.done.contains(b),
    ensures
        !h.done.contains(members[i]),
{
    assert(members.contains(members[i]));
    if members.take(i).contains(members[i]) {
        let j = members.take(i).index_of(members[i]);
        assert(members[j] == members[i]);
    }
}

/// A component that is not cyclic has one block.
proof fn lemma_acyclic(task: Task, graph: SccGraph, members: Seq<usize>, t: int)
    requires
        sensible(task, graph),
        is_next(task, graph, members, t),
        !graph.is_cyclic.has(graph.topo_order@[t]),
        members.len() > 0,
    ensures
        members.len() == 1,
{
    reveal(SccGraph::condenses);
    let comps = scc::component_blocks(graph.components@);
    let cid = graph.topo_order@[t];
    assert(comps[cid as int] == members);
    assert(!scc_graph::is_cyclic_component(ir::flow(task.blocks), comps[cid as int]));
}

/// How many safepoints may lie between two halt checks: the number asked for, as far
/// as the host can count.
pub open spec fn safepoint_limit(halt_check_every: u64) -> nat {
    if halt_check_every <= usize::MAX {
        halt_check_every as nat
    } else {
        usize::MAX as nat
    }
}

/// Once all components are done, all halt checks are in.
proof fn lemma_finished(
    task: Task,
    graph: SccGraph,
    g: Progress,
    inserter: HaltCheckInserter,
    t: int,
)
    requires
        sensible(task, graph),
        between(task, graph, g, inserter, t),
        t == graph.topo_order@.len(),
    ensures
        halt_spec::checks_inserted(task.blocks, inserter.ir@, task.kinds, task.n),
{
    reveal(SccGraph::condenses);
    let order = graph.topo_order@;
    assert(order.take(t) =~= order);
    assert forall|b: usize| b < task.blocks.len() implies g.done.contains(b) by {
        let c = graph.component_of.at(b)->0;
        assert(graph.component_of.at(b) is Some);
        topo::lemma_permutation(order, c);
    }
    assert forall|b: usize| b < task.blocks.len() implies #[trigger] halt_spec::counts_down(
        task.blocks,
        task.kinds,
        task.n,
        g.rin,
        b,
    ) by {
        assert(g.done.contains(b));
    }
    assert(halt_spec::are_countdowns(task.blocks, task.kinds, task.n, g.rin));
    assert forall|b: usize| b < task.blocks.len() implies #[trigger] halt_spec::stands(
        task.blocks,
        inserter.ir@,
        b,
        g.base[b as int],
        halt_spec::block_pieces(task.blocks, task.kinds, task.n, g.rin, b),
    ) by {
        assert(g.done.contains(b));
        assert(halt_spec::stands(
            task.blocks,
            inserter.ir@,
            b,
            g.base[b as int],
            task.pieces(g, b),
        ));
    }
    assert forall|x: int| 0 <= x < inserter.ir@.len() implies #[trigger] halt_spec::is_piece_of(
        task.blocks,
        task.kinds,
        task.n,
        g.rin,
        g.base,
        x,
        g.owner[x],
    ) by {
        if x < task.blocks.len() {
            assert(g.owner[x] == x);
        } else {
            assert(g.done.contains(g.owner[x]));
        }
    }
    assert(halt_spec::is_broken_down(
        task.blocks,
        inserter.ir@,
        task.kinds,
        task.n,
        g.rin,
        g.base,
        g.owner,
    ));
}

/// Inserts halt checks often enough that execution cannot run on without giving the
/// runtime a chance to stop it.
///
/// Every directed cycle must pass a safepoint.
pub fn insert_halt_checks(ir: &mut ExecIrBuilder)
    requires
        old(ir).wf(),
        scc_graph::cycles_pass_safepoints(old(ir)@, old(ir).stmts@),
    ensures
        final(ir).wf(),
        final(ir).stmts@ == old(ir).stmts@,
        final(ir).halt_check_every == old(ir).halt_check_every,
        halt_spec::checks_inserted(
            old(ir)@,
            final(ir)@,
            old(ir).stmts@,
            safepoint_limit(old(ir).halt_check_every),
        ),
{
    let halt_check_every: usize = if ir.halt_check_every > usize::MAX as u64 {
        usize::MAX
    } else {
        ir.halt_check_every as usize
    };
    let scc_graph = SccGraph::new(ir);
    let ghost task = Task { blocks: ir@, kinds: ir.stmts@, n: halt_check_every as nat };
    let mut owned = ExecIrBuilder {
        blocks: Vec::new(),
        stmts: Vec::new(),
        halt_check_every: ir.halt_check_every,
    };
    core::mem::swap(ir, &mut owned);
    let total: usize = owned.blocks.len();
    let mut inserter = HaltCheckInserter::new(owned);
    let ghost mut g = Progress {
        rin: Seq::new(total as nat, |i: int| 1nat),
        base: Seq::new(total as nat, |i: int| 0int),
        owner: Seq::new(total as nat, |i: int| i as usize),
        done: Set::empty(),
        sent: Set::empty(),
        settled: Set::empty(),
    };
    proof {
        assert(scc_graph.topo_order@.take(0) =~= Seq::empty());
        assert(between(task, scc_graph, g, inserter, 0));
    }
    let mut t: usize = 0;
    while t < scc_graph.topo_order.len()
        invariant
            t <= scc_graph.topo_order@.len(),
            sensible(task, scc_graph),
            task.n == halt_check_every,
            between(task, scc_graph, g, inserter, t as int),
            inserter.ir.halt_check_every == old(ir).halt_check_every,
        decreases scc_graph.topo_order@.len() - t,
    {
        let next = process_component(
            &mut inserter,
            &scc_graph,
            halt_check_every,
            t,
            Ghost(task),
            Ghost(g),
        );
        proof {
            g = next@;
        }
        t = t + 1;
    }
    proof {
        lemma_finished(task, scc_graph, g, inserter, t as int);
    }
    *ir = inserter.ir;
}

} // verus!
