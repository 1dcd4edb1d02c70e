//! What the steps of the insertion of halt checks do, each on its own.

use vstd::prelude::*;
use crate::ir;
use crate::ir::arena::ArenaSet;
use crate::ir::graph;
use crate::ir::halt_check_pass::HaltCheckInserter;
use crate::ir::halt_laws;
use crate::ir::halt_map;
use crate::ir::halt_map::{Arrival, HaltStateMap};
use crate::ir::halt_progress;
use crate::ir::halt_spec;
use crate::ir::halt_state;
use crate::ir::halt_state::{queued, HaltState, ShouldHalt};
use crate::ir::insertion_laws;
use crate::ir::insertion_laws::{is_walk, lies_on_cycle, passed, safepoints_in};
use crate::ir::scc;
use crate::ir::scc::Tarjan;
use crate::ir::scc_graph;
use crate::ir::scc_graph::SccGraph;
use crate::ir::topo;
use crate::ir::{Block, ExecIrBuilder, Stmt, StmtData};

verus! {

/// A halt check is due behind the safepoint that uses the countdown up, and behind no other.
/// The countdown and the history then start anew; otherwise the countdown goes down by one and
/// the history grows by the safepoint, without its oldest one where it gets too long.
pub proof fn last_countdown_halts(
    before: HaltState,
    after: HaltState,
    halt_check_every: usize,
    safepoint: Stmt,
    r: ShouldHalt,
)
    requires
        before.remaining > 0,
        halt_check_every > 0,
        exists|state: &mut HaltState|
            *state == before && *final(state) == after && #[trigger] call_ensures(
                HaltState::push_safepoint,
                (state, halt_check_every, safepoint),
                r,
            ),
    ensures
        r.0 <==> before.remaining == 1,
        if r.0 {
            after.remaining == halt_check_every && queued(after.suffix_safepoints).len() == 0
        } else {
            let was = queued(before.suffix_safepoints);
            &&& after.remaining == before.remaining - 1
            &&& queued(after.suffix_safepoints) == if was.len() < halt_check_every {
                was.push(safepoint)
            } else {
                was.push(safepoint).drop_first()
            }
        },
{
}

/// With a full countdown, a halt check is due behind the last of `halt_check_every` safepoints,
/// and behind none before it.
pub proof fn halt_is_due_behind_the_last_allowed_safepoint(
    states: Seq<HaltState>,
    results: Seq<ShouldHalt>,
    safepoints: Seq<Stmt>,
    halt_check_every: usize,
    k: int,
)
    requires
        halt_check_every > 0,
        states.len() == halt_check_every + 1,
        results.len() == halt_check_every,
        safepoints.len() == halt_check_every,
        states[0].remaining == halt_check_every,
        forall|i: int|
            0 <= i < halt_check_every ==> (#[trigger] states[i]).remaining > 0 && exists|
                state: &mut HaltState,
            |
                *state == states[i] && *final(state) == states[i + 1] && #[trigger] call_ensures(
                    HaltState::push_safepoint,
                    (state, halt_check_every, safepoints[i]),
                    results[i],
                ),
        0 <= k < halt_check_every,
    ensures
        results[k].0 <==> k == halt_check_every - 1,
        states[k].remaining == halt_check_every - k,
    decreases k,
{
    if k > 0 {
        halt_is_due_behind_the_last_allowed_safepoint(
            states,
            results,
            safepoints,
            halt_check_every,
            k - 1,
        );
        last_countdown_halts(
            states[k - 1],
            states[k - 1 + 1],
            halt_check_every,
            safepoints[k - 1],
            results[k - 1],
        );
    }
    last_countdown_halts(
        states[k],
        states[k + 1],
        halt_check_every,
        safepoints[k],
        results[k],
    );
}

/// Where paths meet, the lowest countdown goes on, or the full one where none arrives. The
/// history goes on where one path arrives.
pub proof fn lowest_countdown_goes_on(
    halt_check_every: usize,
    incoming: &[HaltState],
    r: HaltState,
)
    requires
        call_ensures(HaltState::merge_halt_states, (halt_check_every, incoming), r),
    ensures
        incoming@.len() == 0 ==> r.remaining == halt_check_every,
        forall|i: int|
            0 <= i < incoming@.len() ==> r.remaining <= (#[trigger] incoming@[i]).remaining,
        incoming@.len() > 0 ==> exists|i: int|
            0 <= i < incoming@.len() && (#[trigger] incoming@[i]).remaining == r.remaining,
        queued(r.suffix_safepoints).len() > 0 ==> incoming@.len() == 1,
        incoming@.len() == 1 ==> queued(r.suffix_safepoints) == queued(
            incoming@[0].suffix_safepoints,
        ),
{
    if incoming@.len() > 0 {
        let i = choose|i: int|
            0 <= i < incoming@.len() && r.remaining == (#[trigger] incoming@[i]).remaining;
        assert(incoming@[i].remaining == r.remaining);
    }
}

/// A block that is cut keeps its first `at` statements, and ends in a halt check behind which
/// only the new block follows. The new block has the other statements and ends as the block
/// did. Nothing else changes.
pub proof fn cuts_split_one_block(
    before: ExecIrBuilder,
    after: ExecIrBuilder,
    block: Block,
    at: usize,
    r: Block,
)
    requires
        block < before.blocks@.len(),
        at <= before.blocks@[block as int].stmts@.len(),
        exists|ir: &mut ExecIrBuilder|
            *ir == before && *final(ir) == after && #[trigger] call_ensures(
                ExecIrBuilder::insert_halt_check_at,
                (ir, block, at),
                r,
            ),
    ensures
        r == before.blocks@.len(),
        after.blocks@.len() == before.blocks@.len() + 1,
        after.stmts@ == before.stmts@,
        after.halt_check_every == before.halt_check_every,
        ({
            let old = before.blocks@[block as int];
            let first = after.blocks@[block as int];
            let rest = after.blocks@[r as int];
            &&& first.stmts@ + rest.stmts@ == old.stmts@
            &&& first.stmts@.len() == at
            &&& first.halt_check
            &&& first.successors@ == seq![r]
            &&& rest.halt_check == old.halt_check
            &&& rest.successors@ == old.successors@
        }),
        forall|b: int|
            0 <= b < before.blocks@.len() && b != block ==> (#[trigger] after.blocks@[b])@
                == before.blocks@[b]@,
{
    let old = before@[block as int];
    assert(after@.len() == after.blocks@.len());
    assert(after@[block as int] == after.blocks@[block as int]@);
    assert(after@[r as int] == after.blocks@[r as int]@);
    assert(old.stmts.take(at as int) + old.stmts.skip(at as int) =~= old.stmts);
    assert(r == before.blocks@.len());
    assert forall|b: int| 0 <= b < before.blocks@.len() && b != block implies (
    #[trigger] after.blocks@[b])@ == before.blocks@[b]@ by {
        assert(after@[b] == before@[b]);
    }
}

/// The blocks `ids` of `after`, one behind the other, are the block `b` of `before`, cut behind
/// `first` safepoints at first and behind every `every` then. No other block has changed, and
/// there is no other new block.
pub open spec fn is_cut_up(
    before: ExecIrBuilder,
    after: ExecIrBuilder,
    b: usize,
    ids: Seq<usize>,
    first: nat,
    every: nat,
) -> bool {
    let kinds = before.stmts@;
    &&& ids.len() > 0
    &&& ids[0] == b
    &&& after.blocks@.len() == before.blocks@.len() + ids.len() - 1
    &&& forall|i: int| 0 < i < ids.len() ==> #[trigger] ids[i] == before.blocks@.len() + i - 1
    &&& forall|x: int|
        0 <= x < before.blocks@.len() && x != b ==> (#[trigger] after.blocks@[x])@
            == before.blocks@[x]@
    &&& forall|i: int|
        0 <= i < ids.len() - 1 ==> {
            let piece = after.blocks@[#[trigger] ids[i] as int];
            &&& piece.successors@ == seq![ids[i + 1]]
            &&& piece.halt_check
            &&& piece.stmts@.len() > 0
            &&& piece.stmts@.last() < kinds.len()
            &&& kinds[piece.stmts@.last() as int].rvalue is Safepoint
            &&& safepoints_in(kinds, piece.stmts@) == if i == 0 {
                first
            } else {
                every
            }
        }
    &&& after.blocks@[ids.last() as int].successors@ == before.blocks@[b as int].successors@
    &&& after.blocks@[ids.last() as int].halt_check == before.blocks@[b as int].halt_check
    &&& safepoints_in(kinds, after.blocks@[ids.last() as int].stmts@) < if ids.len() == 1 {
        first
    } else {
        every
    }
    &&& halt_laws::joined(
        Seq::new(ids.len(), |i: int| after.blocks@[ids[i] as int].stmts@),
    ) == before.blocks@[b as int].stmts@
}

proof fn lemma_cut_up(
    before: ExecIrBuilder,
    after: ExecIrBuilder,
    b: usize,
    first: nat,
    every: nat,
) -> (ids: Seq<usize>)
    requires
        b < before.blocks@.len(),
        first > 0,
        every > 0,
        after@ == halt_progress::broken(
            before@,
            b as int,
            halt_state::pieces(before.stmts@, before@[b as int].stmts, first, every),
        ),
    ensures
        is_cut_up(before, after, b, ids, first, every),
        ids.len() == halt_state::pieces(before.stmts@, before@[b as int].stmts, first, every).len(),
        ids.last() == halt_spec::piece_id(
            b as int,
            before.blocks@.len() as int,
            ids.len() - 1,
        ),
        halt_state::countdown_after(before.stmts@, before@[b as int].stmts, first, every) == (
        if ids.len() == 1 {
            first
        } else {
            every
        }) - safepoints_in(before.stmts@, after.blocks@[ids.last() as int].stmts@),
{
    let kinds = before.stmts@;
    let stmts = before@[b as int].stmts;
    let n = before.blocks@.len() as int;
    let ps = halt_state::pieces(kinds, stmts, first, every);
    let ids = Seq::new(ps.len(), |i: int| halt_spec::piece_id(b as int, n, i) as usize);
    assert(ps.len() > 0);
    assert(before.blocks@.len() == before.blocks.len() && after.blocks@.len()
        == after.blocks.len());
    assert(after@.len() == n + ps.len() - 1);
    halt_laws::pieces_make_up_the_block(kinds, stmts, first, every);
    assert forall|i: int| 0 <= i < ids.len() implies #[trigger] ids[i] == halt_spec::piece_id(
        b as int,
        n,
        i,
    ) && after.blocks@[ids[i] as int]@ == halt_spec::piece(before@[b as int], b as int, n, ps, i)
        && after.blocks@[ids[i] as int].stmts@ == ps[i] by {
        let id = halt_spec::piece_id(b as int, n, i);
        assert(0 <= id < after@.len());
        assert(after@[id] == after.blocks@[id]@);
    }
    let texts = Seq::new(ids.len(), |i: int| after.blocks@[ids[i] as int].stmts@);
    assert(texts =~= ps) by {
        assert forall|i: int| 0 <= i < ids.len() implies texts[i] == ps[i] by {
            assert(ids[i] == halt_spec::piece_id(b as int, n, i));
        }
    }
    assert forall|x: int| 0 <= x < n && x != b implies (#[trigger] after.blocks@[x])@
        == before.blocks@[x]@ by {
        assert(after@[x] == before@[x]);
    }
    assert forall|i: int| 0 <= i < ids.len() - 1 implies {
        let piece = after.blocks@[#[trigger] ids[i] as int];
        &&& piece.successors@ == seq![ids[i + 1]]
        &&& piece.halt_check
        &&& piece.stmts@.len() > 0
        &&& piece.stmts@.last() < kinds.len()
        &&& kinds[piece.stmts@.last() as int].rvalue is Safepoint
        &&& safepoints_in(kinds, piece.stmts@) == if i == 0 {
            first
        } else {
            every
        }
    } by {
        halt_laws::lemma_piece_counts(kinds, stmts, first, every, i);
        insertion_laws::lemma_safepoints(kinds, ps[i]);
        assert(ids[i + 1] == halt_spec::piece_id(b as int, n, i + 1));
        assert(after.blocks@[ids[i] as int]@.successors == seq![ids[i + 1]]);
    }
    let last = ids.len() - 1;
    halt_laws::lemma_piece_counts(kinds, stmts, first, every, last);
    insertion_laws::lemma_safepoints(kinds, ps[last]);
    assert(ids[last] == halt_spec::piece_id(b as int, n, last));
    assert(after.blocks@[ids[last] as int]@.successors == before@[b as int].successors);
    ids
}

/// A block that is broken down gets a halt check behind the safepoint that uses the countdown
/// up, and behind every `halt_check_every` safepoints from there on. The last piece is
/// returned, with what is left of the countdown at its end, and the edges of the block start from
/// it.
pub proof fn blocks_are_broken_down_by_countdown(
    state: HaltState,
    before: HaltCheckInserter,
    after: HaltCheckInserter,
    halt_check_every: usize,
    block: Block,
    r: (Block, HaltState),
    k: Block,
)
    requires
        before.wf(),
        block < before.ir.blocks@.len(),
        halt_check_every > 0,
        state.remaining > 0,
        exists|inserter: &mut HaltCheckInserter|
            *inserter == before && *final(inserter) == after && #[trigger] call_ensures(
                HaltState::break_down_block,
                (state, inserter, halt_check_every, block),
                r,
            ),
    ensures
        after.wf(),
        after.ir.stmts@ == before.ir.stmts@,
        after.ir.halt_check_every == before.ir.halt_check_every,
        are_renamed(before.map.arrivals(k), after.map.arrivals(k), block, r.0),
        exists|ids: Seq<usize>| #[trigger]
            is_cut_up(
                before.ir,
                after.ir,
                block,
                ids,
                state.remaining as nat,
                halt_check_every as nat,
            ) && r.0 == ids.last() && r.1.remaining == (if ids.len() == 1 {
                state.remaining
            } else {
                halt_check_every
            }) - safepoints_in(before.ir.stmts@, after.ir.blocks@[r.0 as int].stmts@),
{
    let ids = lemma_cut_up(
        before.ir,
        after.ir,
        block,
        state.remaining as nat,
        halt_check_every as nat,
    );
    assert(after.map.arrivals(k) == halt_map::renamed(before.map.arrivals(k), block, r.0));
}

/// Where halt checks are forced, one stands behind every safepoint of the block, and behind
/// nothing else. The last piece, which has no safepoint, is returned, and the edges of the block
/// start from it.
pub proof fn forced_checks_follow_every_safepoint(
    before: HaltCheckInserter,
    after: HaltCheckInserter,
    block: Block,
    r: Block,
    k: Block,
)
    requires
        before.wf(),
        block < before.ir.blocks@.len(),
        exists|inserter: &mut HaltCheckInserter|
            *inserter == before && *final(inserter) == after && #[trigger] call_ensures(
                HaltState::force_halt_checks_after_safepoints,
                (inserter, block),
                r,
            ),
    ensures
        after.wf(),
        after.ir.stmts@ == before.ir.stmts@,
        after.ir.halt_check_every == before.ir.halt_check_every,
        are_renamed(before.map.arrivals(k), after.map.arrivals(k), block, r),
        exists|ids: Seq<usize>| #[trigger]
            is_cut_up(before.ir, after.ir, block, ids, 1, 1) && r == ids.last(),
        safepoints_in(before.ir.stmts@, after.ir.blocks@[r as int].stmts@) == 0,
{
    let ids = lemma_cut_up(before.ir, after.ir, block, 1, 1);
    assert(after.map.arrivals(k) == halt_map::renamed(before.map.arrivals(k), block, r));
}

/// A function is found to have a safepoint on every cycle exactly if every walk through it that
/// comes back passes one.
pub proof fn unsafe_cycles_are_found(ir: ExecIrBuilder, r: bool)
    requires
        ir.wf(),
        call_ensures(scc_graph::cycles_have_safepoints, (&ir,), r),
    ensures
        r <==> forall|p: Seq<usize>| #[trigger]
            is_walk(ir, p) && p.len() > 1 && p[0] == p.last() ==> passed(ir, p) > 0,
{
    if r {
        assert forall|p: Seq<usize>| #[trigger]
            is_walk(ir, p) && p.len() > 1 && p[0] == p.last() implies passed(ir, p) > 0 by {
            insertion_laws::lemma_walk(ir, p);
            assert(graph::is_cycle(ir::flow(ir@), p));
            let i = choose|i: int|
                0 <= i < p.len() && scc_graph::has_safepoint(
                    ir@[#[trigger] p[i] as int],
                    ir.stmts@,
                );
            lemma_passes_some(ir, p, i);
        }
    }
    if forall|p: Seq<usize>| #[trigger]
        is_walk(ir, p) && p.len() > 1 && p[0] == p.last() ==> passed(ir, p) > 0 {
        assert forall|p: Seq<usize>| #[trigger]
            graph::is_cycle(ir::flow(ir@), p) implies exists|i: int|
            0 <= i < p.len() && scc_graph::has_safepoint(
                ir@[#[trigger] p[i] as int],
                ir.stmts@,
            ) by {
            assert(graph::is_step(ir::flow(ir@), p, 0));
            insertion_laws::lemma_path(ir, p);
            insertion_laws::lemma_passes(ir, p);
        }
    }
}

/// A walk over a block with a safepoint passes one.
proof fn lemma_passes_some(ir: ExecIrBuilder, p: Seq<usize>, i: int)
    requires
        0 <= i < p.len(),
        forall|j: int| 0 <= j < p.len() ==> #[trigger] p[j] < ir.blocks@.len(),
        scc_graph::has_safepoint(ir@[p[i] as int], ir.stmts@),
    ensures
        passed(ir, p) > 0,
    decreases p.len(),
{
    if i == 0 {
        let stmts = ir@[p[0] as int].stmts;
        assert(p[0] < ir.blocks@.len());
        let j = choose|j: int|
            0 <= j < stmts.len() && ir::is_safepoint(ir.stmts@, #[trigger] stmts[j]);
        insertion_laws::lemma_safepoints(ir.stmts@, stmts);
        halt_laws::lemma_has_one(ir.stmts@, stmts, j);
    } else {
        let q = p.drop_first();
        assert forall|j: int| 0 <= j < q.len() implies #[trigger] q[j] < ir.blocks@.len() by {
            assert(q[j] == p[j + 1]);
        }
        assert(q[i - 1] == p[i]);
        lemma_passes_some(ir, q, i - 1);
    }
}

/// A block is found to hold a safepoint exactly if one of its statements is one.
pub proof fn safepoints_are_found(ir: ExecIrBuilder, block: Block, r: bool)
    requires
        ir.wf(),
        block < ir.blocks@.len(),
        call_ensures(scc_graph::block_has_safepoint, (&ir, block), r),
    ensures
        r <==> safepoints_in(ir.stmts@, ir.blocks@[block as int].stmts@) > 0,
{
    let stmts = ir@[block as int].stmts;
    insertion_laws::lemma_safepoints(ir.stmts@, stmts);
    if r {
        let j = choose|j: int|
            0 <= j < stmts.len() && ir::is_safepoint(ir.stmts@, #[trigger] stmts[j]);
        halt_laws::lemma_has_one(ir.stmts@, stmts, j);
    }
    if safepoints_in(ir.stmts@, stmts) > 0 {
        let j = insertion_laws::lemma_finds(ir.stmts@, stmts);
        assert(ir::is_safepoint(ir.stmts@, ir@[block as int].stmts[j]));
    }
}

/// A walk through the function leads from `u` to `v`.
pub open spec fn leads(ir: ExecIrBuilder, u: usize, v: usize) -> bool {
    exists|p: Seq<usize>| #[trigger] is_walk(ir, p) && p[0] == u && p.last() == v
}

proof fn lemma_leads(ir: ExecIrBuilder, u: usize, v: usize)
    requires
        ir.wf(),
        u < ir.blocks@.len(),
    ensures
        leads(ir, u, v) <==> graph::reaches(ir::flow(ir@), u, v),
{
    reveal(graph::reaches);
    let e = ir::flow(ir@);
    if leads(ir, u, v) {
        let p = choose|p: Seq<usize>| #[trigger] is_walk(ir, p) && p[0] == u && p.last() == v;
        insertion_laws::lemma_walk(ir, p);
        assert(graph::is_path(e, p) && p[0] == u && p.last() == v);
    }
    if graph::reaches(e, u, v) {
        let p = choose|p: Seq<usize>| #[trigger]
            graph::is_path(e, p) && p[0] == u && p.last() == v;
        insertion_laws::lemma_path(ir, p);
        assert(is_walk(ir, p) && p[0] == u && p.last() == v);
    }
}

/// The block `b` is in the set, or there is no set.
pub open spec fn is_allowed(allowed: Option<ArenaSet>, b: usize) -> bool {
    match allowed {
        Some(set) => set.has(b),
        None => true,
    }
}

/// A walk over allowed blocks leads from `u` to `v`.
pub open spec fn leads_within(
    ir: ExecIrBuilder,
    allowed: Option<ArenaSet>,
    u: usize,
    v: usize,
) -> bool {
    exists|p: Seq<usize>| #[trigger]
        is_walk(ir, p) && p[0] == u && p.last() == v && (forall|i: int|
            0 <= i < p.len() ==> is_allowed(allowed, #[trigger] p[i]))
}

proof fn lemma_leads_within(
    ir: ExecIrBuilder,
    allowed: Option<ArenaSet>,
    u: usize,
    v: usize,
)
    requires
        ir.wf(),
        u < ir.blocks@.len(),
        is_allowed(allowed, u),
    ensures
        leads_within(ir, allowed, u, v) <==> graph::reaches(scc::part_flow(ir@, allowed), u, v),
{
    reveal(graph::reaches);
    let e = scc::part_flow(ir@, allowed);
    let f = ir::flow(ir@);
    if leads_within(ir, allowed, u, v) {
        let p = choose|p: Seq<usize>| #[trigger]
            is_walk(ir, p) && p[0] == u && p.last() == v && (forall|i: int|
                0 <= i < p.len() ==> is_allowed(allowed, #[trigger] p[i]));
        assert forall|i: int| 0 <= i < p.len() - 1 implies #[trigger] graph::is_step(e, p, i) by {
            assert(p[i] < ir.blocks@.len() && p[i + 1] < ir.blocks@.len());
            assert(is_allowed(allowed, p[i]) && is_allowed(allowed, p[i + 1]));
        }
        assert(graph::is_path(e, p) && p[0] == u && p.last() == v);
    }
    if graph::reaches(e, u, v) {
        let p = choose|p: Seq<usize>| #[trigger]
            graph::is_path(e, p) && p[0] == u && p.last() == v;
        assert forall|i: int| 0 <= i < p.len() - 1 implies #[trigger] graph::is_step(f, p, i) by {
            assert(graph::is_step(e, p, i));
        }
        insertion_laws::lemma_path(ir, p);
        assert forall|i: int| 0 <= i < p.len() implies is_allowed(allowed, #[trigger] p[i]) by {
            if i > 0 {
                assert(graph::is_step(e, p, i - 1));
            }
        }
        assert(is_walk(ir, p) && p[0] == u && p.last() == v);
    }
}

/// The components hold every allowed block once, and no other. Two blocks are in one component
/// exactly if walks over allowed blocks lead from each to the other, and control never goes on
/// to a later component.
pub proof fn components_are_what_walks_join(
    ir: ExecIrBuilder,
    allowed: Option<ArenaSet>,
    r: Vec<Vec<Block>>,
    c: int,
    i: int,
    d: int,
    j: int,
)
    requires
        ir.wf(),
        call_ensures(scc::strongly_connected_components, (&ir, allowed), r),
        0 <= c < r@.len(),
        0 <= i < r@[c]@.len(),
        0 <= d < r@.len(),
        0 <= j < r@[d]@.len(),
    ensures
        r@[c]@[i] < ir.blocks@.len(),
        is_allowed(allowed, r@[c]@[i]),
        r@[c]@[i] == r@[d]@[j] ==> c == d && i == j,
        c == d <==> leads_within(ir, allowed, r@[c]@[i], r@[d]@[j]) && leads_within(
            ir,
            allowed,
            r@[d]@[j],
            r@[c]@[i],
        ),
        ir.blocks@[r@[c]@[i] as int].successors@.contains(r@[d]@[j]) ==> d <= c,
{
    let e = scc::part_flow(ir@, allowed);
    let comps = scc::component_blocks(r@);
    let ok = |b: usize| scc::takes_part(ir@, allowed, b);
    assert(scc::is_scc_list(e, ok, comps));
    let u = comps[c][i];
    let v = comps[d][j];
    assert(ok(u) && ok(v));
    lemma_leads_within(ir, allowed, u, v);
    lemma_leads_within(ir, allowed, v, u);
    assert(graph::mutually_reachable(e, comps[c][i], comps[d][j]) <==> c == d);
    if ir.blocks@[u as int].successors@.contains(v) {
        assert(e(comps[c][i], comps[d][j]));
    }
}

/// Every allowed block is in a component, and none is empty.
pub proof fn components_hold_all_blocks(
    ir: ExecIrBuilder,
    allowed: Option<ArenaSet>,
    r: Vec<Vec<Block>>,
    b: usize,
)
    requires
        ir.wf(),
        call_ensures(scc::strongly_connected_components, (&ir, allowed), r),
        b < ir.blocks@.len(),
        is_allowed(allowed, b),
    ensures
        is_held(r@, b),
        forall|c: int| 0 <= c < r@.len() ==> (#[trigger] r@[c])@.len() > 0,
{
    let comps = scc::component_blocks(r@);
    let ok = |b: usize| scc::takes_part(ir@, allowed, b);
    assert(ok(b));
    let f = choose|f: int| 0 <= f < comps.len() && #[trigger] comps[f].contains(b);
    let k = comps[f].index_of(b);
    assert(r@[f]@[k] == b);
    assert forall|c: int| 0 <= c < r@.len() implies (#[trigger] r@[c])@.len() > 0 by {
        assert(comps[c].len() > 0);
    }
}

/// One of the components holds the block `b`.
pub open spec fn is_held(components: Seq<Vec<Block>>, b: usize) -> bool {
    exists|c: int, i: int|
        0 <= c < components.len() && 0 <= i < components[c]@.len() && #[trigger] components[c]@[i]
            == b
}

/// In the condensed function, two blocks are in one component exactly if walks lead from each
/// to the other, a component is cyclic exactly if its blocks lie on cycles, every component
/// has one place in the order, and where control goes on to another component, that one comes
/// later.
pub proof fn condensed_functions_flow_forward(
    ir: ExecIrBuilder,
    r: SccGraph,
    u: usize,
    v: usize,
    cyclic: bool,
)
    requires
        ir.wf(),
        call_ensures(SccGraph::new, (&ir,), r),
        u < ir.blocks@.len(),
        v < ir.blocks@.len(),
        r.component_of.at(u) is Some ==> call_ensures(
            SccGraph::component_is_cyclic,
            (&r, r.component_of.at(u)->0),
            cyclic,
        ),
    ensures
        r.component_of.at(u) is Some,
        r.component_of.at(u)->0 < r.components@.len(),
        r.components@[r.component_of.at(u)->0 as int]@.contains(u),
        r.component_of.at(u) == r.component_of.at(v) <==> leads(ir, u, v) && leads(ir, v, u),
        cyclic <==> lies_on_cycle(ir, u),
        r.topo_order@.no_duplicates(),
        r.topo_order@.contains(r.component_of.at(u)->0),
        ir.blocks@[u as int].successors@.contains(v) && r.component_of.at(u) != r.component_of.at(v)
            ==> r.topo_order@.index_of(r.component_of.at(u)->0) < r.topo_order@.index_of(
            r.component_of.at(v)->0,
        ),
{
    reveal(SccGraph::condenses);
    let e = ir::flow(ir@);
    r.components_are_right(ir@, ir.stmts@, u, v);
    lemma_leads(ir, u, v);
    lemma_leads(ir, v, u);
    insertion_laws::lemma_cycle(ir, u);
    assert(r.component_of.at(u) is Some && r.component_of.at(v) is Some);
    let c = r.component_of.at(u)->0;
    let d = r.component_of.at(v)->0;
    lemma_all_there(r.topo_order@, r.components@.len(), c);
    lemma_all_there(r.topo_order@, r.components@.len(), d);
    if ir.blocks@[u as int].successors@.contains(v) && c != d {
        assert(e(u, v));
        let j = r.topo_order@.index_of(d);
        assert(r.topo_order@[j] == d);
        assert(r.topo_order@.take(j).contains(c));
        let i = r.topo_order@.take(j).index_of(c);
        assert(r.topo_order@[i] == c);
    }
}

/// `n` distinct numbers below `n` are all of them.
proof fn lemma_all_there(s: Seq<usize>, n: nat, c: usize)
    requires
        s.no_duplicates(),
        s.len() == n,
        c < n,
        forall|i: int| 0 <= i < s.len() ==> #[trigger] s[i] < n,
    ensures
        s.contains(c),
{
    if !s.contains(c) {
        let t = s.push(c);
        assert forall|i: int, j: int| 0 <= i < t.len() && 0 <= j < t.len() && i != j implies t[i]
            != t[j] by {
            if i == s.len() {
                assert(s.contains(s[j]));
            } else if j == s.len() {
                assert(s.contains(s[i]));
            }
        }
        scc::lemma_distinct_below(t, n);
    }
}

/// Every node has one place in the order, and edges lead from earlier to later nodes.
pub proof fn edges_lead_forward(
    edges: Vec<ArenaSet>,
    indegree: Vec<usize>,
    r: Vec<usize>,
    p: usize,
    d: usize,
)
    requires
        call_ensures(topo::topological_order, (&edges, indegree), r),
        p < edges@.len(),
        d < edges@.len(),
    ensures
        r@.len() == edges@.len(),
        r@.no_duplicates(),
        r@.contains(p),
        edges@[p as int].has(d) ==> r@.index_of(p) < r@.index_of(d),
{
    lemma_all_there(r@, edges@.len(), p);
    lemma_all_there(r@, edges@.len(), d);
    if edges@[p as int].has(d) {
        let j = r@.index_of(d);
        assert(r@[j] == d);
    }
}

/// An edge has the state that was set last. What it had before is given back, and no other edge
/// changes its state or its place.
pub proof fn edges_have_the_last_state(
    before: HaltStateMap,
    after: HaltStateMap,
    from: Block,
    to: Block,
    state: HaltState,
    r: Option<HaltState>,
)
    requires
        before.wf(),
        exists|map: &mut HaltStateMap|
            *map == before && *final(map) == after && #[trigger] call_ensures(
                HaltStateMap::add_edge,
                (map, from, to, state),
                r,
            ),
    ensures
        after.wf(),
        forall|k: Block| k != to ==> #[trigger] after.arrivals(k) == before.arrivals(k),
        ({
            let was = before.arrivals(to);
            let now = after.arrivals(to);
            &&& now.len() == was.len() + if r is Some {
                0int
            } else {
                1int
            }
            &&& forall|i: int|
                0 <= i < was.len() ==> (#[trigger] now[i]).from == was[i].from && now[i].state == if was[i].from
                    == from {
                    state
                } else {
                    was[i].state
                }
            &&& forall|i: int|
                0 <= i < was.len() && (#[trigger] was[i]).from == from ==> r == Some(was[i].state)
            &&& r is None ==> now.last().from == from && now.last().state == state
        }),
{
    let was = before.arrivals(to);
    let now = after.arrivals(to);
    match r {
        Some(previous) => {
            let k = choose|k: int| #[trigger]
                halt_map::arrives(was, from, k) && previous == was[k].state && now == was.update(
                    k,
                    Arrival { from, state },
                );
            assert forall|i: int| 0 <= i < was.len() && (#[trigger] was[i]).from == from implies i
                == k by {
                if i != k {
                    assert(before.arrivals(to)[i].from != before.arrivals(to)[k].from);
                }
            }
            assert forall|i: int| 0 <= i < was.len() implies (#[trigger] now[i]).from == was[i].from
                && now[i].state == if was[i].from == from {
                state
            } else {
                was[i].state
            } by {
                if i != k {
                    assert(was[i].from != from);
                }
            }
        },
        None => {
            assert forall|i: int| 0 <= i < was.len() implies (#[trigger] was[i]).from != from by {
                assert(!halt_map::arrives(was, from, i));
            }
        },
    }
}

/// The states of all edges to a block are taken out, the one that came last first, and no other
/// edge changes.
pub proof fn incoming_states_are_taken_out(
    before: HaltStateMap,
    after: HaltStateMap,
    towards: Block,
    r: Vec<(Block, HaltState)>,
)
    requires
        before.wf(),
        exists|map: &mut HaltStateMap|
            *map == before && *final(map) == after && #[trigger] call_ensures(
                HaltStateMap::drain_incoming,
                (map, towards),
                r,
            ),
    ensures
        after.wf(),
        after.arrivals(towards).len() == 0,
        forall|k: Block| k != towards ==> #[trigger] after.arrivals(k) == before.arrivals(k),
        r@.len() == before.arrivals(towards).len(),
        forall|i: int|
            0 <= i < r@.len() ==> (#[trigger] r@[i]).0 == towards && r@[i].1 == before.arrivals(
                towards,
            )[r@.len() - 1 - i].state,
{
}

/// The edges of a block that is renamed start from its new name, with their states, and all
/// others start where they did.
pub proof fn renamed_blocks_keep_their_edges(
    before: HaltStateMap,
    after: HaltStateMap,
    from: Block,
    to: Block,
    k: Block,
)
    requires
        before.wf(),
        exists|map: &mut HaltStateMap|
            *map == before && *final(map) == after && #[trigger] call_ensures(
                HaltStateMap::rename,
                (map, from, to),
                (),
            ),
    ensures
        after.wf(),
        are_renamed(before.arrivals(k), after.arrivals(k), from, to),
{
    assert(after.arrivals(k) == halt_map::renamed(before.arrivals(k), from, to));
}

/// The same states arrive, in the same order, with `from` renamed to `to`.
pub open spec fn are_renamed(
    before: Seq<Arrival>,
    after: Seq<Arrival>,
    from: Block,
    to: Block,
) -> bool {
    &&& after.len() == before.len()
    &&& forall|i: int|
        0 <= i < before.len() ==> {
            &&& (#[trigger] after[i]).state == before[i].state
            &&& before[i].from == from ==> after[i].from == to
            &&& before[i].from != from ==> after[i].from == before[i].from
        }
}

/// A halt check behind a statement cuts the block right behind it, and the edges of the block
/// start from what is left of it.
pub proof fn checks_stand_behind_their_statement(
    before: HaltCheckInserter,
    after: HaltCheckInserter,
    block: Block,
    stmt_index: usize,
    r: Block,
    k: Block,
)
    requires
        before.wf(),
        block < before.ir.blocks@.len(),
        stmt_index < before.ir.blocks@[block as int].stmts@.len(),
        exists|inserter: &mut HaltCheckInserter|
            *inserter == before && *final(inserter) == after && #[trigger] call_ensures(
                HaltCheckInserter::insert_halt_check_after_safepoint_indexed,
                (inserter, block, stmt_index),
                r,
            ),
    ensures
        after.wf(),
        r == before.ir.blocks@.len(),
        after.ir.blocks@.len() == before.ir.blocks@.len() + 1,
        after.ir.stmts@ == before.ir.stmts@,
        after.ir.halt_check_every == before.ir.halt_check_every,
        ({
            let old = before.ir.blocks@[block as int];
            let first = after.ir.blocks@[block as int];
            let rest = after.ir.blocks@[r as int];
            &&& first.stmts@ + rest.stmts@ == old.stmts@
            &&& first.stmts@.len() == stmt_index + 1
            &&& first.halt_check
            &&& first.successors@ == seq![r]
            &&& rest.halt_check == old.halt_check
            &&& rest.successors@ == old.successors@
        }),
        forall|b: int|
            0 <= b < before.ir.blocks@.len() && b != block ==> (#[trigger] after.ir.blocks@[b])@
                == before.ir.blocks@[b]@,
        are_renamed(before.map.arrivals(k), after.map.arrivals(k), block, r),
{
    let old = before.ir@[block as int];
    let at = stmt_index + 1;
    assert(after.ir@.len() == after.ir.blocks@.len());
    assert(after.ir@[block as int] == after.ir.blocks@[block as int]@);
    assert(after.ir@[r as int] == after.ir.blocks@[r as int]@);
    assert(old.stmts.take(at) + old.stmts.skip(at) =~= old.stmts);
    assert(after.map.arrivals(k) == halt_map::renamed(before.map.arrivals(k), block, r));
    assert forall|b: int| 0 <= b < before.ir.blocks@.len() && b != block implies (
    #[trigger] after.ir.blocks@[b])@ == before.ir.blocks@[b]@ by {
        assert(after.ir@[b] == before.ir@[b]);
    }
}

/// The safepoints among `stmts`, in order.
pub open spec fn safepoints_of(kinds: Seq<StmtData>, stmts: Seq<Stmt>) -> Seq<usize>
    decreases stmts.len(),
{
    if stmts.len() == 0 {
        Seq::empty()
    } else if stmts[0] < kinds.len() && kinds[stmts[0] as int].rvalue is Safepoint {
        seq![stmts[0]] + safepoints_of(kinds, stmts.drop_first())
    } else {
        safepoints_of(kinds, stmts.drop_first())
    }
}

/// The history up to the first cut, or to the end where there is none.
proof fn lemma_history(
    kinds: Seq<StmtData>,
    stmts: Seq<Stmt>,
    remaining: nat,
    history: Seq<usize>,
    n: nat,
)
    requires
        remaining > 0,
    ensures
        match halt_state::first_cut(kinds, stmts, remaining) {
            None => history.len() + safepoints_in(kinds, stmts) <= n ==> halt_state::history_after(
                kinds,
                stmts,
                remaining,
                history,
                n,
            ) == history + safepoints_of(kinds, stmts),
            Some(at) => 0 < at <= stmts.len() && halt_state::history_after(
                kinds,
                stmts,
                remaining,
                history,
                n,
            ) == halt_state::history_after(kinds, stmts.skip(at as int), n, Seq::empty(), n),
        },
    decreases stmts.len(),
{
    if stmts.len() == 0 {
        assert(history + safepoints_of(kinds, stmts) =~= history);
    } else {
        let rest = stmts.drop_first();
        let hit = ir::is_safepoint(kinds, stmts[0]);
        if hit && remaining <= 1 {
            assert(stmts.skip(1) =~= rest);
        } else {
            let next = if hit {
                (remaining - 1) as nat
            } else {
                remaining
            };
            let grown = if hit {
                halt_state::history_grown(history, stmts[0], remaining, n)
            } else {
                history
            };
            lemma_history(kinds, rest, next, grown, n);
            match halt_state::first_cut(kinds, rest, next) {
                Some(at) => {
                    assert(stmts.skip(at as int + 1) =~= rest.skip(at as int));
                },
                None => {
                    if history.len() + safepoints_in(kinds, stmts) <= n {
                        assert(history + safepoints_of(kinds, stmts) =~= grown + safepoints_of(
                            kinds,
                            rest,
                        ));
                    }
                },
            }
        }
    }
}

/// The history at the end of a block.
proof fn lemma_last_history(
    kinds: Seq<StmtData>,
    stmts: Seq<Stmt>,
    remaining: nat,
    history: Seq<usize>,
    n: nat,
)
    requires
        remaining > 0,
        n > 0,
    ensures
        ({
            let ps = halt_state::pieces(kinds, stmts, remaining, n);
            let held = halt_state::history_after(kinds, stmts, remaining, history, n);
            if ps.len() > 1 {
                held == safepoints_of(kinds, ps.last())
            } else {
                history.len() + safepoints_in(kinds, stmts) <= n ==> held == history
                    + safepoints_of(kinds, stmts)
            }
        }),
    decreases stmts.len(),
{
    lemma_history(kinds, stmts, remaining, history, n);
    let ps = halt_state::pieces(kinds, stmts, remaining, n);
    match halt_state::first_cut(kinds, stmts, remaining) {
        Some(at) => {
            let tail = stmts.skip(at as int);
            let rest = halt_state::pieces(kinds, tail, n, n);
            assert(rest.len() > 0);
            lemma_last_history(kinds, tail, n, Seq::empty(), n);
            assert(ps.last() == rest.last());
            if rest.len() == 1 {
                halt_laws::lemma_piece_counts(kinds, tail, n, n, 0);
                match halt_state::first_cut(kinds, tail, n) {
                    None => {
                        assert(rest[0] == tail);
                        insertion_laws::lemma_safepoints(kinds, tail);
                        assert(Seq::<usize>::empty() + safepoints_of(kinds, tail)
                            =~= safepoints_of(kinds, tail));
                    },
                    Some(more) => {
                        lemma_history(kinds, tail, n, Seq::empty(), n);
                        assert(halt_state::pieces(kinds, tail.skip(more as int), n, n).len() > 0);
                    },
                }
            }
        },
        None => {},
    }
}

/// At the end of a block that was cut, the history holds the safepoints of its last piece. Where
/// the block was not cut, its safepoints have joined the history that it was entered with, as
/// long as there is room.
pub proof fn history_holds_what_came_since(
    state: HaltState,
    before: HaltCheckInserter,
    after: HaltCheckInserter,
    halt_check_every: usize,
    block: Block,
    r: (Block, HaltState),
)
    requires
        before.wf(),
        block < before.ir.blocks@.len(),
        halt_check_every > 0,
        state.remaining > 0,
        exists|inserter: &mut HaltCheckInserter|
            *inserter == before && *final(inserter) == after && #[trigger] call_ensures(
                HaltState::break_down_block,
                (state, inserter, halt_check_every, block),
                r,
            ),
    ensures
        ({
            let kinds = before.ir.stmts@;
            let was = queued(state.suffix_safepoints);
            let now = queued(r.1.suffix_safepoints);
            let last = after.ir.blocks@[r.0 as int].stmts@;
            if after.ir.blocks@.len() > before.ir.blocks@.len() {
                now == safepoints_of(kinds, last)
            } else {
                was.len() + safepoints_in(kinds, last) <= halt_check_every ==> now == was
                    + safepoints_of(kinds, last)
            }
        }),
{
    let kinds = before.ir.stmts@;
    let stmts = before.ir@[block as int].stmts;
    let first = state.remaining as nat;
    let every = halt_check_every as nat;
    let ids = lemma_cut_up(before.ir, after.ir, block, first, every);
    lemma_last_history(kinds, stmts, first, queued(state.suffix_safepoints), every);
    let ps = halt_state::pieces(kinds, stmts, first, every);
    let n = before.ir.blocks@.len() as int;
    assert(after.ir@.len() == n + ps.len() - 1);
    assert(after.ir@[r.0 as int] == after.ir.blocks@[r.0 as int]@);
    assert(after.ir@[r.0 as int].stmts == ps.last());
    if ps.len() == 1 {
        halt_laws::pieces_make_up_the_block(kinds, stmts, first, every);
        assert(ps.drop_first() =~= Seq::empty());
        assert(halt_laws::joined(ps.drop_first()) =~= Seq::empty());
        assert(halt_laws::joined(ps) =~= ps[0]);
    }
}

/// A component is found cyclic exactly if it has more than one block, or one that control may
/// go on to from itself.
pub proof fn cyclic_components_are_found(ir: ExecIrBuilder, component: &[Block], r: bool)
    requires
        forall|i: int| 0 <= i < component@.len() ==> #[trigger] component@[i] < ir.blocks@.len(),
        call_ensures(scc_graph::component_is_cyclic, (&ir, component), r),
    ensures
        component@.len() == 1 ==> (r <==> ir.blocks@[component@[0] as int].successors@.contains(
            component@[0],
        )),
        component@.len() > 1 ==> r,
        component@.len() == 0 ==> !r,
{
    if component@.len() == 1 {
        assert(component@[0] < ir.blocks@.len());
        assert(ir@[component@[0] as int].successors
            == ir.blocks@[component@[0] as int].successors@);
    }
}

/// A search that starts at a block, with nothing left over from before, visits the unvisited
/// blocks that the block reaches, and no others; it leaves nothing over.
pub proof fn searches_visit_what_is_reached<'a>(before: Tarjan<'a>, after: Tarjan<'a>, block: Block)
    requires
        before.inv(),
        before.ok(block),
        before.index.at(block) is None,
        before.stack@.len() == 0,
        call_ensures(Tarjan::strong_connect, (before, block), after),
    ensures
        after.inv(),
        after.stack@.len() == 0,
        after.index.at(block) is Some,
        forall|b: usize| #[trigger]
            after.index.at(b) is Some && before.index.at(b) is None ==> graph::reaches(
                before.e(),
                block,
                b,
            ),
        forall|b: usize|
            before.index.at(b) is None && #[trigger] graph::reaches(before.e(), block, b)
                ==> after.index.at(b) is Some,
{
    scc::visits_complete_components(before, after, block);
    assert forall|b: usize| #[trigger]
        after.index.at(b) is Some && before.index.at(b) is None implies graph::reaches(
        before.e(),
        block,
        b,
    ) by {
        assert(before.newly_visited(after, b));
    }
    assert forall|b: usize|
        before.index.at(b) is None && #[trigger] graph::reaches(
            before.e(),
            block,
            b,
        ) implies after.index.at(b) is Some by {
        assert(before.newly_visited(after, b));
    }
}

/// A fresh state has the countdown that it is given and no history, a copy has the same, and a
/// fresh map has no edges.
pub proof fn fresh_states_have_no_history(
    remaining: usize,
    fresh: HaltState,
    copied: HaltState,
    len: usize,
    map: HaltStateMap,
    k: Block,
)
    requires
        call_ensures(HaltState::from_remaining, (remaining,), fresh),
        call_ensures(HaltState::suffix_len, (&fresh,), len),
        call_ensures(HaltStateMap::new, (), map),
    ensures
        fresh.remaining == remaining,
        len == 0,
        queued(fresh.suffix_safepoints).len() == 0,
        map.arrivals(k).len() == 0,
        forall|state: HaltState| #[trigger]
            call_ensures(HaltState::duplicate, (&state,), copied) ==> copied.remaining
                == state.remaining && queued(copied.suffix_safepoints) == queued(
                state.suffix_safepoints,
            ),
{
}

/// The successors of a block are those that it was built with.
pub proof fn successors_are_as_built(ir: ExecIrBuilder, block: Block, r: &[Block])
    requires
        block < ir.blocks@.len(),
        call_ensures(ExecIrBuilder::successors, (&ir, block), r),
    ensures
        r@ == ir.blocks@[block as int].successors@,
{
}

/// The work starts with the function as it was built, and with no states.
pub proof fn work_starts_with_the_function(ir: ExecIrBuilder, r: HaltCheckInserter, k: Block)
    requires
        call_ensures(HaltCheckInserter::new, (ir,), r),
    ensures
        r.ir == ir,
        r.map.arrivals(k).len() == 0,
{
}

} // verus!
