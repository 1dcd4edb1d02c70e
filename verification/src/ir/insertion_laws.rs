//! What the insertion of halt checks does to a function, said of its blocks and of the number
//! that it was built with.

use vstd::prelude::*;
use crate::ir;
use crate::ir::graph;
use crate::ir::halt_check_pass;
use crate::ir::halt_laws;
use crate::ir::halt_spec;
use crate::ir::halt_state;
use crate::ir::scc_graph;
use crate::ir::{ExecIrBuilder, Stmt, StmtData};

verus! {

/// How many of `stmts` are safepoints.
pub open spec fn safepoints_in(kinds: Seq<StmtData>, stmts: Seq<Stmt>) -> nat
    decreases stmts.len(),
{
    if stmts.len() == 0 {
        0
    } else if stmts[0] < kinds.len() && kinds[stmts[0] as int].rvalue is Safepoint {
        safepoints_in(kinds, stmts.drop_first()) + 1
    } else {
        safepoints_in(kinds, stmts.drop_first())
    }
}

/// Control may walk from block to block along `p`.
pub open spec fn is_walk(ir: ExecIrBuilder, p: Seq<usize>) -> bool {
    &&& p.len() > 0
    &&& forall|i: int| 0 <= i < p.len() ==> #[trigger] p[i] < ir.blocks@.len()
    &&& forall|i: int|
        0 <= i < p.len() - 1 ==> ir.blocks@[#[trigger] p[i] as int].successors@.contains(p[i + 1])
}

/// How many safepoints the walk `p` passes.
pub open spec fn passed(ir: ExecIrBuilder, p: Seq<usize>) -> nat
    decreases p.len(),
{
    if p.len() == 0 {
        0
    } else {
        safepoints_in(ir.stmts@, ir.blocks@[p[0] as int].stmts@) + passed(ir, p.drop_first())
    }
}

/// Some walk of at least one step leads from the block `b` back to it.
pub open spec fn lies_on_cycle(ir: ExecIrBuilder, b: usize) -> bool {
    exists|p: Seq<usize>| #[trigger] is_walk(ir, p) && p.len() > 1 && p[0] == b && p.last() == b
}

pub(crate) proof fn lemma_safepoints(kinds: Seq<StmtData>, stmts: Seq<Stmt>)
    ensures
        safepoints_in(kinds, stmts) == halt_laws::safepoints(kinds, stmts),
    decreases stmts.len(),
{
    if stmts.len() > 0 {
        lemma_safepoints(kinds, stmts.drop_first());
    }
}

pub(crate) proof fn lemma_walk(ir: ExecIrBuilder, p: Seq<usize>)
    requires
        is_walk(ir, p),
    ensures
        graph::is_path(ir::flow(ir@), p),
        passed(ir, p) == halt_laws::safepoints_on(ir@, ir.stmts@, p),
    decreases p.len(),
{
    let e = ir::flow(ir@);
    assert forall|i: int| 0 <= i < p.len() - 1 implies #[trigger] graph::is_step(e, p, i) by {
        assert(p[i] < ir.blocks@.len());
    }
    lemma_safepoints(ir.stmts@, ir.blocks@[p[0] as int].stmts@);
    assert(p[0] < ir.blocks@.len());
    let q = p.drop_first();
    if q.len() > 0 {
        assert forall|i: int| 0 <= i < q.len() implies #[trigger] q[i] < ir.blocks@.len() by {
            assert(q[i] == p[i + 1]);
        }
        assert forall|i: int| 0 <= i < q.len() - 1 implies ir.blocks@[#[trigger] q[i] as int].successors@.contains(
        q[i + 1]) by {
            assert(q[i] == p[i + 1]);
        }
        lemma_walk(ir, q);
    }
}

/// A path is a walk where handles are in range.
pub(crate) proof fn lemma_path(ir: ExecIrBuilder, p: Seq<usize>)
    requires
        ir.wf(),
        graph::is_path(ir::flow(ir@), p),
        p[0] < ir.blocks@.len(),
    ensures
        is_walk(ir, p),
{
    let e = ir::flow(ir@);
    assert forall|i: int| 0 <= i < p.len() implies #[trigger] p[i] < ir.blocks@.len() by {
        if i > 0 {
            assert(graph::is_step(e, p, i - 1));
            scc_graph::lemma_flow_range(ir@, ir.stmts@, p[i - 1], p[i]);
        }
    }
    assert forall|i: int| 0 <= i < p.len() - 1 implies ir.blocks@[#[trigger] p[i] as int].successors@.contains(
    p[i + 1]) by {
        assert(graph::is_step(e, p, i));
    }
}

pub(crate) proof fn lemma_cycle(ir: ExecIrBuilder, b: usize)
    requires
        ir.wf(),
        b < ir.blocks@.len(),
    ensures
        lies_on_cycle(ir, b) <==> graph::on_cycle(ir::flow(ir@), b),
{
    let e = ir::flow(ir@);
    if lies_on_cycle(ir, b) {
        let p = choose|p: Seq<usize>| #[trigger]
            is_walk(ir, p) && p.len() > 1 && p[0] == b && p.last() == b;
        lemma_walk(ir, p);
        graph::cycle_is_mutually_reachable(e, p, 0, 0);
    }
    if graph::on_cycle(e, b) {
        reveal(graph::reaches);
        let v = choose|v: usize| #[trigger] e(b, v) && graph::reaches(e, v, b);
        let q = choose|q: Seq<usize>| #[trigger]
            graph::is_path(e, q) && q[0] == v && q.last() == b;
        let p = seq![b] + q;
        assert forall|i: int| 0 <= i < p.len() - 1 implies #[trigger] graph::is_step(e, p, i) by {
            if i > 0 {
                assert(graph::is_step(e, q, i - 1));
            }
        }
        lemma_path(ir, p);
        assert(is_walk(ir, p) && p.len() > 1 && p[0] == b && p.last() == b);
    }
}

/// On any walk through the result that meets no halt check on its way, execution passes at
/// most as many safepoints as the function was built with, and fewer where the walk does not
/// end in a halt check either.
pub proof fn at_most_halt_check_every_safepoints_pass(
    before: ExecIrBuilder,
    after: ExecIrBuilder,
    p: Seq<usize>,
)
    requires
        before.wf(),
        exists|ir: &mut ExecIrBuilder|
            *ir == before && *final(ir) == after && #[trigger] call_ensures(
                halt_check_pass::insert_halt_checks,
                (ir,),
                (),
            ),
        is_walk(after, p),
        forall|i: int| 0 <= i < p.len() - 1 ==> !after.blocks@[#[trigger] p[i] as int].halt_check,
    ensures
        passed(after, p) <= before.halt_check_every,
        !after.blocks@[p.last() as int].halt_check ==> passed(after, p) < before.halt_check_every,
{
    lemma_walk(after, p);
    let n = halt_check_pass::safepoint_limit(before.halt_check_every);
    assert(p[0] < after.blocks@.len());
    assert(p[p.len() - 1] < after.blocks@.len());
    assert forall|i: int| 0 <= i < p.len() - 1 implies !after@[#[trigger] p[i] as int].halt_check by {
        assert(p[i] < after.blocks@.len());
    }
    halt_laws::safepoints_between_halt_checks_are_bounded(
        before@,
        after@,
        before.stmts@,
        n,
        p,
    );
}

/// Every walk through the result that comes back to where it started meets a halt check, where
/// every such walk through the function passes a safepoint.
pub proof fn no_walk_comes_back_unchecked(
    before: ExecIrBuilder,
    after: ExecIrBuilder,
    p: Seq<usize>,
)
    requires
        before.wf(),
        forall|w: Seq<usize>| #[trigger]
            is_walk(before, w) && w.len() > 1 && w[0] == w.last() ==> passed(before, w) > 0,
        exists|ir: &mut ExecIrBuilder|
            *ir == before && *final(ir) == after && #[trigger] call_ensures(
                halt_check_pass::insert_halt_checks,
                (ir,),
                (),
            ),
        is_walk(after, p),
        p.len() > 1,
        p[0] == p.last(),
    ensures
        exists|i: int| 0 <= i < p.len() && after.blocks@[#[trigger] p[i] as int].halt_check,
{
    lemma_walk(after, p);
    assert forall|w: Seq<usize>| #[trigger]
        graph::is_cycle(ir::flow(before@), w) implies exists|i: int|
        0 <= i < w.len() && scc_graph::has_safepoint(
            before@[#[trigger] w[i] as int],
            before.stmts@,
        ) by {
        assert(graph::is_step(ir::flow(before@), w, 0));
        lemma_path(before, w);
        lemma_passes(before, w);
    }
    halt_laws::every_cycle_meets_a_halt_check(
        before@,
        after@,
        before.stmts@,
        halt_check_pass::safepoint_limit(before.halt_check_every),
        p,
    );
    let i = choose|i: int| 0 <= i < p.len() && after@[#[trigger] p[i] as int].halt_check;
    assert(p[i] < after.blocks@.len());
}

/// A function may be handed to [`halt_check_pass::insert_halt_checks`] whatever the number that it
/// was built with, as long as that is not zero, where its handles are in range, no safepoint
/// stands in two places, and every walk that comes back passes a safepoint.
pub proof fn checks_can_be_inserted(ir: &mut ExecIrBuilder)
    requires
        old(ir).halt_check_every > 0,
        forall|b: int, i: int|
            0 <= b < old(ir).blocks@.len() && 0 <= i < old(ir).blocks@[b].successors@.len()
                ==> #[trigger] old(ir).blocks@[b].successors@[i] < old(ir).blocks@.len(),
        forall|b: int, i: int|
            0 <= b < old(ir).blocks@.len() && 0 <= i < old(ir).blocks@[b].stmts@.len()
                ==> #[trigger] old(ir).blocks@[b].stmts@[i] < old(ir).stmts@.len(),
        forall|b: int, i: int, c: int, j: int|
            0 <= b < old(ir).blocks@.len() && 0 <= i < old(ir).blocks@[b].stmts@.len() && 0 <= c
                < old(ir).blocks@.len() && 0 <= j < old(ir).blocks@[c].stmts@.len()
                && #[trigger] old(ir).blocks@[b].stmts@[i] == #[trigger] old(
                ir,
            ).blocks@[c].stmts@[j] && old(ir).stmts@[old(ir).blocks@[b].stmts@[i] as int].rvalue is Safepoint
                ==> b == c && i == j,
        forall|p: Seq<usize>| #[trigger]
            is_walk(*old(ir), p) && p.len() > 1 && p[0] == p.last() ==> passed(*old(ir), p) > 0,
    ensures
        call_requires(halt_check_pass::insert_halt_checks, (ir,)),
{
    let before = *old(ir);
    assert(before.wf()) by {
        let blocks = before@;
        assert forall|b: int, i: int|
            0 <= b < blocks.len() && 0 <= i < blocks[b].successors.len() implies #[trigger] blocks[b].successors[i]
            < blocks.len() by {
            assert(before.blocks@[b].successors@[i] < before.blocks@.len());
        }
        assert forall|b: int, i: int|
            0 <= b < blocks.len() && 0 <= i < blocks[b].stmts.len() implies #[trigger] blocks[b].stmts[i]
            < before.stmts@.len() by {
            assert(before.blocks@[b].stmts@[i] < before.stmts@.len());
        }
        assert forall|b: int, i: int, c: int, j: int|
            0 <= b < blocks.len() && 0 <= i < blocks[b].stmts.len() && 0 <= c < blocks.len() && 0
                <= j < blocks[c].stmts.len() && ir::is_safepoint(before.stmts@, blocks[b].stmts[i])
                && #[trigger] blocks[b].stmts[i] == #[trigger] blocks[c].stmts[j] implies b == c
            && i == j by {
            assert(before.blocks@[b].stmts@[i] == before.blocks@[c].stmts@[j]);
        }
    }
    assert forall|p: Seq<usize>| #[trigger]
        graph::is_cycle(ir::flow(before@), p) implies exists|i: int|
        0 <= i < p.len() && scc_graph::has_safepoint(
            before@[#[trigger] p[i] as int],
            before.stmts@,
        ) by {
        assert(graph::is_step(ir::flow(before@), p, 0));
        lemma_path(before, p);
        lemma_passes(before, p);
    }
}

/// A walk that passes safepoints has a block with one.
pub(crate) proof fn lemma_passes(ir: ExecIrBuilder, p: Seq<usize>)
    requires
        forall|i: int| 0 <= i < p.len() ==> #[trigger] p[i] < ir.blocks@.len(),
        passed(ir, p) > 0,
    ensures
        exists|i: int|
            0 <= i < p.len() && scc_graph::has_safepoint(ir@[#[trigger] p[i] as int], ir.stmts@),
    decreases p.len(),
{
    if p.len() > 0 {
        let stmts = ir.blocks@[p[0] as int].stmts@;
        assert(p[0] < ir.blocks@.len());
        if safepoints_in(ir.stmts@, stmts) > 0 {
            let j = lemma_finds(ir.stmts@, stmts);
            assert(ir::is_safepoint(ir.stmts@, ir@[p[0] as int].stmts[j]));
            assert(scc_graph::has_safepoint(ir@[p[0] as int], ir.stmts@));
        } else {
            let q = p.drop_first();
            assert forall|i: int| 0 <= i < q.len() implies #[trigger] q[i] < ir.blocks@.len() by {
                assert(q[i] == p[i + 1]);
            }
            lemma_passes(ir, q);
            let i = choose|i: int|
                0 <= i < q.len() && scc_graph::has_safepoint(
                    ir@[#[trigger] q[i] as int],
                    ir.stmts@,
                );
            assert(q[i] == p[i + 1]);
        }
    }
}

pub(crate) proof fn lemma_finds(kinds: Seq<StmtData>, stmts: Seq<Stmt>) -> (j: int)
    requires
        safepoints_in(kinds, stmts) > 0,
    ensures
        0 <= j < stmts.len(),
        ir::is_safepoint(kinds, stmts[j]),
    decreases stmts.len(),
{
    if ir::is_safepoint(kinds, stmts[0]) {
        0
    } else {
        lemma_finds(kinds, stmts.drop_first()) + 1
    }
}

/// The countdown, the pieces and their owners that an insertion went by.
proof fn lemma_witness(before: ExecIrBuilder, after: ExecIrBuilder) -> (w: (
    Seq<nat>,
    Seq<int>,
    Seq<usize>,
))
    requires
        halt_spec::checks_inserted(
            before@,
            after@,
            before.stmts@,
            halt_check_pass::safepoint_limit(before.halt_check_every),
        ),
    ensures
        ({
            let n = halt_check_pass::safepoint_limit(before.halt_check_every);
            &&& halt_spec::are_countdowns(before@, before.stmts@, n, w.0)
            &&& halt_spec::is_broken_down(before@, after@, before.stmts@, n, w.0, w.1, w.2)
        }),
{
    let n = halt_check_pass::safepoint_limit(before.halt_check_every);
    choose|rin: Seq<nat>, base: Seq<int>, owner: Seq<usize>|
        halt_spec::are_countdowns(before@, before.stmts@, n, rin)
            && #[trigger] halt_spec::is_broken_down(
            before@,
            after@,
            before.stmts@,
            n,
            rin,
            base,
            owner,
        )
}

/// Where nothing leads to a block, its first halt check stands right behind the safepoint with
/// the number that the function was built with. A block with fewer safepoints stays as it was.
pub proof fn first_check_follows_the_last_allowed_safepoint(
    before: ExecIrBuilder,
    after: ExecIrBuilder,
    b: usize,
)
    requires
        before.wf(),
        before.halt_check_every <= usize::MAX,
        exists|ir: &mut ExecIrBuilder|
            *ir == before && *final(ir) == after && #[trigger] call_ensures(
                halt_check_pass::insert_halt_checks,
                (ir,),
                (),
            ),
        b < before.blocks@.len(),
        forall|p: int|
            0 <= p < before.blocks@.len() ==> !(#[trigger] before.blocks@[p]).successors@.contains(b),
    ensures
        ({
            let all = before.blocks@[b as int].stmts@;
            let first = after.blocks@[b as int];
            if safepoints_in(before.stmts@, all) >= before.halt_check_every {
                &&& first.halt_check
                &&& first.stmts@ == all.take(first.stmts@.len() as int)
                &&& safepoints_in(before.stmts@, first.stmts@) == before.halt_check_every
                &&& first.stmts@.last() < before.stmts@.len()
                &&& before.stmts@[first.stmts@.last() as int].rvalue is Safepoint
            } else {
                first@ == before.blocks@[b as int]@
            }
        }),
{
    let n = before.halt_check_every as nat;
    let kinds = before.stmts@;
    let e = ir::flow(before@);
    let (rin, base, owner) = lemma_witness(before, after);
    halt_laws::lemma_owner_self(before@, after@, kinds, n, rin, base, owner, b);
    halt_laws::lemma_is_piece(before@, after@, kinds, n, rin, base, owner, b as int);
    assert(halt_spec::counts_down(before@, kinds, n, rin, b));
    // Nothing leads to the block, so it is a component of its own, which nothing enters.
    assert forall|p: usize, c: usize| #[trigger] e(p, c) && c == b implies false by {
        assert(!before.blocks@[p as int].successors@.contains(b));
    }
    assert forall|c: usize| graph::reaches(e, c, b) implies c == b by {
        lemma_only_itself(e, c, b);
    }
    assert(!graph::on_cycle(e, b)) by {
        if graph::on_cycle(e, b) {
            let v = choose|v: usize| #[trigger] e(b, v) && graph::reaches(e, v, b);
            assert(v == b);
        }
    }
    assert(rin[b as int] == n) by {
        if rin[b as int] != n {
            let p = choose|p: usize| #[trigger]
                halt_spec::enters(e, p, b) && rin[b as int] == halt_spec::leaving(
                    before@,
                    kinds,
                    n,
                    rin,
                    p,
                );
            let c = choose|c: usize| #[trigger] e(p, c) && graph::mutually_reachable(e, c, b);
            assert(c == b);
        }
    }
    let all = before@[b as int].stmts;
    let ps = halt_spec::block_pieces(before@, kinds, n, rin, b);
    halt_laws::lemma_piece_counts(kinds, all, n, n, 0);
    lemma_safepoints(kinds, all);
    lemma_safepoints(kinds, ps[0]);
    assert(b < after.blocks@.len());
    assert(after@[b as int] == after.blocks@[b as int]@);
    if ps.len() == 1 {
        halt_laws::lemma_one_piece(before@, kinds, n, rin, b);
        assert(after@[b as int] =~= before@[b as int]);
    } else {
        lemma_first_piece(kinds, all, n, n);
        lemma_prefix_counts(kinds, all, ps[0].len() as int);
        lemma_safepoints(kinds, all.take(ps[0].len() as int));
    }
}

/// What no edge leads to is reached from itself alone.
proof fn lemma_only_itself(e: graph::Edges, c: usize, b: usize)
    requires
        graph::reaches(e, c, b),
        forall|p: usize, v: usize| #[trigger] e(p, v) ==> v != b,
    ensures
        c == b,
{
    reveal(graph::reaches);
    let p = choose|p: Seq<usize>| #[trigger] graph::is_path(e, p) && p[0] == c && p.last() == b;
    if p.len() > 1 {
        assert(graph::is_step(e, p, p.len() - 2));
    }
}

/// The first piece of a block is how the block begins.
proof fn lemma_first_piece(kinds: Seq<StmtData>, stmts: Seq<Stmt>, remaining: nat, n: nat)
    ensures
        ({
            let ps = halt_state::pieces(kinds, stmts, remaining, n);
            &&& ps.len() > 0
            &&& ps[0].len() <= stmts.len()
            &&& ps[0] == stmts.take(ps[0].len() as int)
        }),
{
    let ps = halt_state::pieces(kinds, stmts, remaining, n);
    assert(stmts =~= stmts.take(stmts.len() as int));
    match halt_state::first_cut(kinds, stmts, remaining) {
        Some(at) => {
            if 0 < at <= stmts.len() {
                assert(ps[0] =~= stmts.take(at as int));
            }
        },
        None => {},
    }
}

/// Fewer statements hold fewer safepoints.
proof fn lemma_prefix_counts(kinds: Seq<StmtData>, stmts: Seq<Stmt>, k: int)
    requires
        0 <= k <= stmts.len(),
    ensures
        safepoints_in(kinds, stmts) == safepoints_in(kinds, stmts.take(k)) + safepoints_in(
            kinds,
            stmts.skip(k),
        ),
    decreases k,
{
    if k == 0 {
        assert(stmts.take(0) =~= Seq::empty());
        assert(stmts.skip(0) =~= stmts);
    } else {
        lemma_prefix_counts(kinds, stmts.drop_first(), k - 1);
        assert(stmts.take(k).drop_first() =~= stmts.drop_first().take(k - 1));
        assert(stmts.skip(k) =~= stmts.drop_first().skip(k - 1));
    }
}

/// The blocks `ids` of `after`, one behind the other, are the block `b` of `before`.
///
/// - The first one has the number of the block, and the others are new.
/// - Between two of them stands a halt check, right behind a safepoint, and control can only
///   go on to the next one.
/// - The last one ends as the block did.
/// - Together they hold the statements of the block, in order.
/// - On a cycle every safepoint has a halt check behind it. Elsewhere, each of the blocks
///   between the first and the last one holds as many safepoints as the function was built
///   with, and the first one as many at most; the last one holds fewer.
pub open spec fn is_chain(
    before: ExecIrBuilder,
    after: ExecIrBuilder,
    b: usize,
    ids: Seq<usize>,
) -> bool {
    let kinds = before.stmts@;
    &&& ids.len() > 0
    &&& ids[0] == b
    &&& forall|i: int| 0 <= i < ids.len() ==> #[trigger] ids[i] < after.blocks@.len()
    &&& forall|i: int| 0 < i < ids.len() ==> #[trigger] ids[i] >= before.blocks@.len()
    &&& forall|i: int|
        0 <= i < ids.len() - 1 ==> {
            let piece = after.blocks@[#[trigger] ids[i] as int];
            &&& piece.successors@ == seq![ids[i + 1]]
            &&& piece.halt_check
            &&& piece.stmts@.len() > 0
            &&& piece.stmts@.last() < kinds.len()
            &&& kinds[piece.stmts@.last() as int].rvalue is Safepoint
        }
    &&& after.blocks@[ids.last() as int].successors@ == before.blocks@[b as int].successors@
    &&& after.blocks@[ids.last() as int].halt_check == before.blocks@[b as int].halt_check
    &&& halt_laws::joined(
        Seq::new(ids.len(), |i: int| after.blocks@[ids[i] as int].stmts@),
    ) == before.blocks@[b as int].stmts@
    &&& forall|i: int|
        0 <= i < ids.len() ==> {
            let held = safepoints_in(kinds, after.blocks@[#[trigger] ids[i] as int].stmts@);
            if lies_on_cycle(before, b) {
                held == if i < ids.len() - 1 {
                    1nat
                } else {
                    0nat
                }
            } else if i == ids.len() - 1 {
                held < before.halt_check_every
            } else if i == 0 {
                held <= before.halt_check_every
            } else {
                held == before.halt_check_every
            }
        }
}

/// The block `x` stands in one of the chains.
pub open spec fn stands_in(chains: Seq<Seq<usize>>, x: usize) -> bool {
    exists|b: int, i: int|
        0 <= b < chains.len() && 0 <= i < chains[b].len() && #[trigger] chains[b][i] == x
}

/// `chains[b]` is what has become of the block `b`, and every block of the result stands in one
/// place of one chain.
pub open spec fn are_chains(
    before: ExecIrBuilder,
    after: ExecIrBuilder,
    chains: Seq<Seq<usize>>,
) -> bool {
    &&& chains.len() == before.blocks@.len()
    &&& forall|b: usize|
        b < chains.len() ==> #[trigger] is_chain(before, after, b, chains[b as int])
    &&& forall|x: usize| x < after.blocks@.len() ==> #[trigger] stands_in(chains, x)
    &&& forall|b: int, i: int, c: int, j: int|
        0 <= b < chains.len() && 0 <= i < chains[b].len() && 0 <= c < chains.len() && 0 <= j
            < chains[c].len() && #[trigger] chains[b][i] == #[trigger] chains[c][j] ==> b == c && i
            == j
}

/// The result consists of the blocks of the function, each as a chain of blocks with halt
/// checks between them, and of nothing else: every block of the result stands in one place of
/// one chain. The statements themselves are left alone.
pub proof fn blocks_become_chains(before: ExecIrBuilder, after: ExecIrBuilder)
    requires
        before.wf(),
        before.halt_check_every <= usize::MAX,
        exists|ir: &mut ExecIrBuilder|
            *ir == before && *final(ir) == after && #[trigger] call_ensures(
                halt_check_pass::insert_halt_checks,
                (ir,),
                (),
            ),
    ensures
        after.stmts@ == before.stmts@,
        after.halt_check_every == before.halt_check_every,
        exists|chains: Seq<Seq<usize>>| #[trigger] are_chains(before, after, chains),
{
    let n = before.halt_check_every as nat;
    let kinds = before.stmts@;
    let (rin, base, owner) = lemma_witness(before, after);
    assert(before.blocks@.len() == before.blocks.len() && after.blocks@.len() == after.blocks.len());
    let chains = Seq::new(
        before.blocks@.len(),
        |b: int|
            Seq::new(
                halt_spec::block_pieces(before@, kinds, n, rin, b as usize).len(),
                |i: int| halt_spec::piece_id(b, base[b], i) as usize,
            ),
    );
    assert forall|b: int, i: int|
        0 <= b < chains.len() && 0 <= i < chains[b].len() implies #[trigger] chains[b][i]
        == halt_spec::piece_id(b, base[b], i) && chains[b][i] < after.blocks@.len() by {
        let c = b as usize;
        assert(halt_spec::stands(
            before@,
            after@,
            c,
            base[b],
            halt_spec::block_pieces(before@, kinds, n, rin, c),
        ));
    }
    assert forall|b: usize| b < chains.len() implies #[trigger] is_chain(
        before,
        after,
        b,
        chains[b as int],
    ) by {
        assert forall|i: int| 0 <= i < chains[b as int].len() implies #[trigger] chains[b as int][i]
            == halt_spec::piece_id(b as int, base[b as int], i) by {}
        lemma_chain(before, after, rin, base, owner, b, chains[b as int]);
    }
    assert forall|x: usize| x < after.blocks@.len() implies #[trigger] stands_in(chains, x) by {
        halt_laws::lemma_is_piece(before@, after@, kinds, n, rin, base, owner, x as int);
        let b = owner[x as int] as int;
        let i = halt_laws::place_of(base, owner, x as int);
        assert(chains[b][i] == x);
    }
    assert forall|b: int, i: int, c: int, j: int|
        0 <= b < chains.len() && 0 <= i < chains[b].len() && 0 <= c < chains.len() && 0 <= j
            < chains[c].len() && #[trigger] chains[b][i] == #[trigger] chains[c][j] implies b == c
        && i == j by {
        halt_laws::pieces_are_distinct(
            before@,
            after@,
            kinds,
            n,
            rin,
            base,
            owner,
            b as usize,
            i,
            c as usize,
            j,
        );
    }
    assert(are_chains(before, after, chains));
}

proof fn lemma_chain(
    before: ExecIrBuilder,
    after: ExecIrBuilder,
    rin: Seq<nat>,
    base: Seq<int>,
    owner: Seq<usize>,
    b: usize,
    ids: Seq<usize>,
)
    requires
        before.wf(),
        halt_spec::are_countdowns(before@, before.stmts@, before.halt_check_every as nat, rin),
        halt_spec::is_broken_down(
            before@,
            after@,
            before.stmts@,
            before.halt_check_every as nat,
            rin,
            base,
            owner,
        ),
        b < before.blocks@.len(),
        ids.len() == halt_spec::block_pieces(
            before@,
            before.stmts@,
            before.halt_check_every as nat,
            rin,
            b,
        ).len(),
        forall|i: int|
            0 <= i < ids.len() ==> #[trigger] ids[i] == halt_spec::piece_id(
                b as int,
                base[b as int],
                i,
            ),
    ensures
        is_chain(before, after, b, ids),
{
    let n = before.halt_check_every as nat;
    let kinds = before.stmts@;
    let stmts = before@[b as int].stmts;
    let ps = halt_spec::block_pieces(before@, kinds, n, rin, b);
    let (first, every) = if graph::on_cycle(ir::flow(before@), b) {
        (1nat, 1nat)
    } else {
        (rin[b as int], n)
    };
    assert(halt_spec::counts_down(before@, kinds, n, rin, b));
    assert(halt_spec::stands(before@, after@, b, base[b as int], ps));
    assert(ps == halt_state::pieces(kinds, stmts, first, every));
    halt_laws::pieces_make_up_the_block(kinds, stmts, first, every);
    lemma_cycle(before, b);
    assert forall|i: int| 0 <= i < ids.len() implies #[trigger] ids[i] < after.blocks@.len()
        && after.blocks@[ids[i] as int]@ == halt_spec::piece(
        before@[b as int],
        b as int,
        base[b as int],
        ps,
        i,
    ) && after.blocks@[ids[i] as int].stmts@ == ps[i] by {
        let id = halt_spec::piece_id(b as int, base[b as int], i);
        assert(after@[id] == halt_spec::piece(
            before@[b as int],
            b as int,
            base[b as int],
            ps,
            i,
        ));
        assert(0 <= id < after@.len());
        assert(after@[id] == after.blocks@[id]@);
    }
    let texts = Seq::new(ids.len(), |i: int| after.blocks@[ids[i] as int].stmts@);
    assert(texts =~= ps) by {
        assert forall|i: int| 0 <= i < ids.len() implies texts[i] == ps[i] by {
            assert(ids[i] < after.blocks@.len());
        }
    }
    assert forall|i: int| 0 < i < ids.len() implies #[trigger] ids[i] >= before.blocks@.len() by {
        assert(ids[i] == halt_spec::piece_id(b as int, base[b as int], i));
    }
    assert forall|i: int| 0 <= i < ids.len() - 1 implies {
        let piece = after.blocks@[#[trigger] ids[i] as int];
        &&& piece.successors@ == seq![ids[i + 1]]
        &&& piece.halt_check
        &&& piece.stmts@.len() > 0
        &&& piece.stmts@.last() < kinds.len()
        &&& kinds[piece.stmts@.last() as int].rvalue is Safepoint
    } by {
        halt_laws::lemma_piece_counts(kinds, stmts, first, every, i);
        let next = ids[i + 1];
        assert(next == halt_spec::piece_id(b as int, base[b as int], i + 1));
        let piece = after.blocks@[ids[i] as int];
        assert(piece@.successors == seq![next]);
    }
    assert forall|i: int| 0 <= i < ids.len() implies {
        let held = safepoints_in(kinds, after.blocks@[#[trigger] ids[i] as int].stmts@);
        if lies_on_cycle(before, b) {
            held == if i < ids.len() - 1 {
                1nat
            } else {
                0nat
            }
        } else if i == ids.len() - 1 {
            held < before.halt_check_every
        } else if i == 0 {
            held <= before.halt_check_every
        } else {
            held == before.halt_check_every
        }
    } by {
        halt_laws::lemma_piece_counts(kinds, stmts, first, every, i);
        lemma_safepoints(kinds, ps[i]);
    }
    let last = ids[ids.len() - 1];
    assert(last < after.blocks@.len());
    assert(after.blocks@[last as int]@.successors == before@[b as int].successors);
}

/// What a walk brings along to its last block, where it starts behind the first `k` statements
/// of its first block: the safepoints of the blocks in front of the last one, without those on
/// cycles, each of which has a halt check of its own.
pub open spec fn brought(ir: ExecIrBuilder, q: Seq<usize>, k: int) -> nat
    decreases q.len(),
{
    if q.len() <= 1 {
        0
    } else {
        let stmts = ir.blocks@[q[q.len() - 2] as int].stmts@;
        brought(ir, q.drop_last(), k) + if lies_on_cycle(ir, q[q.len() - 2]) {
            0
        } else if q.len() == 2 {
            safepoints_in(ir.stmts@, stmts.skip(k))
        } else {
            safepoints_in(ir.stmts@, stmts)
        }
    }
}

/// The walk `q` through the function, from behind the first `k` statements of its first block
/// on, meets no halt check that was inserted outside of cycles: the blocks between the first
/// and the last one are as they were, and nothing was inserted into what is left of the first
/// one. Where the walk does not start with its first block, it starts behind a halt check.
pub open spec fn is_unchecked(
    before: ExecIrBuilder,
    after: ExecIrBuilder,
    q: Seq<usize>,
    k: int,
) -> bool {
    &&& is_walk(before, q)
    &&& 0 <= k <= before.blocks@[q[0] as int].stmts@.len()
    &&& k > 0 ==> q.len() > 1 && !lies_on_cycle(before, q[0])
    &&& k > 0 ==> exists|z: int|
        0 <= z < after.blocks@.len() && (#[trigger] after.blocks@[z]).stmts@
            == before.blocks@[q[0] as int].stmts@.skip(k) && after.blocks@[z].successors@
            == before.blocks@[q[0] as int].successors@
    &&& forall|i: int|
        (if k > 0 {
            1int
        } else {
            0int
        }) <= i < q.len() - 1 ==> lies_on_cycle(before, #[trigger] q[i])
            || after.blocks@[q[i] as int]@ == before.blocks@[q[i] as int]@
}

/// A halt check comes no earlier than some path calls for: where a block outside of cycles is
/// cut, there is a walk to it that meets no halt check outside of cycles and brings so many
/// safepoints along that, with those in front of the first cut, they are as many as the
/// function was built with.
pub proof fn halt_checks_are_called_for(
    before: ExecIrBuilder,
    after: ExecIrBuilder,
    b: usize,
)
    requires
        before.wf(),
        before.halt_check_every <= usize::MAX,
        exists|ir: &mut ExecIrBuilder|
            *ir == before && *final(ir) == after && #[trigger] call_ensures(
                halt_check_pass::insert_halt_checks,
                (ir,),
                (),
            ),
        b < before.blocks@.len(),
        !lies_on_cycle(before, b),
        after.blocks@[b as int].successors@ != before.blocks@[b as int].successors@,
    ensures
        exists|q: Seq<usize>, k: int| #[trigger]
            is_unchecked(before, after, q, k) && q.last() == b && brought(before, q, k)
                + safepoints_in(before.stmts@, after.blocks@[b as int].stmts@)
                == before.halt_check_every,
{
    let n = before.halt_check_every as nat;
    let kinds = before.stmts@;
    let (rin, base, owner) = lemma_witness(before, after);
    lemma_cycle(before, b);
    halt_laws::lemma_owner_self(before@, after@, kinds, n, rin, base, owner, b);
    halt_laws::lemma_is_piece(before@, after@, kinds, n, rin, base, owner, b as int);
    let stmts = before@[b as int].stmts;
    let ps = halt_spec::block_pieces(before@, kinds, n, rin, b);
    assert(halt_spec::counts_down(before@, kinds, n, rin, b));
    halt_laws::lemma_piece_counts(kinds, stmts, rin[b as int], n, 0);
    assert(b < after.blocks@.len());
    assert(after@[b as int] == after.blocks@[b as int]@);
    assert(ps.len() > 1) by {
        if ps.len() == 1 {
            assert(after@[b as int].successors == before@[b as int].successors);
        }
    }
    lemma_safepoints(kinds, ps[0]);
    let (q, k) = lemma_called_for(before, after, rin, base, owner, b);
    assert(is_unchecked(before, after, q, k));
}

/// The blocks between two that reach each other lie on a cycle.
proof fn lemma_between(e: graph::Edges, p: Seq<usize>, i: int)
    requires
        graph::is_path(e, p),
        p.len() > 1,
        graph::reaches(e, p.last(), p[0]),
        0 <= i < p.len(),
    ensures
        graph::on_cycle(e, p[i]),
{
    reveal(graph::reaches);
    let back = choose|q: Seq<usize>| #[trigger]
        graph::is_path(e, q) && q[0] == p.last() && q.last() == p[0];
    graph::lemma_join_paths(e, p, back);
    let round = p + back.drop_first();
    assert(round[i] == p[i]);
    graph::cycle_is_mutually_reachable(e, round, i, i);
}

/// One more block on a walk.
proof fn lemma_brought_push(ir: ExecIrBuilder, q: Seq<usize>, k: int, v: usize)
    requires
        q.len() > 0,
    ensures
        brought(ir, q.push(v), k) == brought(ir, q, k) + if lies_on_cycle(ir, q.last()) {
            0
        } else if q.len() == 1 {
            safepoints_in(ir.stmts@, ir.blocks@[q.last() as int].stmts@.skip(k))
        } else {
            safepoints_in(ir.stmts@, ir.blocks@[q.last() as int].stmts@)
        },
{
    assert(q.push(v).drop_last() =~= q);
}

/// Walking on along a cycle brings nothing more along.
proof fn lemma_brought_along(ir: ExecIrBuilder, q: Seq<usize>, k: int, r: Seq<usize>)
    requires
        q.len() > 0,
        r.len() > 0,
        forall|i: int| 0 <= i < r.len() - 1 ==> lies_on_cycle(ir, #[trigger] r[i]),
    ensures
        brought(ir, q + r, k) == brought(ir, q.push(r[0]), k),
    decreases r.len(),
{
    if r.len() == 1 {
        assert(q + r =~= q.push(r[0]));
    } else {
        let s = r.drop_last();
        assert forall|i: int| 0 <= i < s.len() - 1 implies lies_on_cycle(ir, #[trigger] s[i]) by {
            assert(s[i] == r[i]);
        }
        lemma_brought_along(ir, q, k, s);
        assert(lies_on_cycle(ir, r[r.len() - 2]));
        assert((q + s).last() == r[r.len() - 2]);
        lemma_brought_push(ir, q + s, k, r.last());
        assert((q + s).push(r.last()) =~= q + r);
    }
}

/// An unchecked walk goes on to a block behind it, and along the cycle of that block.
proof fn lemma_walk_on(
    before: ExecIrBuilder,
    after: ExecIrBuilder,
    q: Seq<usize>,
    k: int,
    r: Seq<usize>,
)
    requires
        is_unchecked(before, after, q, k) || (k > 0 && q.len() == 1 && q[0] < before.blocks@.len()
            && k <= before.blocks@[q[0] as int].stmts@.len() && !lies_on_cycle(before, q[0])
            && exists|z: int|
            0 <= z < after.blocks@.len() && (#[trigger] after.blocks@[z]).stmts@
                == before.blocks@[q[0] as int].stmts@.skip(k) && after.blocks@[z].successors@
                == before.blocks@[q[0] as int].successors@),
        is_walk(before, r),
        before.blocks@[q.last() as int].successors@.contains(r[0]),
        forall|i: int| 0 <= i < r.len() - 1 ==> lies_on_cycle(before, #[trigger] r[i]),
        k > 0 && q.len() == 1 || lies_on_cycle(before, q.last())
            || after.blocks@[q.last() as int]@ == before.blocks@[q.last() as int]@,
    ensures
        is_unchecked(before, after, q + r, k),
{
    let w = q + r;
    assert forall|i: int| 0 <= i < w.len() implies #[trigger] w[i] < before.blocks@.len() by {
        if i < q.len() {
            assert(w[i] == q[i]);
        } else {
            assert(w[i] == r[i - q.len()]);
        }
    }
    assert forall|i: int| 0 <= i < w.len() - 1 implies before.blocks@[#[trigger] w[i] as int].successors@.contains(
    w[i + 1]) by {
        if i < q.len() - 1 {
            assert(w[i] == q[i] && w[i + 1] == q[i + 1]);
        } else if i >= q.len() {
            assert(w[i] == r[i - q.len()] && w[i + 1] == r[i + 1 - q.len()]);
        }
    }
    assert forall|i: int|
        (if k > 0 {
            1int
        } else {
            0int
        }) <= i < w.len() - 1 implies lies_on_cycle(before, #[trigger] w[i])
        || after.blocks@[w[i] as int]@ == before.blocks@[w[i] as int]@ by {
        if i < q.len() - 1 {
            assert(w[i] == q[i]);
        } else if i >= q.len() {
            assert(w[i] == r[i - q.len()]);
        } else {
            assert(w[i] == q.last());
        }
    }
}

/// Where the last piece of a block stands in the block.
proof fn lemma_last_piece(kinds: Seq<StmtData>, stmts: Seq<Stmt>, remaining: nat, n: nat) -> (k:
    int)
    ensures
        0 <= k <= stmts.len(),
        halt_state::pieces(kinds, stmts, remaining, n).len() > 1 ==> k > 0,
        halt_state::pieces(kinds, stmts, remaining, n).last() == stmts.skip(k),
    decreases stmts.len(),
{
    let ps = halt_state::pieces(kinds, stmts, remaining, n);
    assert(stmts.skip(0) =~= stmts);
    match halt_state::first_cut(kinds, stmts, remaining) {
        Some(at) => {
            if 0 < at <= stmts.len() {
                let j = lemma_last_piece(kinds, stmts.skip(at as int), n, n);
                let rest = halt_state::pieces(kinds, stmts.skip(at as int), n, n);
                lemma_first_piece(kinds, stmts.skip(at as int), n, n);
                assert(ps.last() == rest.last());
                assert(stmts.skip(at as int).skip(j) =~= stmts.skip(at + j));
                at + j
            } else {
                0
            }
        },
        None => 0,
    }
}

/// A walk that brings along what the countdown of the block `y` has used up.
proof fn lemma_called_for(
    before: ExecIrBuilder,
    after: ExecIrBuilder,
    rin: Seq<nat>,
    base: Seq<int>,
    owner: Seq<usize>,
    y: usize,
) -> (w: (Seq<usize>, int))
    requires
        before.wf(),
        halt_spec::are_countdowns(before@, before.stmts@, before.halt_check_every as nat, rin),
        halt_spec::is_broken_down(
            before@,
            after@,
            before.stmts@,
            before.halt_check_every as nat,
            rin,
            base,
            owner,
        ),
        y < before.blocks@.len(),
    ensures
        is_unchecked(before, after, w.0, w.1),
        w.0.last() == y,
        brought(before, w.0, w.1) + rin[y as int] == before.halt_check_every,
    decreases halt_laws::ancestors(before@, y).len(),
{
    let n = before.halt_check_every as nat;
    let kinds = before.stmts@;
    let e = ir::flow(before@);
    assert(before.blocks@.len() == before.blocks.len());
    assert(halt_spec::counts_down(before@, kinds, n, rin, y));
    if rin[y as int] == n {
        let q = seq![y];
        assert(is_unchecked(before, after, q, 0));
        (q, 0)
    } else {
        let p = choose|p: usize| #[trigger]
            halt_spec::enters(e, p, y) && rin[y as int] == halt_spec::leaving(
                before@,
                kinds,
                n,
                rin,
                p,
            );
        halt_laws::lemma_fewer_ancestors(before@, p, y);
        let c = choose|c: usize| #[trigger] e(p, c) && graph::mutually_reachable(e, c, y);
        scc_graph::lemma_flow_range(before@, kinds, p, c);
        // From the block that control goes on to, along its cycle.
        let r = lemma_way(before, c, y);
        let (q, k) = lemma_called_for(before, after, rin, base, owner, p);
        lemma_cycle(before, p);
        assert(halt_spec::counts_down(before@, kinds, n, rin, p));
        assert(q[q.len() - 1] == p);
        if graph::on_cycle(e, p) {
            lemma_walk_on(before, after, q, k, r);
            lemma_brought_along(before, q, k, r);
            lemma_brought_push(before, q, k, r[0]);
            assert((q + r).last() == y);
            (q + r, k)
        } else {
            let stmts = before@[p as int].stmts;
            let ps = halt_spec::block_pieces(before@, kinds, n, rin, p);
            halt_laws::lemma_piece_counts(kinds, stmts, rin[p as int], n, ps.len() - 1);
            lemma_first_piece(kinds, stmts, rin[p as int], n);
            lemma_safepoints(kinds, ps.last());
            assert(halt_spec::stands(before@, after@, p, base[p as int], ps));
            if ps.len() == 1 {
                halt_laws::lemma_one_piece(before@, kinds, n, rin, p);
                halt_laws::lemma_owner_self(before@, after@, kinds, n, rin, base, owner, p);
                halt_laws::lemma_is_piece(
                    before@,
                    after@,
                    kinds,
                    n,
                    rin,
                    base,
                    owner,
                    p as int,
                );
                assert(after@[p as int] =~= before@[p as int]);
                assert(after@[p as int] == after.blocks@[p as int]@);
                if q.len() == 1 {
                    assert(k == 0);
                    assert(stmts.skip(0) =~= stmts);
                }
                lemma_walk_on(before, after, q, k, r);
                lemma_brought_along(before, q, k, r);
                lemma_brought_push(before, q, k, r[0]);
                assert((q + r).last() == y);
                (q + r, k)
            } else {
                let j = lemma_last_piece(kinds, stmts, rin[p as int], n);
                let z = halt_spec::piece_id(p as int, base[p as int], ps.len() - 1);
                assert(after@[z] == halt_spec::piece(
                    before@[p as int],
                    p as int,
                    base[p as int],
                    ps,
                    ps.len() - 1,
                ));
                assert(after@[z] == after.blocks@[z]@);
                assert(after.blocks@[z].stmts@ == before.blocks@[p as int].stmts@.skip(j)
                    && after.blocks@[z].successors@ == before.blocks@[p as int].successors@);
                let s = seq![p];
                lemma_walk_on(before, after, s, j, r);
                lemma_brought_along(before, s, j, r);
                lemma_brought_push(before, s, j, r[0]);
                assert((s + r).last() == y);
                (s + r, j)
            }
        }
    }
}

/// A walk from `c` to `y`, of which all blocks but the last lie on a cycle.
proof fn lemma_way(ir: ExecIrBuilder, c: usize, y: usize) -> (r: Seq<usize>)
    requires
        ir.wf(),
        c < ir.blocks@.len(),
        graph::mutually_reachable(ir::flow(ir@), c, y),
    ensures
        is_walk(ir, r),
        r[0] == c,
        r.last() == y,
        forall|i: int| 0 <= i < r.len() - 1 ==> lies_on_cycle(ir, #[trigger] r[i]),
{
    let e = ir::flow(ir@);
    if c == y {
        seq![c]
    } else {
        reveal(graph::reaches);
        let r = choose|p: Seq<usize>| #[trigger]
            graph::is_path(e, p) && p[0] == c && p.last() == y;
        lemma_path(ir, r);
        assert forall|i: int| 0 <= i < r.len() - 1 implies lies_on_cycle(ir, #[trigger] r[i]) by {
            lemma_between(e, r, i);
            lemma_cycle(ir, r[i]);
        }
        r
    }
}

/// A halt check comes no later than any path calls for: no walk that meets no halt check outside
/// of cycles brings so many safepoints along to a block outside of cycles that, with those in
/// front of the first cut, they are more than the function was built with. Where the block was
/// not cut, they are fewer, with all of its own.
///
/// A cycle on the way does not start the count anew, though its safepoints have halt checks.
pub proof fn halt_checks_come_in_time(
    before: ExecIrBuilder,
    after: ExecIrBuilder,
    b: usize,
    q: Seq<usize>,
    k: int,
)
    requires
        before.wf(),
        before.halt_check_every <= usize::MAX,
        exists|ir: &mut ExecIrBuilder|
            *ir == before && *final(ir) == after && #[trigger] call_ensures(
                halt_check_pass::insert_halt_checks,
                (ir,),
                (),
            ),
        b < before.blocks@.len(),
        !lies_on_cycle(before, b),
        is_unchecked(before, after, q, k),
        q.last() == b,
    ensures
        brought(before, q, k) + safepoints_in(before.stmts@, after.blocks@[b as int].stmts@)
            <= before.halt_check_every,
        after.blocks@[b as int].successors@ == before.blocks@[b as int].successors@ ==> brought(
            before,
            q,
            k,
        ) + safepoints_in(before.stmts@, before.blocks@[b as int].stmts@) < before.halt_check_every,
{
    let n = before.halt_check_every as nat;
    let kinds = before.stmts@;
    let (rin, base, owner) = lemma_witness(before, after);
    lemma_cycle(before, b);
    lemma_in_time(before, after, rin, base, owner, q, k);
    halt_laws::lemma_owner_self(before@, after@, kinds, n, rin, base, owner, b);
    halt_laws::lemma_is_piece(before@, after@, kinds, n, rin, base, owner, b as int);
    let stmts = before@[b as int].stmts;
    let ps = halt_spec::block_pieces(before@, kinds, n, rin, b);
    assert(halt_spec::counts_down(before@, kinds, n, rin, b));
    halt_laws::lemma_piece_counts(kinds, stmts, rin[b as int], n, 0);
    lemma_safepoints(kinds, ps[0]);
    assert(b < after.blocks@.len());
    assert(after@[b as int] == after.blocks@[b as int]@);
    if after.blocks@[b as int].successors@ == before.blocks@[b as int].successors@ {
        if ps.len() > 1 {
            lemma_not_last(before, after, rin, base, owner, b as int);
        }
        halt_laws::lemma_one_piece(before@, kinds, n, rin, b);
    }
}

/// A piece that is not the last one does not end as its block did, nor as any other block.
proof fn lemma_not_last(
    before: ExecIrBuilder,
    after: ExecIrBuilder,
    rin: Seq<nat>,
    base: Seq<int>,
    owner: Seq<usize>,
    z: int,
)
    requires
        before.wf(),
        halt_spec::is_broken_down(
            before@,
            after@,
            before.stmts@,
            before.halt_check_every as nat,
            rin,
            base,
            owner,
        ),
        0 <= z < after.blocks@.len(),
        halt_laws::place_of(base, owner, z) < halt_spec::block_pieces(
            before@,
            before.stmts@,
            before.halt_check_every as nat,
            rin,
            owner[z],
        ).len() - 1,
    ensures
        forall|b: int| 0 <= b < before.blocks@.len() ==> after.blocks@[z].successors@ != (
        #[trigger] before.blocks@[b]).successors@,
{
    let n = before.halt_check_every as nat;
    let kinds = before.stmts@;
    assert(before.blocks@.len() == before.blocks.len() && after.blocks@.len()
        == after.blocks.len());
    halt_laws::lemma_is_piece(before@, after@, kinds, n, rin, base, owner, z);
    let o = owner[z];
    let i = halt_laws::place_of(base, owner, z);
    let ps = halt_spec::block_pieces(before@, kinds, n, rin, o);
    assert(halt_spec::stands(before@, after@, o, base[o as int], ps));
    let next = halt_spec::piece_id(o as int, base[o as int], i + 1);
    assert(before.blocks@.len() <= next < after.blocks@.len());
    assert(after@[z] == after.blocks@[z]@);
    assert(after@[z].successors == seq![next as usize]);
    assert forall|b: int| 0 <= b < before.blocks@.len() implies after.blocks@[z].successors@ != (
    #[trigger] before.blocks@[b]).successors@ by {
        if after.blocks@[z].successors@ == before.blocks@[b].successors@ {
            assert(before@[b].successors[0] == next);
            assert(before@[b].successors[0] < before@.len());
        }
    }
}

/// What a piece holds, its block holds.
proof fn lemma_piece_of_block(ps: Seq<Seq<Stmt>>, i: int, j: int) -> (at: int)
    requires
        0 <= i < ps.len(),
        0 <= j < ps[i].len(),
    ensures
        0 <= at < halt_laws::joined(ps).len(),
        halt_laws::joined(ps)[at] == ps[i][j],
    decreases ps.len(),
{
    if i == 0 {
        j
    } else {
        let at = lemma_piece_of_block(ps.drop_first(), i - 1, j);
        ps[0].len() + at
    }
}

/// What is left of a block behind a halt check brings along no more than the countdown allows.
proof fn lemma_rest_counts(
    before: ExecIrBuilder,
    after: ExecIrBuilder,
    rin: Seq<nat>,
    base: Seq<int>,
    owner: Seq<usize>,
    p: usize,
    k: int,
    z: int,
)
    requires
        before.wf(),
        halt_spec::are_countdowns(before@, before.stmts@, before.halt_check_every as nat, rin),
        halt_spec::is_broken_down(
            before@,
            after@,
            before.stmts@,
            before.halt_check_every as nat,
            rin,
            base,
            owner,
        ),
        p < before.blocks@.len(),
        !graph::on_cycle(ir::flow(before@), p),
        0 <= k <= before.blocks@[p as int].stmts@.len(),
        0 <= z < after.blocks@.len(),
        after.blocks@[z].stmts@ == before.blocks@[p as int].stmts@.skip(k),
        after.blocks@[z].successors@ == before.blocks@[p as int].successors@,
    ensures
        halt_spec::leaving(before@, before.stmts@, before.halt_check_every as nat, rin, p)
            + safepoints_in(before.stmts@, before.blocks@[p as int].stmts@.skip(k))
            <= before.halt_check_every,
{
    let n = before.halt_check_every as nat;
    let kinds = before.stmts@;
    let stmts = before@[p as int].stmts;
    let rest = stmts.skip(k);
    let ps = halt_spec::block_pieces(before@, kinds, n, rin, p);
    assert(halt_spec::counts_down(before@, kinds, n, rin, p));
    lemma_first_piece(kinds, stmts, rin[p as int], n);
    halt_laws::lemma_piece_counts(kinds, stmts, rin[p as int], n, ps.len() - 1);
    if safepoints_in(kinds, rest) > 0 {
        // The safepoint stands in no other block, so what is left is the last piece.
        let j = lemma_finds(kinds, rest);
        let s = rest[j];
        assert(stmts[k + j] == s);
        halt_laws::lemma_is_piece(before@, after@, kinds, n, rin, base, owner, z);
        let o = owner[z];
        let i = halt_laws::place_of(base, owner, z);
        let qs = halt_spec::block_pieces(before@, kinds, n, rin, o);
        let whole = before@[o as int].stmts;
        assert(halt_spec::counts_down(before@, kinds, n, rin, o));
        if graph::on_cycle(ir::flow(before@), o) {
            halt_laws::pieces_make_up_the_block(kinds, whole, 1, 1);
        } else {
            halt_laws::pieces_make_up_the_block(kinds, whole, rin[o as int], n);
        }
        assert(after@[z] == after.blocks@[z]@);
        assert(qs[i][j] == s);
        let at = lemma_piece_of_block(qs, i, j);
        assert(before@[o as int].stmts[at] == before@[p as int].stmts[k + j]);
        assert(o == p);
        if i < qs.len() - 1 {
            lemma_not_last(before, after, rin, base, owner, z);
        }
        assert(ps.last() == rest);
        lemma_safepoints(kinds, rest);
    }
}

/// No unchecked walk brings along more than the countdown of its last block has used up.
proof fn lemma_in_time(
    before: ExecIrBuilder,
    after: ExecIrBuilder,
    rin: Seq<nat>,
    base: Seq<int>,
    owner: Seq<usize>,
    q: Seq<usize>,
    k: int,
)
    requires
        before.wf(),
        halt_spec::are_countdowns(before@, before.stmts@, before.halt_check_every as nat, rin),
        halt_spec::is_broken_down(
            before@,
            after@,
            before.stmts@,
            before.halt_check_every as nat,
            rin,
            base,
            owner,
        ),
        is_unchecked(before, after, q, k),
    ensures
        brought(before, q, k) + rin[q.last() as int] <= before.halt_check_every,
    decreases q.len(),
{
    let n = before.halt_check_every as nat;
    let kinds = before.stmts@;
    let e = ir::flow(before@);
    let y = q.last();
    assert(q[q.len() - 1] == y);
    assert(halt_spec::counts_down(before@, kinds, n, rin, y));
    if q.len() > 1 {
        let w = q.drop_last();
        let p = w.last();
        assert(q[q.len() - 2] == p);
        assert(before.blocks@[q[q.len() - 2] as int].successors@.contains(q[q.len() - 2 + 1]));
        assert(e(p, y));
        assert(halt_spec::counts_down(before@, kinds, n, rin, p));
        lemma_cycle(before, p);
        graph::reaches_by_edge(e, p, y);
        graph::reaches_self(e, y);
        if !graph::mutually_reachable(e, p, y) {
            assert(e(p, y) && graph::mutually_reachable(e, y, y));
            assert(halt_spec::enters(e, p, y));
        } else {
            assert(e(p, y) && graph::reaches(e, y, p));
            assert(graph::on_cycle(e, p));
            halt_laws::lemma_component_countdown(before@, kinds, n, rin, p, y);
            graph::mutual_reachability_is_equivalence(e, p, y, p);
            halt_laws::lemma_component_countdown(before@, kinds, n, rin, y, p);
        }
        if q.len() == 2 && k > 0 {
            let z = choose|z: int|
                0 <= z < after.blocks@.len() && (#[trigger] after.blocks@[z]).stmts@
                    == before.blocks@[q[0] as int].stmts@.skip(k) && after.blocks@[z].successors@
                    == before.blocks@[q[0] as int].successors@;
            assert(q[0] == p);
            lemma_rest_counts(before, after, rin, base, owner, p, k, z);
            assert(brought(before, w, k) == 0);
        } else {
            assert(is_unchecked(before, after, w, k)) by {
                assert(w[0] == q[0]);
                assert forall|i: int| 0 <= i < w.len() implies #[trigger] w[i]
                    < before.blocks@.len() by {
                    assert(w[i] == q[i]);
                }
                assert forall|i: int| 0 <= i < w.len() - 1 implies before.blocks@[#[trigger] w[i] as int].successors@.contains(
                w[i + 1]) by {
                    assert(w[i] == q[i] && w[i + 1] == q[i + 1]);
                }
                assert forall|i: int|
                    (if k > 0 {
                        1int
                    } else {
                        0int
                    }) <= i < w.len() - 1 implies lies_on_cycle(before, #[trigger] w[i])
                    || after.blocks@[w[i] as int]@ == before.blocks@[w[i] as int]@ by {
                    assert(w[i] == q[i]);
                }
            }
            lemma_in_time(before, after, rin, base, owner, w, k);
            if !graph::on_cycle(e, p) {
                let stmts = before@[p as int].stmts;
                let ps = halt_spec::block_pieces(before@, kinds, n, rin, p);
                assert(after.blocks@[q[q.len() - 2] as int]@ == before.blocks@[p as int]@);
                halt_laws::lemma_owner_self(before@, after@, kinds, n, rin, base, owner, p);
                halt_laws::lemma_is_piece(
                    before@,
                    after@,
                    kinds,
                    n,
                    rin,
                    base,
                    owner,
                    p as int,
                );
                assert(p < after.blocks@.len());
                if ps.len() > 1 {
                    lemma_not_last(before, after, rin, base, owner, p as int);
                }
                halt_laws::lemma_one_piece(before@, kinds, n, rin, p);
                halt_laws::lemma_piece_counts(kinds, stmts, rin[p as int], n, 0);
                lemma_safepoints(kinds, stmts);
                assert(stmts.skip(0) =~= stmts);
            }
        }
    }
}

} // verus!
