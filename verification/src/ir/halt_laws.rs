//! What the insertion of halt checks achieves, and what it leaves alone.

use vstd::prelude::*;
use crate::ir;
use crate::ir::graph;
use crate::ir::graph::mutually_reachable;
use crate::ir::halt_spec;
use crate::ir::halt_state;
use crate::ir::scc_graph;
use crate::ir::{BlockView, Stmt, StmtData};

verus! {

/// How many of `stmts` are safepoints.
pub open spec fn safepoints(kinds: Seq<StmtData>, stmts: Seq<Stmt>) -> nat
    decreases stmts.len(),
{
    if stmts.len() == 0 {
        0
    } else {
        safepoints(kinds, stmts.drop_first()) + if ir::is_safepoint(kinds, stmts[0]) {
            1nat
        } else {
            0nat
        }
    }
}

/// How many safepoints the walk `p` passes.
pub open spec fn safepoints_on(blocks: Seq<BlockView>, kinds: Seq<StmtData>, p: Seq<usize>) -> nat
    decreases p.len(),
{
    if p.len() == 0 {
        0
    } else {
        safepoints(kinds, blocks[p[0] as int].stmts) + safepoints_on(blocks, kinds, p.drop_first())
    }
}

/// The statements of the pieces, one behind the other.
pub open spec fn joined(ps: Seq<Seq<Stmt>>) -> Seq<Stmt>
    decreases ps.len(),
{
    if ps.len() == 0 {
        Seq::empty()
    } else {
        ps[0] + joined(ps.drop_first())
    }
}

/// A countdown of `remaining` and the safepoints that it takes.
proof fn lemma_cut_counts(kinds: Seq<StmtData>, stmts: Seq<Stmt>, remaining: nat, n: nat)
    requires
        remaining > 0,
    ensures
        match halt_state::first_cut(kinds, stmts, remaining) {
            None => {
                &&& safepoints(kinds, stmts) < remaining
                &&& halt_state::countdown_after(kinds, stmts, remaining, n) == remaining
                    - safepoints(kinds, stmts)
            },
            Some(at) => {
                &&& 0 < at <= stmts.len()
                &&& safepoints(kinds, stmts.take(at as int)) == remaining
                &&& ir::is_safepoint(kinds, stmts[at - 1])
                &&& halt_state::countdown_after(kinds, stmts, remaining, n)
                    == halt_state::countdown_after(kinds, stmts.skip(at as int), n, n)
            },
        },
    decreases stmts.len(),
{
    if stmts.len() > 0 {
        let hit = ir::is_safepoint(kinds, stmts[0]);
        if hit && remaining <= 1 {
            assert(stmts.take(1).drop_first() =~= Seq::empty());
            assert(safepoints(kinds, stmts.take(1).drop_first()) == 0);
            assert(stmts.skip(1) =~= stmts.drop_first());
        } else {
            let next = if hit {
                (remaining - 1) as nat
            } else {
                remaining
            };
            lemma_cut_counts(kinds, stmts.drop_first(), next, n);
            match halt_state::first_cut(kinds, stmts.drop_first(), next) {
                Some(at) => {
                    assert(stmts.take(at as int + 1).drop_first() =~= stmts.drop_first().take(at as int));
                    assert(stmts.skip(at as int + 1) =~= stmts.drop_first().skip(at as int));
                },
                None => {},
            }
        }
    }
}

/// The safepoints of the pieces of a block: every piece that a halt check ends uses
/// its countdown up, and the last one does not.
pub(crate) proof fn lemma_piece_counts(
    kinds: Seq<StmtData>,
    stmts: Seq<Stmt>,
    remaining: nat,
    n: nat,
    i: int,
)
    requires
        remaining > 0,
        n > 0,
        0 <= i < halt_state::pieces(kinds, stmts, remaining, n).len(),
    ensures
        ({
            let ps = halt_state::pieces(kinds, stmts, remaining, n);
            let start = if i == 0 {
                remaining
            } else {
                n
            };
            if i < ps.len() - 1 {
                &&& safepoints(kinds, ps[i]) == start
                &&& ps[i].len() > 0
                &&& ir::is_safepoint(kinds, ps[i].last())
            } else {
                &&& safepoints(kinds, ps[i]) < start
                &&& halt_state::countdown_after(kinds, stmts, remaining, n) == start - safepoints(
                    kinds,
                    ps[i],
                )
            }
        }),
    decreases stmts.len(),
{
    lemma_cut_counts(kinds, stmts, remaining, n);
    match halt_state::first_cut(kinds, stmts, remaining) {
        Some(at) => {
            let rest = halt_state::pieces(kinds, stmts.skip(at as int), n, n);
            let ps = halt_state::pieces(kinds, stmts, remaining, n);
            assert(ps == seq![stmts.take(at as int)] + rest);
            assert(rest.len() > 0);
            if i > 0 {
                lemma_piece_counts(kinds, stmts.skip(at as int), n, n, i - 1);
                assert(ps[i] == rest[i - 1]);
            } else {
                assert(ps[0] == stmts.take(at as int));
                assert(ps[0].last() == stmts[at - 1]);
            }
        },
        None => {},
    }
}

/// The pieces of a block, one behind the other, are the block.
pub proof fn pieces_make_up_the_block(
    kinds: Seq<StmtData>,
    stmts: Seq<Stmt>,
    remaining: nat,
    n: nat,
)
    ensures
        joined(halt_state::pieces(kinds, stmts, remaining, n)) == stmts,
    decreases stmts.len(),
{
    let ps = halt_state::pieces(kinds, stmts, remaining, n);
    match halt_state::first_cut(kinds, stmts, remaining) {
        Some(at) => {
            if 0 < at <= stmts.len() {
                let rest = halt_state::pieces(kinds, stmts.skip(at as int), n, n);
                pieces_make_up_the_block(kinds, stmts.skip(at as int), n, n);
                assert(ps.drop_first() =~= rest);
                assert(ps[0] == stmts.take(at as int));
                assert(stmts.take(at as int) + stmts.skip(at as int) =~= stmts);
            } else {
                assert(ps.drop_first() =~= Seq::empty());
                assert(joined(ps.drop_first()) =~= Seq::empty());
                assert(joined(ps) =~= stmts);
            }
        },
        None => {
            assert(ps.drop_first() =~= Seq::empty());
            assert(joined(ps.drop_first()) =~= Seq::empty());
            assert(joined(ps) =~= stmts);
        },
    }
}

/// Where the block `x` stands among the pieces of its owner.
pub open spec fn place_of(base: Seq<int>, owner: Seq<usize>, x: int) -> int {
    if x == owner[x] {
        0
    } else {
        x - base[owner[x] as int] + 1
    }
}

/// The countdown at the start of the block `x`.
pub open spec fn entering(
    before: Seq<BlockView>,
    n: nat,
    rin: Seq<nat>,
    base: Seq<int>,
    owner: Seq<usize>,
    x: int,
) -> nat {
    let b = owner[x];
    if graph::on_cycle(ir::flow(before), b) || place_of(base, owner, x) == 0 {
        rin[b as int]
    } else {
        n
    }
}

/// A block of the result is the piece of its owner at its place.
pub(crate) proof fn lemma_is_piece(
    before: Seq<BlockView>,
    after: Seq<BlockView>,
    kinds: Seq<StmtData>,
    n: nat,
    rin: Seq<nat>,
    base: Seq<int>,
    owner: Seq<usize>,
    x: int,
)
    requires
        halt_spec::is_broken_down(before, after, kinds, n, rin, base, owner),
        0 <= x < after.len(),
    ensures
        ({
            let b = owner[x];
            let i = place_of(base, owner, x);
            let ps = halt_spec::block_pieces(before, kinds, n, rin, b);
            &&& b < before.len()
            &&& 0 <= i < ps.len()
            &&& x == halt_spec::piece_id(b as int, base[b as int], i)
            &&& after[x] == halt_spec::piece(before[b as int], b as int, base[b as int], ps, i)
        }),
{
    assert(halt_spec::is_piece_of(before, kinds, n, rin, base, x, owner[x]));
    let b = owner[x];
    let i = place_of(base, owner, x);
    let ps = halt_spec::block_pieces(before, kinds, n, rin, b);
    assert(halt_spec::stands(before, after, b, base[b as int], ps));
    assert(after[halt_spec::piece_id(b as int, base[b as int], i)] == halt_spec::piece(
        before[b as int],
        b as int,
        base[b as int],
        ps,
        i,
    ));
}

/// The blocks of one component start with the same countdown.
pub(crate) proof fn lemma_component_countdown(
    before: Seq<BlockView>,
    kinds: Seq<StmtData>,
    n: nat,
    rin: Seq<nat>,
    b: usize,
    c: usize,
)
    requires
        halt_spec::are_countdowns(before, kinds, n, rin),
        b < before.len(),
        c < before.len(),
        mutually_reachable(ir::flow(before), b, c),
    ensures
        rin[b as int] <= rin[c as int],
{
    let e = ir::flow(before);
    assert(halt_spec::counts_down(before, kinds, n, rin, b));
    assert(halt_spec::counts_down(before, kinds, n, rin, c));
    if rin[c as int] != n {
        let p = choose|p: usize| #[trigger]
            halt_spec::enters(e, p, c) && rin[c as int] == halt_spec::leaving(
                before,
                kinds,
                n,
                rin,
                p,
            );
        let d = choose|d: usize| #[trigger] e(p, d) && mutually_reachable(e, d, c);
        graph::mutual_reachability_is_equivalence(e, d, c, b);
        graph::mutual_reachability_is_equivalence(e, b, c, b);
        graph::mutual_reachability_is_equivalence(e, p, b, c);
        assert(e(p, d) && mutually_reachable(e, d, b));
        assert(halt_spec::enters(e, p, b));
    }
}

/// What one step does to the countdown: where no halt check ends the block `x`, the
/// countdown at the start of a successor is at most what `x` has left of its own.
pub(crate) proof fn lemma_step_counts(
    before: Seq<BlockView>,
    after: Seq<BlockView>,
    kinds: Seq<StmtData>,
    n: nat,
    rin: Seq<nat>,
    base: Seq<int>,
    owner: Seq<usize>,
    x: usize,
    y: usize,
)
    requires
        ir::well_formed(before, kinds),
        n > 0,
        halt_spec::are_countdowns(before, kinds, n, rin),
        halt_spec::is_broken_down(before, after, kinds, n, rin, base, owner),
        ir::flow(after)(x, y),
        !after[x as int].halt_check,
    ensures
        y < before.len(),
        entering(before, n, rin, base, owner, y as int) + safepoints(kinds, after[x as int].stmts)
            <= entering(before, n, rin, base, owner, x as int),
{
    let e = ir::flow(before);
    lemma_is_piece(before, after, kinds, n, rin, base, owner, x as int);
    let b = owner[x as int];
    let i = place_of(base, owner, x as int);
    let ps = halt_spec::block_pieces(before, kinds, n, rin, b);
    assert(halt_spec::counts_down(before, kinds, n, rin, b));
    assert(i == ps.len() - 1);
    assert(after[x as int].successors == before[b as int].successors);
    assert(e(b, y));
    scc_graph::lemma_flow_range(before, kinds, b, y);
    lemma_owner_self(before, after, kinds, n, rin, base, owner, y);
    assert(halt_spec::counts_down(before, kinds, n, rin, y));
    graph::reaches_by_edge(e, b, y);
    if graph::on_cycle(e, b) {
        lemma_piece_counts(kinds, before[b as int].stmts, 1, 1, i);
        if mutually_reachable(e, b, y) {
            lemma_component_countdown(before, kinds, n, rin, y, b);
        } else {
            graph::reaches_self(e, y);
            assert(e(b, y) && mutually_reachable(e, y, y));
            assert(halt_spec::enters(e, b, y));
        }
    } else {
        lemma_piece_counts(kinds, before[b as int].stmts, rin[b as int], n, i);
        assert(!mutually_reachable(e, b, y)) by {
            if mutually_reachable(e, b, y) {
                assert(e(b, y) && graph::reaches(e, y, b));
            }
        }
        graph::reaches_self(e, y);
        assert(e(b, y) && mutually_reachable(e, y, y));
        assert(halt_spec::enters(e, b, y));
    }
}

/// A block that was there before is the first piece of itself.
pub(crate) proof fn lemma_owner_self(
    before: Seq<BlockView>,
    after: Seq<BlockView>,
    kinds: Seq<StmtData>,
    n: nat,
    rin: Seq<nat>,
    base: Seq<int>,
    owner: Seq<usize>,
    y: usize,
)
    requires
        halt_spec::is_broken_down(before, after, kinds, n, rin, base, owner),
        y < before.len(),
    ensures
        owner[y as int] == y,
        place_of(base, owner, y as int) == 0,
{
    assert(halt_spec::is_piece_of(before, kinds, n, rin, base, y as int, owner[y as int]));
    let b = owner[y as int];
    assert(halt_spec::stands(
        before,
        after,
        b,
        base[b as int],
        halt_spec::block_pieces(before, kinds, n, rin, b),
    ));
}

/// A block has at most as many safepoints as its countdown, and fewer where no halt
/// check ends it.
pub(crate) proof fn lemma_block_counts(
    before: Seq<BlockView>,
    after: Seq<BlockView>,
    kinds: Seq<StmtData>,
    n: nat,
    rin: Seq<nat>,
    base: Seq<int>,
    owner: Seq<usize>,
    x: int,
)
    requires
        n > 0,
        halt_spec::are_countdowns(before, kinds, n, rin),
        halt_spec::is_broken_down(before, after, kinds, n, rin, base, owner),
        0 <= x < after.len(),
    ensures
        1 <= entering(before, n, rin, base, owner, x) <= n,
        safepoints(kinds, after[x].stmts) <= entering(before, n, rin, base, owner, x),
        !after[x].halt_check ==> safepoints(kinds, after[x].stmts) < entering(
            before,
            n,
            rin,
            base,
            owner,
            x,
        ),
{
    lemma_is_piece(before, after, kinds, n, rin, base, owner, x);
    let b = owner[x];
    let i = place_of(base, owner, x);
    assert(halt_spec::counts_down(before, kinds, n, rin, b));
    if graph::on_cycle(ir::flow(before), b) {
        lemma_piece_counts(kinds, before[b as int].stmts, 1, 1, i);
    } else {
        lemma_piece_counts(kinds, before[b as int].stmts, rin[b as int], n, i);
    }
}

proof fn lemma_walk_counts(
    before: Seq<BlockView>,
    after: Seq<BlockView>,
    kinds: Seq<StmtData>,
    n: nat,
    rin: Seq<nat>,
    base: Seq<int>,
    owner: Seq<usize>,
    p: Seq<usize>,
)
    requires
        ir::well_formed(before, kinds),
        n > 0,
        halt_spec::are_countdowns(before, kinds, n, rin),
        halt_spec::is_broken_down(before, after, kinds, n, rin, base, owner),
        graph::is_path(ir::flow(after), p),
        p[0] < after.len(),
        forall|i: int| 0 <= i < p.len() - 1 ==> !after[#[trigger] p[i] as int].halt_check,
    ensures
        safepoints_on(after, kinds, p) <= entering(before, n, rin, base, owner, p[0] as int),
        !after[p.last() as int].halt_check ==> safepoints_on(after, kinds, p) < entering(
            before,
            n,
            rin,
            base,
            owner,
            p[0] as int,
        ),
    decreases p.len(),
{
    let f = ir::flow(after);
    lemma_block_counts(before, after, kinds, n, rin, base, owner, p[0] as int);
    let q = p.drop_first();
    if p.len() == 1 {
        assert(safepoints_on(after, kinds, q) == 0);
    } else {
        assert(graph::is_step(f, p, 0));
        lemma_step_counts(before, after, kinds, n, rin, base, owner, p[0], p[1]);
        assert forall|i: int| 0 <= i < q.len() - 1 implies #[trigger] graph::is_step(f, q, i) by {
            assert(graph::is_step(f, p, i + 1));
        }
        assert forall|i: int| 0 <= i < q.len() - 1 implies !after[
        #[trigger] q[i] as int].halt_check by {
            assert(q[i] == p[i + 1]);
        }
        assert(q[0] == p[1] && q.last() == p.last());
        lemma_walk_counts(before, after, kinds, n, rin, base, owner, q);
    }
}

/// On any path that meets no halt check on its way, execution passes at most `n`
/// safepoints, and fewer where the path does not end in a halt check either.
pub proof fn safepoints_between_halt_checks_are_bounded(
    before: Seq<BlockView>,
    after: Seq<BlockView>,
    kinds: Seq<StmtData>,
    n: nat,
    p: Seq<usize>,
)
    requires
        ir::well_formed(before, kinds),
        n > 0,
        halt_spec::checks_inserted(before, after, kinds, n),
        graph::is_path(ir::flow(after), p),
        p[0] < after.len(),
        forall|i: int| 0 <= i < p.len() - 1 ==> !after[#[trigger] p[i] as int].halt_check,
    ensures
        safepoints_on(after, kinds, p) <= n,
        !after[p.last() as int].halt_check ==> safepoints_on(after, kinds, p) < n,
{
    let (rin, base, owner) = choose|rin: Seq<nat>, base: Seq<int>, owner: Seq<usize>|
        halt_spec::are_countdowns(before, kinds, n, rin) && #[trigger] halt_spec::is_broken_down(
            before,
            after,
            kinds,
            n,
            rin,
            base,
            owner,
        );
    lemma_block_counts(before, after, kinds, n, rin, base, owner, p[0] as int);
    lemma_walk_counts(before, after, kinds, n, rin, base, owner, p);
}

/// Every directed cycle meets a halt check, so that execution cannot run forever
/// without giving the runtime a chance to stop it.
pub proof fn every_cycle_meets_a_halt_check(
    before: Seq<BlockView>,
    after: Seq<BlockView>,
    kinds: Seq<StmtData>,
    n: nat,
    p: Seq<usize>,
)
    requires
        ir::well_formed(before, kinds),
        scc_graph::cycles_pass_safepoints(before, kinds),
        n > 0,
        halt_spec::checks_inserted(before, after, kinds, n),
        graph::is_cycle(ir::flow(after), p),
    ensures
        exists|i: int| 0 <= i < p.len() && after[#[trigger] p[i] as int].halt_check,
{
    let e = ir::flow(before);
    let f = ir::flow(after);
    if forall|i: int| 0 <= i < p.len() ==> !after[#[trigger] p[i] as int].halt_check {
        let (rin, base, owner) = choose|rin: Seq<nat>, base: Seq<int>, owner: Seq<usize>|
            halt_spec::are_countdowns(before, kinds, n, rin)
                && #[trigger] halt_spec::is_broken_down(
                before,
                after,
                kinds,
                n,
                rin,
                base,
                owner,
            );
        // Without a halt check, the cycle consists of blocks in one piece.
        assert forall|i: int| 0 <= i < p.len() implies (#[trigger] p[i]) < before.len()
            && after[p[i] as int] == before[p[i] as int] by {
            let k = if i == 0 {
                p.len() - 2
            } else {
                i - 1
            };
            assert(graph::is_step(f, p, k));
            assert(!after[p[k] as int].halt_check);
            lemma_step_counts(before, after, kinds, n, rin, base, owner, p[k], p[k + 1]);
            assert(p[k + 1] == p[i]);
            lemma_owner_self(before, after, kinds, n, rin, base, owner, p[i]);
            lemma_is_piece(before, after, kinds, n, rin, base, owner, p[i] as int);
            assert(!after[p[i] as int].halt_check);
            let ps = halt_spec::block_pieces(before, kinds, n, rin, p[i]);
            assert(ps.len() == 1);
            lemma_one_piece(before, kinds, n, rin, p[i]);
        }
        assert forall|i: int| 0 <= i < p.len() - 1 implies #[trigger] graph::is_step(e, p, i) by {
            assert(graph::is_step(f, p, i));
            assert(p[i] < before.len());
        }
        assert(graph::is_cycle(e, p));
        let i = choose|i: int|
            0 <= i < p.len() && scc_graph::has_safepoint(before[#[trigger] p[i] as int], kinds);
        graph::cycle_is_mutually_reachable(e, p, i, i);
        let b = p[i];
        lemma_owner_self(before, after, kinds, n, rin, base, owner, b);
        lemma_is_piece(before, after, kinds, n, rin, base, owner, b as int);
        lemma_piece_counts(kinds, before[b as int].stmts, 1, 1, 0);
        let j = choose|j: int|
            0 <= j < before[b as int].stmts.len() && ir::is_safepoint(
                kinds,
                #[trigger] before[b as int].stmts[j],
            );
        lemma_has_one(kinds, before[b as int].stmts, j);
        assert(false);
    }
}

/// A block in one piece is as it was.
pub(crate) proof fn lemma_one_piece(
    before: Seq<BlockView>,
    kinds: Seq<StmtData>,
    n: nat,
    rin: Seq<nat>,
    b: usize,
)
    requires
        halt_spec::block_pieces(before, kinds, n, rin, b).len() == 1,
    ensures
        halt_spec::block_pieces(before, kinds, n, rin, b)[0] == before[b as int].stmts,
{
    let ps = halt_spec::block_pieces(before, kinds, n, rin, b);
    let stmts = before[b as int].stmts;
    if graph::on_cycle(ir::flow(before), b) {
        pieces_make_up_the_block(kinds, stmts, 1, 1);
    } else {
        pieces_make_up_the_block(kinds, stmts, rin[b as int], n);
    }
    assert(ps.drop_first() =~= Seq::empty());
    assert(joined(ps.drop_first()) =~= Seq::empty());
    assert(joined(ps) =~= ps[0]);
}

/// A list with a safepoint counts at least one.
pub(crate) proof fn lemma_has_one(kinds: Seq<StmtData>, stmts: Seq<Stmt>, j: int)
    requires
        0 <= j < stmts.len(),
        ir::is_safepoint(kinds, stmts[j]),
    ensures
        safepoints(kinds, stmts) > 0,
    decreases stmts.len(),
{
    if j > 0 {
        lemma_has_one(kinds, stmts.drop_first(), j - 1);
    }
}

/// Halt checks are inserted right behind safepoints, and nowhere else: a block of the
/// result ends as its block did before, or in a halt check behind a safepoint.
pub proof fn halt_checks_follow_safepoints(
    before: Seq<BlockView>,
    after: Seq<BlockView>,
    kinds: Seq<StmtData>,
    n: nat,
    x: int,
)
    requires
        n > 0,
        halt_spec::checks_inserted(before, after, kinds, n),
        0 <= x < after.len(),
    ensures
        (exists|b: int|
            0 <= b < before.len() && after[x].successors == (#[trigger] before[b]).successors
                && after[x].halt_check == before[b].halt_check) || (after[x].halt_check
            && after[x].stmts.len() > 0 && ir::is_safepoint(kinds, after[x].stmts.last())),
{
    let (rin, base, owner) = choose|rin: Seq<nat>, base: Seq<int>, owner: Seq<usize>|
        halt_spec::are_countdowns(before, kinds, n, rin) && #[trigger] halt_spec::is_broken_down(
            before,
            after,
            kinds,
            n,
            rin,
            base,
            owner,
        );
    lemma_is_piece(before, after, kinds, n, rin, base, owner, x);
    let b = owner[x];
    let i = place_of(base, owner, x);
    let ps = halt_spec::block_pieces(before, kinds, n, rin, b);
    assert(halt_spec::counts_down(before, kinds, n, rin, b));
    if i == ps.len() - 1 {
        assert(after[x].successors == before[b as int].successors);
    } else {
        if graph::on_cycle(ir::flow(before), b) {
            lemma_piece_counts(kinds, before[b as int].stmts, 1, 1, i);
        } else {
            lemma_piece_counts(kinds, before[b as int].stmts, rin[b as int], n, i);
        }
    }
}

/// Nothing but halt checks is added: the statements of every block are still there, in
/// order, cut into pieces that follow each other, and the last piece ends as the
/// block did.
pub proof fn blocks_are_preserved(
    before: Seq<BlockView>,
    after: Seq<BlockView>,
    kinds: Seq<StmtData>,
    n: nat,
    b: usize,
)
    requires
        halt_spec::checks_inserted(before, after, kinds, n),
        b < before.len(),
    ensures
        exists|base: int, ps: Seq<Seq<Stmt>>| #[trigger]
            halt_spec::stands(before, after, b, base, ps) && joined(ps) == before[b as int].stmts,
{
    let (rin, base, owner) = choose|rin: Seq<nat>, base: Seq<int>, owner: Seq<usize>|
        halt_spec::are_countdowns(before, kinds, n, rin) && #[trigger] halt_spec::is_broken_down(
            before,
            after,
            kinds,
            n,
            rin,
            base,
            owner,
        );
    let ps = halt_spec::block_pieces(before, kinds, n, rin, b);
    assert(halt_spec::stands(before, after, b, base[b as int], ps));
    if graph::on_cycle(ir::flow(before), b) {
        pieces_make_up_the_block(kinds, before[b as int].stmts, 1, 1);
    } else {
        pieces_make_up_the_block(kinds, before[b as int].stmts, rin[b as int], n);
    }
}

/// No block of the result is two pieces: pieces of different blocks, and different pieces of
/// one block, are different blocks.
pub proof fn pieces_are_distinct(
    before: Seq<BlockView>,
    after: Seq<BlockView>,
    kinds: Seq<StmtData>,
    n: nat,
    rin: Seq<nat>,
    base: Seq<int>,
    owner: Seq<usize>,
    b: usize,
    i: int,
    c: usize,
    j: int,
)
    requires
        halt_spec::is_broken_down(before, after, kinds, n, rin, base, owner),
        b < before.len(),
        c < before.len(),
        0 <= i < halt_spec::block_pieces(before, kinds, n, rin, b).len(),
        0 <= j < halt_spec::block_pieces(before, kinds, n, rin, c).len(),
        halt_spec::piece_id(b as int, base[b as int], i) == halt_spec::piece_id(
            c as int,
            base[c as int],
            j,
        ),
    ensures
        b == c,
        i == j,
{
    assert(halt_spec::stands(
        before,
        after,
        b,
        base[b as int],
        halt_spec::block_pieces(before, kinds, n, rin, b),
    ));
}

/// The graph and the limit alone decide on the countdowns, and so on where the halt
/// checks go.
pub proof fn countdowns_are_unique(
    blocks: Seq<BlockView>,
    kinds: Seq<StmtData>,
    n: nat,
    first: Seq<nat>,
    second: Seq<nat>,
)
    requires
        blocks.len() <= usize::MAX,
        halt_spec::are_countdowns(blocks, kinds, n, first),
        halt_spec::are_countdowns(blocks, kinds, n, second),
    ensures
        first == second,
{
    assert forall|b: int| 0 <= b < blocks.len() implies first[b] == second[b] by {
        lemma_unique_at(blocks, kinds, n, first, second, b as usize);
    }
    assert(first =~= second);
}

/// The blocks that reach `b`.
pub(crate) open spec fn ancestors(blocks: Seq<BlockView>, b: usize) -> Set<int> {
    vstd::set_lib::set_int_range(0, blocks.len() as int).filter(
        |p: int| graph::reaches(ir::flow(blocks), p as usize, b),
    )
}

/// A block from which control enters the component of another one has fewer ancestors.
pub(crate) proof fn lemma_fewer_ancestors(blocks: Seq<BlockView>, p: usize, b: usize)
    requires
        blocks.len() <= usize::MAX,
        b < blocks.len(),
        halt_spec::enters(ir::flow(blocks), p, b),
    ensures
        p < blocks.len(),
        ancestors(blocks, p).len() < ancestors(blocks, b).len(),
{
    let e = ir::flow(blocks);
    let c = choose|c: usize| #[trigger] e(p, c) && mutually_reachable(e, c, b);
    graph::reaches_by_edge(e, p, c);
    graph::reaches_transitive(e, p, c, b);
    graph::reaches_self(e, b);
    let all = vstd::set_lib::set_int_range(0, blocks.len() as int);
    vstd::set_lib::lemma_int_range(0, blocks.len() as int);
    all.lemma_len_filter(|q: int| graph::reaches(e, q as usize, b));
    assert(ancestors(blocks, p).subset_of(ancestors(blocks, b).remove(b as int))) by {
        assert forall|q: int| ancestors(blocks, p).contains(q) implies ancestors(
            blocks,
            b,
        ).remove(b as int).contains(q) by {
            graph::reaches_transitive(e, q as usize, p, b);
        }
    }
    assert(ancestors(blocks, b).contains(b as int));
    vstd::set_lib::lemma_len_subset(ancestors(blocks, p), ancestors(blocks, b).remove(b as int));
}

proof fn lemma_unique_at(
    blocks: Seq<BlockView>,
    kinds: Seq<StmtData>,
    n: nat,
    first: Seq<nat>,
    second: Seq<nat>,
    b: usize,
)
    requires
        blocks.len() <= usize::MAX,
        halt_spec::are_countdowns(blocks, kinds, n, first),
        halt_spec::are_countdowns(blocks, kinds, n, second),
        b < blocks.len(),
    ensures
        first[b as int] == second[b as int],
    decreases ancestors(blocks, b).len(),
{
    let e = ir::flow(blocks);
    assert forall|p: usize| #[trigger] halt_spec::enters(e, p, b) implies halt_spec::leaving(
        blocks,
        kinds,
        n,
        first,
        p,
    ) == halt_spec::leaving(blocks, kinds, n, second, p) by {
        lemma_fewer_ancestors(blocks, p, b);
        lemma_unique_at(blocks, kinds, n, first, second, p);
    }
    assert(halt_spec::counts_down(blocks, kinds, n, first, b));
    assert(halt_spec::counts_down(blocks, kinds, n, second, b));
    if first[b as int] != n {
        let p = choose|p: usize| #[trigger]
            halt_spec::enters(e, p, b) && first[b as int] == halt_spec::leaving(
                blocks,
                kinds,
                n,
                first,
                p,
            );
        assert(halt_spec::enters(e, p, b));
    }
    if second[b as int] != n {
        let p = choose|p: usize| #[trigger]
            halt_spec::enters(e, p, b) && second[b as int] == halt_spec::leaving(
                blocks,
                kinds,
                n,
                second,
                p,
            );
        assert(halt_spec::enters(e, p, b));
    }
}

} // verus!
