//! Where halt checks go.
//!
//! With `n` safepoints allowed between halt checks:
//! - control enters a component of the control flow graph with the lowest countdown
//!   of the paths into it, and the function with the full countdown;
//! - in a block that no cycle runs through, a halt check follows each safepoint that
//!   ends the countdown, and the countdown starts anew behind it;
//! - in a block on a cycle, a halt check follows every safepoint, and control leaves
//!   with the countdown that its component was entered with.

use vstd::prelude::*;
use crate::ir;
use crate::ir::graph;
use crate::ir::graph::{mutually_reachable, Edges};
use crate::ir::halt_state;
use crate::ir::{BlockView, Stmt, StmtData};

verus! {

/// Control may go from `p` into the component of `b` from outside.
pub open spec fn enters(e: Edges, p: usize, b: usize) -> bool {
    !mutually_reachable(e, p, b) && exists|c: usize| #[trigger]
        e(p, c) && mutually_reachable(e, c, b)
}

/// The countdown at the end of the block `p`, where it starts with `rin`.
pub open spec fn leaving(
    blocks: Seq<BlockView>,
    kinds: Seq<StmtData>,
    n: nat,
    rin: Seq<nat>,
    p: usize,
) -> nat {
    if graph::on_cycle(ir::flow(blocks), p) {
        rin[p as int]
    } else {
        halt_state::countdown_after(kinds, blocks[p as int].stmts, rin[p as int], n)
    }
}

/// The countdown at the start of `b` is the lowest that arrives, or the full one
/// where nothing arrives.
pub open spec fn counts_down(
    blocks: Seq<BlockView>,
    kinds: Seq<StmtData>,
    n: nat,
    rin: Seq<nat>,
    b: usize,
) -> bool {
    let e = ir::flow(blocks);
    &&& 1 <= rin[b as int] <= n
    &&& forall|p: usize| #[trigger]
        enters(e, p, b) ==> rin[b as int] <= leaving(blocks, kinds, n, rin, p)
    &&& rin[b as int] == n || exists|p: usize| #[trigger]
        enters(e, p, b) && rin[b as int] == leaving(blocks, kinds, n, rin, p)
}

/// `rin` holds the countdown at the start of every block.
pub open spec fn are_countdowns(
    blocks: Seq<BlockView>,
    kinds: Seq<StmtData>,
    n: nat,
    rin: Seq<nat>,
) -> bool {
    &&& rin.len() == blocks.len()
    &&& forall|b: usize| b < blocks.len() ==> #[trigger] counts_down(blocks, kinds, n, rin, b)
}

/// The pieces that the block `b` is broken into.
pub open spec fn block_pieces(
    blocks: Seq<BlockView>,
    kinds: Seq<StmtData>,
    n: nat,
    rin: Seq<nat>,
    b: usize,
) -> Seq<Seq<Stmt>> {
    if graph::on_cycle(ir::flow(blocks), b) {
        halt_state::pieces(kinds, blocks[b as int].stmts, 1, 1)
    } else {
        halt_state::pieces(kinds, blocks[b as int].stmts, rin[b as int], n)
    }
}

/// The number of piece `i` of the block `b`, where the pieces behind the first are
/// new blocks, numbered from `base` on.
pub open spec fn piece_id(b: int, base: int, i: int) -> int {
    if i == 0 {
        b
    } else {
        base + i - 1
    }
}

/// Piece `i` of the block `old`: halt checks stand between the pieces, and the last
/// one ends as the block did.
pub open spec fn piece(old: BlockView, b: int, base: int, ps: Seq<Seq<Stmt>>, i: int) -> BlockView {
    if i == ps.len() - 1 {
        BlockView { stmts: ps[i], ..old }
    } else {
        BlockView {
            stmts: ps[i],
            successors: seq![piece_id(b, base, i + 1) as usize],
            halt_check: true,
        }
    }
}

/// The pieces of the block `b` stand in `after`, the new ones from `base` on.
pub open spec fn stands(
    before: Seq<BlockView>,
    after: Seq<BlockView>,
    b: usize,
    base: int,
    ps: Seq<Seq<Stmt>>,
) -> bool {
    &&& ps.len() > 0
    &&& before.len() <= base
    &&& base + ps.len() - 1 <= after.len()
    &&& forall|i: int|
        0 <= i < ps.len() ==> after[#[trigger] piece_id(b as int, base, i)] == piece(
            before[b as int],
            b as int,
            base,
            ps,
            i,
        )
}

/// `after` consists of the pieces of the blocks of `before`, each once: the block
/// `x` of `after` is a piece of `owner[x]`.
pub open spec fn is_broken_down(
    before: Seq<BlockView>,
    after: Seq<BlockView>,
    kinds: Seq<StmtData>,
    n: nat,
    rin: Seq<nat>,
    base: Seq<int>,
    owner: Seq<usize>,
) -> bool {
    &&& base.len() == before.len() <= after.len()
    &&& owner.len() == after.len()
    &&& forall|b: usize|
        b < before.len() ==> #[trigger] stands(
            before,
            after,
            b,
            base[b as int],
            block_pieces(before, kinds, n, rin, b),
        )
    &&& forall|x: int|
        0 <= x < after.len() ==> #[trigger] is_piece_of(before, kinds, n, rin, base, x, owner[x])
    // No block of the result is a piece of two blocks.
    &&& forall|b: usize, i: int|
        b < before.len() && 0 <= i < block_pieces(before, kinds, n, rin, b).len()
            ==> owner[#[trigger] piece_id(b as int, base[b as int], i)] == b
}

/// The block `x` is a piece of the block `b`.
pub open spec fn is_piece_of(
    before: Seq<BlockView>,
    kinds: Seq<StmtData>,
    n: nat,
    rin: Seq<nat>,
    base: Seq<int>,
    x: int,
    b: usize,
) -> bool {
    &&& b < before.len()
    &&& x == b || base[b as int] <= x < base[b as int] + block_pieces(
        before,
        kinds,
        n,
        rin,
        b,
    ).len() - 1
}

/// `after` is `before` with halt checks inserted, so that at most `n` safepoints lie
/// between two of them.
pub open spec fn checks_inserted(
    before: Seq<BlockView>,
    after: Seq<BlockView>,
    kinds: Seq<StmtData>,
    n: nat,
) -> bool {
    exists|rin: Seq<nat>, base: Seq<int>, owner: Seq<usize>|
        are_countdowns(before, kinds, n, rin) && #[trigger] is_broken_down(
            before,
            after,
            kinds,
            n,
            rin,
            base,
            owner,
        )
}

} // verus!
