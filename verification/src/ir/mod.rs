//! The execution IR.
//!
//! A function is a graph of basic blocks. A block is a list of statements and the
//! blocks that control may go on to. A block may end in a halt check, at which the
//! runtime gets a chance to stop execution before control goes on.

pub mod arena;
pub mod dfs;
pub mod graph;
pub mod halt_check_pass;
pub mod halt_laws;
pub mod halt_map;
pub mod halt_progress;
pub mod halt_spec;
pub mod halt_state;
pub mod insertion_laws;
pub mod pass_laws;
pub mod scc;
pub mod scc_graph;
pub mod topo;

use vstd::prelude::*;
use crate::ir::graph::Edges;

verus! {

/// The handle of a block.
pub type Block = usize;

/// The handle of a statement.
pub type Stmt = usize;

/// What a statement does, as far as halting is concerned.
#[derive(Clone, Copy, PartialEq, Eq, Structural, Debug)]
pub enum StmtKind {
    /// A place at which execution may be stopped.
    Safepoint,
    /// Anything else.
    Other,
}

/// A statement.
pub struct StmtData {
    pub rvalue: StmtKind,
}

/// A basic block.
pub struct BlockData {
    pub stmts: Vec<Stmt>,
    /// The blocks that control may go on to.
    pub successors: Vec<Block>,
    /// Whether the block ends in a halt check.
    pub halt_check: bool,
}

/// A basic block as a value.
#[verifier::ext_equal]
pub struct BlockView {
    pub stmts: Seq<Stmt>,
    pub successors: Seq<Block>,
    pub halt_check: bool,
}

impl View for BlockData {
    type V = BlockView;

    open spec fn view(&self) -> BlockView {
        BlockView {
            stmts: self.stmts@,
            successors: self.successors@,
            halt_check: self.halt_check,
        }
    }
}

/// A function under construction.
pub struct ExecIrBuilder {
    pub blocks: Vec<BlockData>,
    pub stmts: Vec<StmtData>,
    /// How many safepoints execution may pass before a halt check is due.
    pub halt_check_every: u64,
}

/// The statement `s` is a safepoint.
pub open spec fn is_safepoint(kinds: Seq<StmtData>, s: Stmt) -> bool {
    s < kinds.len() && kinds[s as int].rvalue == StmtKind::Safepoint
}

/// The edges of the control flow graph.
pub open spec fn flow(blocks: Seq<BlockView>) -> Edges {
    |u: usize, v: usize| u < blocks.len() && blocks[u as int].successors.contains(v)
}

/// Handles are in range, and no safepoint occurs twice.
pub open spec fn well_formed(blocks: Seq<BlockView>, kinds: Seq<StmtData>) -> bool {
    &&& forall|b: int, i: int|
        0 <= b < blocks.len() && 0 <= i < blocks[b].successors.len()
            ==> #[trigger] blocks[b].successors[i] < blocks.len()
    &&& forall|b: int, i: int|
        0 <= b < blocks.len() && 0 <= i < blocks[b].stmts.len() ==> #[trigger] blocks[b].stmts[i]
            < kinds.len()
    &&& forall|b: int, i: int, c: int, j: int|
        0 <= b < blocks.len() && 0 <= i < blocks[b].stmts.len() && 0 <= c < blocks.len() && 0 <= j
            < blocks[c].stmts.len() && is_safepoint(kinds, blocks[b].stmts[i])
            && #[trigger] blocks[b].stmts[i] == #[trigger] blocks[c].stmts[j] ==> b == c && i == j
}

/// The blocks after the block `b` was cut before its statement `at`: a halt check
/// stands at the cut, and the rest is a new block.
pub open spec fn cut(blocks: Seq<BlockView>, b: int, at: int) -> Seq<BlockView> {
    let old = blocks[b];
    blocks.update(
        b,
        BlockView {
            stmts: old.stmts.take(at),
            successors: seq![blocks.len() as usize],
            halt_check: true,
        },
    ).push(
        BlockView {
            stmts: old.stmts.skip(at),
            successors: old.successors,
            halt_check: old.halt_check,
        },
    )
}

impl ExecIrBuilder {
    /// The blocks as values.
    pub open spec fn view(&self) -> Seq<BlockView> {
        Seq::new(self.blocks@.len(), |b: int| self.blocks@[b]@)
    }

    pub open spec fn wf(&self) -> bool {
        well_formed(self@, self.stmts@) && self.halt_check_every > 0
    }

    /// The edges of the control flow graph.
    pub open spec fn edges(&self) -> Edges {
        flow(self@)
    }

    /// The blocks that control may go on to from `block`.
    pub fn successors(&self, block: Block) -> (r: &[Block])
        requires
            block < self@.len(),
        ensures
            r@ == self@[block as int].successors,
    {
        self.blocks[block].successors.as_slice()
    }

    /// Cuts `block` before its statement `at`, puts a halt check at the cut, and
    /// returns the block that execution goes on with.
    pub fn insert_halt_check_at(&mut self, block: Block, at: usize) -> (r: Block)
        requires
            block < old(self)@.len(),
            at <= old(self)@[block as int].stmts.len(),
        ensures
            r == old(self)@.len(),
            final(self)@ == cut(old(self)@, block as int, at as int),
            final(self).stmts@ == old(self).stmts@,
            final(self).halt_check_every == old(self).halt_check_every,
    {
        let continuation: usize = self.blocks.len();
        let ghost before = self@;
        let stmts = self.blocks[block].stmts.split_off(at);
        let mut successors: Vec<Block> = vec![continuation];
        core::mem::swap(&mut self.blocks[block].successors, &mut successors);
        let halt_check = self.blocks[block].halt_check;
        self.blocks[block].halt_check = true;
        self.blocks.push(BlockData { stmts, successors, halt_check });
        proof {
            let after = cut(before, block as int, at as int);
            assert forall|i: int| 0 <= i < after.len() implies self@[i] == after[i] by {
                if i == block {
                    assert(self@[i].stmts =~= after[i].stmts);
                    assert(self@[i].successors =~= after[i].successors);
                } else if i == before.len() {
                    assert(self@[i].stmts =~= after[i].stmts);
                    assert(self@[i].successors =~= after[i].successors);
                }
            }
            assert(self@ =~= after);
        }
        continuation
    }
}

} // verus!
