//! The condensation of the control flow graph: its components, which of them are
//! cyclic, and an order of them in which control flows forward.

use vstd::prelude::*;
use crate::ir;
use crate::ir::arena::{ArenaMap, ArenaSet};
use crate::ir::graph;
use crate::ir::graph::{mutually_reachable, reaches, Edges};
use crate::ir::scc;
use crate::ir::scc::SccComponent;
use crate::ir::topo;
use crate::ir::{Block, BlockView, ExecIrBuilder, StmtData, StmtKind};

verus! {

/// The block holds a safepoint.
pub open spec fn has_safepoint(block: BlockView, kinds: Seq<StmtData>) -> bool {
    exists|i: int| 0 <= i < block.stmts.len() && ir::is_safepoint(kinds, #[trigger] block.stmts[i])
}

/// Every directed cycle passes through a block with a safepoint.
pub open spec fn cycles_pass_safepoints(blocks: Seq<BlockView>, kinds: Seq<StmtData>) -> bool {
    forall|p: Seq<usize>| #[trigger]
        graph::is_cycle(ir::flow(blocks), p) ==> exists|i: int|
            0 <= i < p.len() && has_safepoint(blocks[#[trigger] p[i] as int], kinds)
}

/// A component is cyclic: it has more than one block, or one with an edge to itself.
pub open spec fn is_cyclic_component(e: Edges, component: Seq<usize>) -> bool {
    component.len() >= 2 || (component.len() == 1 && e(component[0], component[0]))
}

/// Whether `block` holds a safepoint.
pub fn block_has_safepoint(ir: &ExecIrBuilder, block: Block) -> (r: bool)
    requires
        ir::well_formed(ir@, ir.stmts@),
        block < ir@.len(),
    ensures
        r == has_safepoint(ir@[block as int], ir.stmts@),
{
    let stmts = &ir.blocks[block].stmts;
    let ghost view = ir@[block as int];
    let mut i: usize = 0;
    while i < stmts.len()
        invariant
            i <= stmts@.len(),
            ir::well_formed(ir@, ir.stmts@),
            block < ir@.len(),
            view == ir@[block as int],
            view.stmts == stmts@,
            forall|j: int| 0 <= j < i ==> !ir::is_safepoint(ir.stmts@, #[trigger] view.stmts[j]),
        decreases stmts@.len() - i,
    {
        assert(ir@[block as int].stmts[i as int] < ir.stmts@.len());
        match ir.stmts[stmts[i]].rvalue {
            StmtKind::Safepoint => {
                assert(ir::is_safepoint(ir.stmts@, view.stmts[i as int]));
                return true;
            },
            StmtKind::Other => {},
        }
        i = i + 1;
    }
    false
}

/// Whether a component is cyclic.
pub fn component_is_cyclic(ir: &ExecIrBuilder, component: &[Block]) -> (r: bool)
    requires
        forall|i: int| 0 <= i < component@.len() ==> #[trigger] component@[i] < ir@.len(),
    ensures
        r == is_cyclic_component(ir.edges(), component@),
{
    let len: usize = component.len();
    if len == 0 {
        // No blocks: never cyclic.
        false
    } else if len == 1 {
        // One block: cyclic only if it has a self-loop.
        let block: usize = component[0];
        let succs = ir.successors(block);
        let mut i: usize = 0;
        while i < succs.len()
            invariant
                i <= succs@.len(),
                block < ir@.len(),
                succs@ == ir@[block as int].successors,
                forall|j: int| 0 <= j < i ==> #[trigger] succs@[j] != block,
                component@.len() == 1,
                component@[0] == block,
            decreases succs@.len() - i,
        {
            if succs[i] == block {
                assert(succs@.contains(block));
                return true;
            }
            i = i + 1;
        }
        assert(!succs@.contains(block));
        false
    } else {
        // Any two blocks of a component reach each other, which makes a cycle.
        true
    }
}

/// A component of mutually reachable blocks is cyclic exactly where a cycle runs
/// through its blocks.
pub proof fn cyclic_components_hold_cycles(e: Edges, component: Seq<usize>, i: int)
    requires
        component.no_duplicates(),
        0 <= i < component.len(),
        forall|j: int, u: usize|
            0 <= j < component.len() ==> (#[trigger] mutually_reachable(e, component[j], u)
                <==> component.contains(u)),
    ensures
        is_cyclic_component(e, component) <==> graph::on_cycle(e, component[i]),
{
    reveal(reaches);
    let u = component[i];
    if component.len() >= 2 {
        let j = if i == 0 {
            1int
        } else {
            0int
        };
        let v = component[j];
        assert(u != v);
        assert(component.contains(v));
        assert(mutually_reachable(e, component[i], v));
        let p = choose|p: Seq<usize>| #[trigger] graph::is_path(e, p) && p[0] == u && p.last() == v;
        let q = choose|q: Seq<usize>| #[trigger] graph::is_path(e, q) && q[0] == v && q.last() == u;
        graph::lemma_join_paths(e, p, q);
        let c = p + q.drop_first();
        assert(p.len() > 1);
        assert(graph::is_cycle(e, c));
        graph::cycle_is_mutually_reachable(e, c, 0, 0);
    } else {
        if e(u, u) {
            graph::reaches_self(e, u);
        }
        if graph::on_cycle(e, u) {
            let v = choose|v: usize| #[trigger] e(u, v) && reaches(e, v, u);
            graph::reaches_by_edge(e, u, v);
            assert(mutually_reachable(e, component[i], v));
            assert(component.contains(v));
            assert(component[0] == v);
        }
    }
}

/// Whether every directed cycle passes through a block with a safepoint.
///
/// Cycles without a safepoint are the cycles of the graph that the blocks without
/// safepoints make up.
pub fn cycles_have_safepoints(ir: &ExecIrBuilder) -> (r: bool)
    requires
        ir::well_formed(ir@, ir.stmts@),
    ensures
        r == cycles_pass_safepoints(ir@, ir.stmts@),
{
    let total: usize = ir.blocks.len();
    let mut allowed = ArenaSet::new();
    let mut block: usize = 0;
    while block < total
        invariant
            block <= total == ir@.len(),
            ir::well_formed(ir@, ir.stmts@),
            forall|b: usize| #[trigger]
                allowed.has(b) <==> b < block && !has_safepoint(ir@[b as int], ir.stmts@),
        decreases total - block,
    {
        if !block_has_safepoint(ir, block) {
            allowed.insert(block);
        }
        block = block + 1;
    }
    let ghost part = Some(allowed);
    let ghost e = scc::part_flow(ir@, part);
    let components = scc::strongly_connected_components(ir, Some(allowed));
    let ghost comps = scc::component_blocks(components@);
    let mut c: usize = 0;
    while c < components.len()
        invariant
            c <= components@.len(),
            comps == scc::component_blocks(components@),
            total == ir@.len(),
            e == scc::part_flow(ir@, part),
            part == Some(allowed),
            forall|b: usize| #[trigger]
                allowed.has(b) <==> b < total && !has_safepoint(ir@[b as int], ir.stmts@),
            scc::is_scc_list(e, |b: usize| scc::takes_part(ir@, part, b), comps),
            forall|d: int| 0 <= d < c ==> !is_cyclic_component(ir.edges(), #[trigger] comps[d]),
        decreases components@.len() - c,
    {
        proof {
            assert(comps[c as int] == components@[c as int]@);
            assert forall|i: int| 0 <= i < comps[c as int].len() implies #[trigger] components@[c as int]@[i]
                < ir@.len() by {
                assert(scc::takes_part(ir@, part, comps[c as int][i]));
            }
        }
        if component_is_cyclic(ir, components[c].as_slice()) {
            proof {
                lemma_bare_cycle(ir@, ir.stmts@, part, comps, c as int);
            }
            return false;
        }
        c = c + 1;
    }
    proof {
        lemma_no_bare_cycle(ir@, ir.stmts@, part, comps);
    }
    true
}

/// The blocks that take part are those without a safepoint.
spec fn bare(blocks: Seq<BlockView>, kinds: Seq<StmtData>, part: Option<ArenaSet>) -> bool {
    forall|b: usize| #[trigger]
        scc::takes_part(blocks, part, b) <==> b < blocks.len() && !has_safepoint(
            blocks[b as int],
            kinds,
        )
}

proof fn lemma_bare_cycle(
    blocks: Seq<BlockView>,
    kinds: Seq<StmtData>,
    part: Option<ArenaSet>,
    comps: Seq<Seq<usize>>,
    c: int,
)
    requires
        bare(blocks, kinds, part),
        scc::is_scc_list(
            scc::part_flow(blocks, part),
            |b: usize| scc::takes_part(blocks, part, b),
            comps,
        ),
        0 <= c < comps.len(),
        is_cyclic_component(ir::flow(blocks), comps[c]),
    ensures
        !cycles_pass_safepoints(blocks, kinds),
{
    reveal(reaches);
    let e = scc::part_flow(blocks, part);
    let f = ir::flow(blocks);
    let ok = |b: usize| scc::takes_part(blocks, part, b);
    let component = comps[c];
    let u = component[0];
    assert(ok(comps[c][0]));
    if component.len() == 1 {
        let p = seq![u, u];
        assert forall|i: int| 0 <= i < p.len() - 1 implies #[trigger] graph::is_step(f, p, i) by {}
        assert(graph::is_cycle(f, p));
        assert forall|i: int| 0 <= i < p.len() implies !has_safepoint(
            blocks[#[trigger] p[i] as int],
            kinds,
        ) by {}
    } else {
        let v = component[1];
        assert(ok(comps[c][1]));
        assert(comps[c][0] != comps[c][1]);
        assert(mutually_reachable(e, comps[c][0], comps[c][1]));
        let p = choose|p: Seq<usize>| #[trigger] graph::is_path(e, p) && p[0] == u && p.last() == v;
        let q = choose|q: Seq<usize>| #[trigger] graph::is_path(e, q) && q[0] == v && q.last() == u;
        graph::lemma_join_paths(e, p, q);
        let r = p + q.drop_first();
        lemma_part_path(blocks, part, r);
        assert(graph::is_cycle(f, r));
        assert forall|i: int| 0 <= i < r.len() implies !has_safepoint(
            blocks[#[trigger] r[i] as int],
            kinds,
        ) by {
            assert(scc::takes_part(blocks, part, r[i]));
        }
    }
}

/// A walk of at least one step among the blocks that take part is a walk of the
/// graph, through such blocks alone.
proof fn lemma_part_path(blocks: Seq<BlockView>, part: Option<ArenaSet>, p: Seq<usize>)
    requires
        graph::is_path(scc::part_flow(blocks, part), p),
        p.len() > 1,
    ensures
        graph::is_path(ir::flow(blocks), p),
        forall|i: int| 0 <= i < p.len() ==> scc::takes_part(blocks, part, #[trigger] p[i]),
{
    let e = scc::part_flow(blocks, part);
    assert forall|i: int| 0 <= i < p.len() - 1 implies #[trigger] graph::is_step(
        ir::flow(blocks),
        p,
        i,
    ) by {
        assert(graph::is_step(e, p, i));
    }
    assert forall|i: int| 0 <= i < p.len() implies scc::takes_part(blocks, part, #[trigger] p[i]) by {
        if i < p.len() - 1 {
            assert(graph::is_step(e, p, i));
        } else {
            assert(graph::is_step(e, p, i - 1));
        }
    }
}

proof fn lemma_no_bare_cycle(
    blocks: Seq<BlockView>,
    kinds: Seq<StmtData>,
    part: Option<ArenaSet>,
    comps: Seq<Seq<usize>>,
)
    requires
        bare(blocks, kinds, part),
        scc::is_scc_list(
            scc::part_flow(blocks, part),
            |b: usize| scc::takes_part(blocks, part, b),
            comps,
        ),
        forall|d: int| 0 <= d < comps.len() ==> !is_cyclic_component(
            ir::flow(blocks),
            #[trigger] comps[d],
        ),
        ir::well_formed(blocks, kinds),
    ensures
        cycles_pass_safepoints(blocks, kinds),
{
    let e = scc::part_flow(blocks, part);
    let f = ir::flow(blocks);
    let ok = |b: usize| scc::takes_part(blocks, part, b);
    assert forall|p: Seq<usize>| #[trigger] graph::is_cycle(f, p) implies exists|i: int|
        0 <= i < p.len() && has_safepoint(blocks[#[trigger] p[i] as int], kinds) by {
        if forall|i: int|
            0 <= i < p.len() ==> !has_safepoint(blocks[#[trigger] p[i] as int], kinds) {
            assert forall|i: int| 0 <= i < p.len() implies ok(#[trigger] p[i]) by {
                if i < p.len() - 1 {
                    assert(graph::is_step(f, p, i));
                } else {
                    assert(graph::is_step(f, p, 0));
                    assert(p[i] == p[0]);
                }
            }
            assert forall|i: int| 0 <= i < p.len() - 1 implies #[trigger] graph::is_step(e, p, i) by {
                assert(graph::is_step(f, p, i));
                assert(ok(p[i]) && ok(p[i + 1]));
            }
            assert(graph::is_cycle(e, p));
            graph::cycle_is_mutually_reachable(e, p, 0, 1);
            assert(ok(p[0]) && ok(p[1]));
            let c = choose|c: int| 0 <= c < comps.len() && #[trigger] comps[c].contains(p[0]);
            let d = choose|d: int| 0 <= d < comps.len() && #[trigger] comps[d].contains(p[1]);
            let i = comps[c].index_of(p[0]);
            let j = comps[d].index_of(p[1]);
            assert(mutually_reachable(e, comps[c][i], comps[d][j]));
            assert(graph::is_step(f, p, 0));
            assert(!is_cyclic_component(f, comps[c]));
            assert(i == 0 && j == 0);
            assert(false);
        }
    }
}

/// The components of the control flow graph, in an order in which control flows
/// forward.
pub struct SccGraph {
    pub components: Vec<Vec<Block>>,
    pub component_of: ArenaMap<SccComponent>,
    pub topo_order: Vec<SccComponent>,
    pub is_cyclic: ArenaSet,
}

/// Among the edges of the first blocks, up to the successor `i` of `block`, one
/// leads from the component `p` to the component `c`.
spec fn linked(
    blocks: Seq<BlockView>,
    of: ArenaMap<SccComponent>,
    p: usize,
    c: usize,
    block: int,
    i: int,
) -> bool {
    exists|b: int, j: int|
        0 <= b < blocks.len() && 0 <= j < blocks[b].successors.len() && (b < block || (b == block && j
            < i)) && p != c && of.at(b as usize) == Some(p) && of.at(
            #[trigger] blocks[b].successors[j],
        ) == Some(c)
}

impl SccGraph {
    /// The graph describes the blocks `blocks`.
    #[verifier::opaque]
    pub open spec fn condenses(self, blocks: Seq<BlockView>) -> bool {
        let e = ir::flow(blocks);
        let comps = scc::component_blocks(self.components@);
        &&& scc::is_scc_list(e, |b: usize| b < blocks.len(), comps)
        &&& forall|b: usize| (#[trigger] self.component_of.at(b)) is Some <==> b < blocks.len()
        &&& forall|b: usize|
            b < blocks.len() ==> (#[trigger] self.component_of.at(b))->0 < comps.len()
                && comps[self.component_of.at(b)->0 as int].contains(b)
        &&& self.topo_order@.len() == comps.len()
        &&& self.topo_order@.no_duplicates()
        &&& forall|i: int|
            0 <= i < self.topo_order@.len() ==> #[trigger] self.topo_order@[i] < comps.len()
        // Control flows forward.
        &&& forall|u: usize, v: usize, j: int|
            #![trigger e(u, v), self.topo_order@[j]]
            u < blocks.len() && v < blocks.len() && e(u, v) && self.component_of.at(u)
                != self.component_of.at(v) && 0 <= j < self.topo_order@.len()
                && self.component_of.at(v) == Some(self.topo_order@[j]) ==> self.topo_order@.take(
                j,
            ).contains(self.component_of.at(u)->0)
        &&& forall|c: usize| #[trigger]
            self.is_cyclic.has(c) <==> c < comps.len() && is_cyclic_component(e, comps[c as int])
    }

    /// Condenses the control flow graph.
    pub fn new(ir: &ExecIrBuilder) -> (r: Self)
        requires
            ir::well_formed(ir@, ir.stmts@),
        ensures
            r.condenses(ir@),
    {
        let ghost e = ir.edges();
        let total: usize = ir.blocks.len();
        let components = scc::strongly_connected_components(ir, None);
        let ghost comps = scc::component_blocks(components@);
        let k: usize = components.len();
        proof {
            let none: Option<ArenaSet> = None;
            assert(scc::part_flow(ir@, none) =~= e) by {
                assert forall|u: usize, v: usize| #[trigger]
                    scc::part_flow(ir@, none)(u, v) == e(u, v) by {
                    lemma_flow_range(ir@, ir.stmts@, u, v);
                }
            }
            let f = |b: usize| scc::takes_part(ir@, none, b);
            let g = |b: usize| b < ir@.len();
            assert(f =~= g) by {
                assert forall|b: usize| #[trigger] f(b) == g(b) by {}
            }
            assert(scc::is_scc_list(e, |b: usize| b < ir@.len(), comps));
        }
        let component_of = Self::number_components(ir, &components);
        let mut edges: Vec<ArenaSet> = Vec::new();
        let mut indegree: Vec<usize> = Vec::new();
        let mut c: usize = 0;
        while c < k
            invariant
                c <= k,
                edges@.len() == c,
                indegree@.len() == c,
                forall|p: int, d: usize| 0 <= p < c ==> !(#[trigger] edges@[p].has(d)),
                forall|p: int| 0 <= p < c ==> #[trigger] indegree@[p] == 0,
            decreases k - c,
        {
            edges.push(ArenaSet::new());
            indegree.push(0);
            c = c + 1;
        }
        proof {
            assert forall|c: usize| c < k implies #[trigger] indegree@[c as int] == topo::waiting(
                edges@,
                Seq::empty(),
                c,
                k as nat,
            ) by {
                topo::lemma_waiting_zero(edges@, Seq::empty(), c, k as nat);
            }
        }
        let mut block: usize = 0;
        while block < total
            invariant
                block <= total == ir@.len(),
                ir::well_formed(ir@, ir.stmts@),
                k == comps.len(),
                edges@.len() == k,
                indegree@.len() == k,
                forall|b: usize| (#[trigger] component_of.at(b)) is Some <==> b < ir@.len(),
                forall|b: usize| b < ir@.len() ==> (#[trigger] component_of.at(b))->0 < k,
                forall|p: usize, d: usize|
                    p < k ==> (#[trigger] edges@[p as int].has(d) <==> linked(
                        ir@,
                        component_of,
                        p,
                        d,
                        block as int,
                        0,
                    )),
                forall|c: usize|
                    c < k ==> #[trigger] indegree@[c as int] == topo::waiting(
                        edges@,
                        Seq::empty(),
                        c,
                        k as nat,
                    ),
            decreases total - block,
        {
            let from: usize = *component_of.expect(block);
            let succs = ir.successors(block);
            let mut i: usize = 0;
            while i < succs.len()
                invariant
                    block < total == ir@.len(),
                    i <= succs@.len(),
                    succs@ == ir@[block as int].successors,
                    ir::well_formed(ir@, ir.stmts@),
                    k == comps.len(),
                    edges@.len() == k,
                    indegree@.len() == k,
                    component_of.at(block) == Some(from),
                    from < k,
                    forall|b: usize| (#[trigger] component_of.at(b)) is Some <==> b < ir@.len(),
                    forall|b: usize| b < ir@.len() ==> (#[trigger] component_of.at(b))->0 < k,
                    forall|p: usize, d: usize|
                        p < k ==> (#[trigger] edges@[p as int].has(d) <==> linked(
                            ir@,
                            component_of,
                            p,
                            d,
                            block as int,
                            i as int,
                        )),
                    forall|c: usize|
                        c < k ==> #[trigger] indegree@[c as int] == topo::waiting(
                            edges@,
                            Seq::empty(),
                            c,
                            k as nat,
                        ),
                decreases succs@.len() - i,
            {
                proof {
                    assert(ir@[block as int].successors[i as int] < ir@.len());
                }
                let to: usize = *component_of.expect(succs[i]);
                let ghost edges0 = edges@;
                if from != to {
                    if edges[from].insert(to) {
                        proof {
                            topo::lemma_waiting_bound(edges@, Seq::empty(), to, k as nat);
                            assert(!Seq::<usize>::empty().contains(from));
                            topo::lemma_waiting_edge(
                                edges0,
                                edges@,
                                Seq::empty(),
                                from,
                                to,
                                k as nat,
                            );
                        }
                        indegree[to] = indegree[to] + 1;
                    }
                    proof {
                        assert forall|c: usize| c < k implies #[trigger] indegree@[c as int]
                            == topo::waiting(edges@, Seq::empty(), c, k as nat) by {
                            if c != to || edges0[from as int].has(to) {
                                assert forall|p: usize| p < k implies #[trigger] edges0[p as int].has(
                                    c,
                                ) == edges@[p as int].has(c) && (edges0[p as int].has(c)
                                    ==> Seq::<usize>::empty().contains(p) == Seq::<usize>::empty().contains(
                                    p,
                                )) by {}
                                topo::lemma_waiting_same(
                                    edges0,
                                    Seq::empty(),
                                    edges@,
                                    Seq::empty(),
                                    c,
                                    k as nat,
                                );
                            }
                        }
                    }
                }
                proof {
                    assert forall|p: usize, d: usize|
                        p < k implies (#[trigger] edges@[p as int].has(d) <==> linked(
                        ir@,
                        component_of,
                        p,
                        d,
                        block as int,
                        i + 1,
                    )) by {
                        lemma_link_next(ir@, component_of, p, d, block as int, i as int);
                        assert(edges0[p as int].has(d) <==> linked(
                            ir@,
                            component_of,
                            p,
                            d,
                            block as int,
                            i as int,
                        ));
                    }
                }
                i = i + 1;
            }
            proof {
                assert forall|p: usize, d: usize|
                    p < k implies (#[trigger] edges@[p as int].has(d) <==> linked(
                    ir@,
                    component_of,
                    p,
                    d,
                    block + 1,
                    0,
                )) by {
                    lemma_link_block(ir@, component_of, p, d, block as int);
                }
            }
            block = block + 1;
        }
        proof {
            assert forall|p: usize, d: usize| p < k && #[trigger] edges@[p as int].has(d) implies d
                < p by {
                lemma_link_falls(ir@, component_of, comps, p, d, total as int);
            }
        }
        let topo_order = topo::topological_order(&edges, indegree);
        let is_cyclic = Self::cyclic_components(ir, &components);
        let r = SccGraph { components, component_of, topo_order, is_cyclic };
        proof {
            reveal(SccGraph::condenses);
            assert forall|u: usize, v: usize, j: int|
                #![trigger e(u, v), r.topo_order@[j]]
                u < ir@.len() && v < ir@.len() && e(u, v) && r.component_of.at(u)
                    != r.component_of.at(v) && 0 <= j < r.topo_order@.len() && r.component_of.at(v)
                    == Some(r.topo_order@[j]) implies r.topo_order@.take(j).contains(
                r.component_of.at(u)->0,
            ) by {
                let p = component_of.at(u)->0;
                let c = topo_order@[j];
                let i = ir@[u as int].successors.index_of(v);
                assert(ir@[u as int].successors[i] == v);
                assert(component_of.at(u) == Some(p));
                assert(linked(ir@, component_of, p, c, total as int, 0));
                assert(edges@[p as int].has(c));
                assert(edges@[p as int].has(topo_order@[j]));
            }
        }
        r
    }

    /// Says of each block which component it is in.
    fn number_components(ir: &ExecIrBuilder, components: &Vec<Vec<Block>>) -> (r: ArenaMap<
        SccComponent,
    >)
        requires
            scc::is_scc_list(
                ir.edges(),
                |b: usize| b < ir@.len(),
                scc::component_blocks(components@),
            ),
        ensures
            forall|b: usize| (#[trigger] r.at(b)) is Some <==> b < ir@.len(),
            forall|b: usize|
                b < ir@.len() ==> (#[trigger] r.at(b))->0 < components@.len() && components@[r.at(
                    b,
                )->0 as int]@.contains(b),
    {
        let ghost ok = |b: usize| b < ir@.len();
        let ghost comps = scc::component_blocks(components@);
        let mut component_of: ArenaMap<SccComponent> = ArenaMap::new();
        let mut c: usize = 0;
        while c < components.len()
            invariant
                c <= components@.len(),
                comps == scc::component_blocks(components@),
                forall|b: usize|
                    (#[trigger] component_of.at(b)) is Some ==> component_of.at(b)->0 < c
                        && components@[component_of.at(b)->0 as int]@.contains(b),
                forall|d: int, j: int|
                    0 <= d < c && 0 <= j < comps[d].len() ==> component_of.at(
                        #[trigger] comps[d][j],
                    ) is Some,
            decreases components@.len() - c,
        {
            let component = &components[c];
            let mut i: usize = 0;
            while i < component.len()
                invariant
                    c < components@.len(),
                    comps == scc::component_blocks(components@),
                    component@ == comps[c as int],
                    i <= component@.len(),
                    forall|b: usize|
                        (#[trigger] component_of.at(b)) is Some ==> component_of.at(b)->0 <= c
                            && components@[component_of.at(b)->0 as int]@.contains(b),
                    forall|d: int, j: int|
                        0 <= d < c && 0 <= j < comps[d].len() ==> component_of.at(
                            #[trigger] comps[d][j],
                        ) is Some,
                    forall|j: int|
                        0 <= j < i ==> component_of.at(#[trigger] comps[c as int][j]) is Some,
                decreases component@.len() - i,
            {
                let ghost before = component_of;
                component_of.insert(component[i], c);
                proof {
                    let x = component@[i as int];
                    assert(components@[c as int]@.contains(x));
                    assert forall|b: usize|
                        (#[trigger] component_of.at(b)) is Some implies component_of.at(b)->0 <= c
                        && components@[component_of.at(b)->0 as int]@.contains(b) by {
                        if b != x {
                            assert(before.at(b) is Some);
                        }
                    }
                    assert forall|d: int, j: int|
                        0 <= d < c && 0 <= j < comps[d].len() implies component_of.at(
                        #[trigger] comps[d][j],
                    ) is Some by {
                        assert(before.at(comps[d][j]) is Some);
                    }
                    assert forall|j: int| 0 <= j < i + 1 implies component_of.at(
                        #[trigger] comps[c as int][j],
                    ) is Some by {
                        if j < i {
                            assert(before.at(comps[c as int][j]) is Some);
                        }
                    }
                }
                i = i + 1;
            }
            c = c + 1;
        }
        proof {
            assert forall|b: usize| (#[trigger] component_of.at(b)) is Some <==> b < ir@.len() by {
                if b < ir@.len() {
                    assert(ok(b));
                    let d = choose|d: int| 0 <= d < comps.len() && #[trigger] comps[d].contains(b);
                    let j = comps[d].index_of(b);
                    assert(component_of.at(comps[d][j]) is Some);
                }
                if component_of.at(b) is Some {
                    let d = component_of.at(b)->0 as int;
                    assert(comps[d].contains(b));
                    let j = comps[d].index_of(b);
                    assert(ok(comps[d][j]));
                }
            }
        }
        component_of
    }

    /// The components that are cyclic.
    fn cyclic_components(ir: &ExecIrBuilder, components: &Vec<Vec<Block>>) -> (r: ArenaSet)
        requires
            scc::is_scc_list(
                ir.edges(),
                |b: usize| b < ir@.len(),
                scc::component_blocks(components@),
            ),
        ensures
            forall|c: usize| #[trigger]
                r.has(c) <==> c < components@.len() && is_cyclic_component(
                    ir.edges(),
                    components@[c as int]@,
                ),
    {
        let ghost ok = |b: usize| b < ir@.len();
        let ghost comps = scc::component_blocks(components@);
        let mut is_cyclic = ArenaSet::new();
        let mut c: usize = 0;
        while c < components.len()
            invariant
                c <= components@.len(),
                ok == (|b: usize| b < ir@.len()),
                comps == scc::component_blocks(components@),
                scc::is_scc_list(ir.edges(), ok, comps),
                forall|d: usize| #[trigger]
                    is_cyclic.has(d) <==> d < c && is_cyclic_component(
                        ir.edges(),
                        components@[d as int]@,
                    ),
            decreases components@.len() - c,
        {
            proof {
                assert forall|i: int| 0 <= i < components@[c as int]@.len() implies #[trigger] components@[c as int]@[i]
                    < ir@.len() by {
                    assert(ok(comps[c as int][i]));
                }
            }
            if component_is_cyclic(ir, components[c].as_slice()) {
                is_cyclic.insert(c);
            }
            c = c + 1;
        }
        is_cyclic
    }

    /// Every block has a component.
    pub(crate) proof fn lemma_has_component(self, blocks: Seq<BlockView>, b: usize)
        requires
            self.condenses(blocks),
            b < blocks.len(),
        ensures
            self.component_of.at(b) is Some,
    {
        reveal(SccGraph::condenses);
    }

    /// Two blocks are in one component exactly where each can be reached from the
    /// other, and a component is cyclic exactly where a cycle runs through its blocks.
    pub proof fn components_are_right(
        self,
        blocks: Seq<BlockView>,
        kinds: Seq<StmtData>,
        u: usize,
        v: usize,
    )
        requires
            self.condenses(blocks),
            ir::well_formed(blocks, kinds),
            u < blocks.len(),
            v < blocks.len(),
        ensures
            self.component_of.at(u) == self.component_of.at(v) <==> mutually_reachable(
                ir::flow(blocks),
                u,
                v,
            ),
            self.is_cyclic.has(self.component_of.at(u)->0) <==> graph::on_cycle(
                ir::flow(blocks),
                u,
            ),
    {
        reveal(SccGraph::condenses);
        let e = ir::flow(blocks);
        let comps = scc::component_blocks(self.components@);
        assert(self.component_of.at(u) is Some && self.component_of.at(v) is Some);
        let c = self.component_of.at(u)->0 as int;
        let d = self.component_of.at(v)->0 as int;
        let i = comps[c].index_of(u);
        let j = comps[d].index_of(v);
        assert(comps[c].contains(u) && comps[d].contains(v));
        assert(comps[c][i] == u && comps[d][j] == v);
        assert(mutually_reachable(e, comps[c][i], comps[d][j]) <==> c == d);
        let component = comps[c];
        assert(component.no_duplicates()) by {
            assert forall|x: int, y: int|
                0 <= x < component.len() && 0 <= y < component.len() && x != y implies component[x]
                != component[y] by {
                assert(comps[c][x] != comps[c][y]);
            }
        }
        assert forall|x: int, w: usize| 0 <= x < component.len() implies (
        #[trigger] mutually_reachable(e, component[x], w) <==> component.contains(w)) by {
            let y = component[x];
            assert(comps[c][x] == y);
            if component.contains(w) {
                let z = component.index_of(w);
                assert(mutually_reachable(e, comps[c][x], comps[c][z]));
            }
            if mutually_reachable(e, y, w) {
                lemma_reach_range(blocks, kinds, y, w);
                if w < blocks.len() {
                    assert(self.component_of.at(w) is Some);
                    let f = self.component_of.at(w)->0 as int;
                    assert(comps[f].contains(w));
                    let z = comps[f].index_of(w);
                    assert(mutually_reachable(e, comps[c][x], comps[f][z]));
                } else {
                    assert(component[x] == w);
                }
            }
        }
        cyclic_components_hold_cycles(e, component, i);
        assert(self.is_cyclic.has(c as usize) <==> is_cyclic_component(e, comps[c]));
    }

    /// Whether a component is cyclic.
    pub fn component_is_cyclic(&self, component: SccComponent) -> (r: bool)
        ensures
            r == self.is_cyclic.has(component),
    {
        self.is_cyclic.contains(component)
    }
}

/// Successors are blocks.
pub(crate) proof fn lemma_flow_range(blocks: Seq<BlockView>, kinds: Seq<StmtData>, u: usize, v: usize)
    requires
        ir::well_formed(blocks, kinds),
    ensures
        ir::flow(blocks)(u, v) ==> u < blocks.len() && v < blocks.len(),
{
    if ir::flow(blocks)(u, v) {
        let i = blocks[u as int].successors.index_of(v);
        assert(blocks[u as int].successors[i] < blocks.len());
    }
}

/// What can be reached in at least one step is a block.
proof fn lemma_reach_range(blocks: Seq<BlockView>, kinds: Seq<StmtData>, u: usize, v: usize)
    requires
        ir::well_formed(blocks, kinds),
        reaches(ir::flow(blocks), u, v),
    ensures
        v < blocks.len() || u == v,
{
    reveal(reaches);
    let e = ir::flow(blocks);
    let p = choose|p: Seq<usize>| #[trigger] graph::is_path(e, p) && p[0] == u && p.last() == v;
    if p.len() > 1 {
        assert(graph::is_step(e, p, p.len() - 2));
        lemma_flow_range(blocks, kinds, p[p.len() - 2], v);
    }
}

proof fn lemma_link_next(
    blocks: Seq<BlockView>,
    of: ArenaMap<SccComponent>,
    p: usize,
    c: usize,
    block: int,
    i: int,
)
    requires
        0 <= block < blocks.len(),
        blocks.len() <= usize::MAX,
        0 <= i < blocks[block].successors.len(),
    ensures
        linked(blocks, of, p, c, block, i + 1) <==> linked(blocks, of, p, c, block, i) || (p != c
            && of.at(block as usize) == Some(p) && of.at(blocks[block].successors[i]) == Some(c)),
{
    if linked(blocks, of, p, c, block, i + 1) {
        let (b, j) = choose|b: int, j: int|
            0 <= b < blocks.len() && 0 <= j < blocks[b].successors.len() && (b < block || (b == block
                && j < i + 1)) && p != c && of.at(b as usize) == Some(p) && of.at(
                #[trigger] blocks[b].successors[j],
            ) == Some(c);
        assert(of.at(blocks[b].successors[j]) == Some(c));
    }
    if linked(blocks, of, p, c, block, i) {
        let (b, j) = choose|b: int, j: int|
            0 <= b < blocks.len() && 0 <= j < blocks[b].successors.len() && (b < block || (b == block
                && j < i)) && p != c && of.at(b as usize) == Some(p) && of.at(
                #[trigger] blocks[b].successors[j],
            ) == Some(c);
        assert(of.at(blocks[b].successors[j]) == Some(c));
    }
    if p != c && of.at(block as usize) == Some(p) && of.at(blocks[block].successors[i]) == Some(c) {
        assert(of.at(blocks[block].successors[i]) == Some(c));
    }
}

proof fn lemma_link_block(
    blocks: Seq<BlockView>,
    of: ArenaMap<SccComponent>,
    p: usize,
    c: usize,
    block: int,
)
    requires
        0 <= block < blocks.len(),
    ensures
        linked(blocks, of, p, c, block, blocks[block].successors.len() as int) <==> linked(
            blocks,
            of,
            p,
            c,
            block + 1,
            0,
        ),
{
    let n = blocks[block].successors.len() as int;
    if linked(blocks, of, p, c, block, n) {
        let (b, j) = choose|b: int, j: int|
            0 <= b < blocks.len() && 0 <= j < blocks[b].successors.len() && (b < block || (b == block
                && j < n)) && p != c && of.at(b as usize) == Some(p) && of.at(
                #[trigger] blocks[b].successors[j],
            ) == Some(c);
        assert(of.at(blocks[b].successors[j]) == Some(c));
    }
    if linked(blocks, of, p, c, block + 1, 0) {
        let (b, j) = choose|b: int, j: int|
            0 <= b < blocks.len() && 0 <= j < blocks[b].successors.len() && (b < block + 1 || (b
                == block + 1 && j < 0)) && p != c && of.at(b as usize) == Some(p) && of.at(
                #[trigger] blocks[b].successors[j],
            ) == Some(c);
        assert(of.at(blocks[b].successors[j]) == Some(c));
    }
}

/// Edges between components lead to components found earlier.
proof fn lemma_link_falls(
    blocks: Seq<BlockView>,
    of: ArenaMap<SccComponent>,
    comps: Seq<Seq<usize>>,
    p: usize,
    c: usize,
    block: int,
)
    requires
        blocks.len() <= usize::MAX,
        scc::is_scc_list(ir::flow(blocks), |b: usize| b < blocks.len(), comps),
        forall|b: usize| (#[trigger] of.at(b)) is Some ==> b < blocks.len() && of.at(b)->0
            < comps.len() && comps[of.at(b)->0 as int].contains(b),
        linked(blocks, of, p, c, block, 0),
    ensures
        c < p,
{
    let e = ir::flow(blocks);
    let (b, j) = choose|b: int, j: int|
        0 <= b < blocks.len() && 0 <= j < blocks[b].successors.len() && (b < block || (b == block && j
            < 0)) && p != c && of.at(b as usize) == Some(p) && of.at(
            #[trigger] blocks[b].successors[j],
        ) == Some(c);
    let u = b as usize;
    let v = blocks[b].successors[j];
    assert(blocks[b].successors.contains(v));
    assert(e(u, v));
    let x = comps[p as int].index_of(u);
    let y = comps[c as int].index_of(v);
    assert(comps[p as int][x] == u && comps[c as int][y] == v);
    assert(mutually_reachable(e, comps[p as int][x], comps[c as int][y]) <==> p == c);
}

} // verus!
