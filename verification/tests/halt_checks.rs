//! Where halt checks are inserted.

use rapid_arm_emu::ir::halt_check_pass::{insert_halt_checks, HaltCheckInserter};
use rapid_arm_emu::ir::halt_map::HaltStateMap;
use rapid_arm_emu::ir::halt_state::HaltState;
use rapid_arm_emu::ir::scc::strongly_connected_components;
use rapid_arm_emu::ir::scc_graph::{block_has_safepoint, cycles_have_safepoints, SccGraph};
use rapid_arm_emu::ir::{BlockData, ExecIrBuilder, StmtData, StmtKind};

/// A function whose block `i` has the statements `blocks[i].0`, `s` for a safepoint, and
/// the successors `blocks[i].1`.
fn function(halt_check_every: u64, blocks: &[(&str, &[usize])]) -> ExecIrBuilder {
    let mut stmts = vec![];
    let mut data = vec![];
    for (text, successors) in blocks {
        let mut block = vec![];
        for kind in text.chars() {
            block.push(stmts.len());
            stmts.push(StmtData {
                rvalue: if kind == 's' { StmtKind::Safepoint } else { StmtKind::Other },
            });
        }
        data.push(BlockData {
            stmts: block,
            successors: successors.to_vec(),
            halt_check: false,
        });
    }
    ExecIrBuilder { blocks: data, stmts, halt_check_every }
}

fn text(ir: &ExecIrBuilder, block: usize) -> String {
    ir.blocks[block]
        .stmts
        .iter()
        .map(|&stmt| match ir.stmts[stmt].rvalue {
            StmtKind::Safepoint => 's',
            StmtKind::Other => '.',
        })
        .collect()
}

/// The pieces of a block, with `|` for each halt check between them.
fn broken_down(ir: &ExecIrBuilder, block: usize) -> String {
    let mut out = text(ir, block);
    let mut at = block;
    while ir.blocks[at].halt_check {
        assert_eq!(ir.blocks[at].successors.len(), 1);
        at = ir.blocks[at].successors[0];
        out.push('|');
        out += &text(ir, at);
    }
    out
}

fn with_checks(halt_check_every: u64, blocks: &[(&str, &[usize])]) -> Vec<String> {
    let mut ir = function(halt_check_every, blocks);
    assert!(cycles_have_safepoints(&ir));
    insert_halt_checks(&mut ir);
    (0..blocks.len()).map(|block| broken_down(&ir, block)).collect()
}

#[test]
fn a_long_block_gets_periodic_checks() {
    assert_eq!(with_checks(2, &[("s.s.s.ss.s", &[])]), ["s.s|.s.s|s.s|"]);
    assert_eq!(with_checks(3, &[("ss.", &[])]), ["ss."]);
    assert_eq!(with_checks(1, &[(".s.s", &[])]), [".s|.s|"]);
}

#[test]
fn continuations_are_new_blocks_that_end_as_the_block_did() {
    let mut ir = function(1, &[("s.s", &[1, 2]), ("", &[]), ("", &[])]);
    insert_halt_checks(&mut ir);
    assert_eq!(ir.blocks.len(), 5);
    assert_eq!(ir.blocks[0].successors, [3]);
    assert!(ir.blocks[0].halt_check);
    assert_eq!(ir.blocks[3].successors, [4]);
    assert!(ir.blocks[3].halt_check);
    assert_eq!(ir.blocks[4].successors, [1, 2]);
    assert!(!ir.blocks[4].halt_check);
    assert_eq!(ir.blocks[4].stmts, [0; 0]);
}

#[test]
fn blocks_do_not_share_continuations() {
    let mut ir = function(1, &[("s.", &[1, 2]), ("s.", &[]), ("s.s.", &[])]);
    insert_halt_checks(&mut ir);
    assert_eq!(ir.blocks.len(), 7);
    let mut continuations: Vec<usize> = ir
        .blocks
        .iter()
        .filter(|block| block.halt_check)
        .map(|block| block.successors[0])
        .collect();
    continuations.sort();
    assert_eq!(continuations, [3, 4, 5, 6]);
}

#[test]
fn the_countdown_runs_on_from_block_to_block() {
    assert_eq!(
        with_checks(3, &[("ss", &[1]), ("ss", &[2]), ("ss", &[])]),
        ["ss", "s|s", "ss|"]
    );
}

#[test]
fn the_lowest_countdown_wins_at_a_merge() {
    // The paths arrive with seven and one safepoints to go.
    assert_eq!(
        with_checks(
            10,
            &[("", &[1, 2]), ("sss", &[4]), ("sssssss", &[3]), ("ss", &[4]), ("sss", &[])],
        ),
        ["", "sss", "sssssss", "ss", "s|ss"]
    );
}

#[test]
fn safepoints_in_a_loop_are_all_checked_and_the_countdown_is_kept_across_it() {
    assert_eq!(
        with_checks(3, &[("s", &[1]), ("s.s", &[1, 2]), ("sss", &[])]),
        ["s", "s|.s|", "ss|s"]
    );
    // A loop of two blocks.
    assert_eq!(
        with_checks(4, &[("ss", &[1]), (".", &[2, 3]), ("s", &[1]), ("sss", &[])]),
        ["ss", ".", "s|", "ss|s"]
    );
}

#[test]
fn the_limit_may_be_larger_than_any_count() {
    assert_eq!(with_checks(u64::MAX, &[("ssss", &[])]), ["ssss"]);
}

#[test]
fn cycles_without_safepoints_are_found() {
    assert!(!cycles_have_safepoints(&function(1, &[(".", &[0])])));
    assert!(!cycles_have_safepoints(&function(1, &[("s", &[1]), (".", &[2]), ("", &[1, 0])])));
    assert!(cycles_have_safepoints(&function(1, &[("s", &[1]), (".", &[2]), ("", &[0])])));
    assert!(cycles_have_safepoints(&function(1, &[("", &[1, 2]), ("", &[2]), ("", &[])])));
}

#[test]
fn components_are_strongly_connected() {
    let ir = function(1, &[("", &[1]), ("s", &[2, 3]), ("", &[1]), ("s", &[3]), ("", &[])]);
    let mut components = strongly_connected_components(&ir, None);
    for component in &mut components {
        component.sort();
    }
    components.sort();
    assert_eq!(components, [vec![0], vec![1, 2], vec![3], vec![4]]);
    assert!(block_has_safepoint(&ir, 1));
    assert!(!block_has_safepoint(&ir, 2));
}

#[test]
fn the_graph_of_components_is_in_order() {
    let ir = function(1, &[("", &[1]), ("s", &[2, 3]), ("", &[1]), ("s", &[3]), ("", &[])]);
    let graph = SccGraph::new(&ir);
    assert_eq!(graph.topo_order.len(), 4);
    let place = |block: usize| {
        let component = *graph.component_of.expect(block);
        graph.topo_order.iter().position(|&c| c == component).unwrap()
    };
    assert!(place(0) < place(1));
    assert_eq!(place(1), place(2));
    assert!(place(1) < place(3));
    let cyclic = |block: usize| graph.component_is_cyclic(*graph.component_of.expect(block));
    assert!(!cyclic(0));
    assert!(cyclic(1));
    assert!(cyclic(3));
    assert!(!cyclic(4));
}

#[test]
fn a_deep_graph_is_searched() {
    let blocks = 50_000;
    let successors: Vec<[usize; 1]> = (0..blocks).map(|b| [(b + 1) % blocks]).collect();
    let data: Vec<(&str, &[usize])> =
        successors.iter().map(|next| (".", next.as_slice())).collect();
    let ir = function(1, &data);
    assert_eq!(strongly_connected_components(&ir, None).len(), 1);
    assert!(!cycles_have_safepoints(&ir));
}

#[test]
fn the_countdown_starts_anew_behind_a_check() {
    let mut state = HaltState::from_remaining(2);
    assert!(!state.push_safepoint(3, 10).0);
    assert_eq!((state.remaining, state.suffix_len()), (1, 1));
    assert!(state.push_safepoint(3, 11).0);
    assert_eq!((state.remaining, state.suffix_len()), (3, 0));
    assert!(!state.push_safepoint(3, 12).0);
    assert_eq!(state.duplicate().suffix_len(), 1);
}

#[test]
fn the_history_is_no_longer_than_the_limit() {
    let mut state = HaltState::from_remaining(5);
    for safepoint in 0..4 {
        assert!(!state.push_safepoint(2, safepoint).0);
    }
    assert_eq!(state.suffix_len(), 2);
}

#[test]
fn the_lowest_countdown_wins_and_one_history_is_kept() {
    assert_eq!(HaltState::merge_halt_states(7, &[]).remaining, 7);

    let mut only = HaltState::from_remaining(5);
    assert!(!only.push_safepoint(7, 3).0);
    let merged = HaltState::merge_halt_states(7, &[only]);
    assert_eq!((merged.remaining, merged.suffix_len()), (4, 1));

    let mut first = HaltState::from_remaining(6);
    assert!(!first.push_safepoint(7, 3).0);
    let states = [first, HaltState::from_remaining(2), HaltState::from_remaining(9)];
    let merged = HaltState::merge_halt_states(7, &states);
    assert_eq!((merged.remaining, merged.suffix_len()), (2, 0));
}

#[test]
fn arrivals_are_kept_per_edge_and_drained() {
    let mut map = HaltStateMap::new();
    assert!(map.add_edge(0, 2, HaltState::from_remaining(5)).is_none());
    assert!(map.add_edge(1, 2, HaltState::from_remaining(6)).is_none());
    assert_eq!(map.add_edge(0, 2, HaltState::from_remaining(7)).unwrap().remaining, 5);

    let mut drained: Vec<(usize, usize)> = map
        .drain_incoming(2)
        .iter()
        .map(|(to, state)| (*to, state.remaining))
        .collect();
    drained.sort();
    assert_eq!(drained, [(2, 6), (2, 7)]);
    assert!(map.drain_incoming(2).is_empty());
}

#[test]
fn a_cut_stands_behind_the_safepoint() {
    let mut inserter = HaltCheckInserter::new(function(9, &[("s.s", &[0])]));
    let rest = inserter.insert_halt_check_after_safepoint_indexed(0, 0);
    assert_eq!(rest, 1);
    assert_eq!(text(inserter.ir(), 0), "s");
    assert_eq!(text(inserter.ir(), 1), ".s");
    assert_eq!(inserter.ir().blocks[1].successors, [0]);
}

#[test]
fn a_block_is_broken_down_on_its_own() {
    let mut inserter = HaltCheckInserter::new(function(2, &[("sss", &[])]));
    let (last, state) = HaltState::from_remaining(1).break_down_block(&mut inserter, 2, 0);
    assert_eq!(broken_down(inserter.ir(), 0), "s|ss|");
    assert_eq!(last, 2);
    assert_eq!(state.remaining, 2);

    let mut inserter = HaltCheckInserter::new(function(2, &[("s.s.", &[])]));
    let last = HaltState::force_halt_checks_after_safepoints(&mut inserter, 0);
    assert_eq!(broken_down(inserter.ir(), 0), "s|.s|.");
    assert_eq!(last, 2);
}
