use std::collections::HashSet;

use circuit_analysis::hierarchy::{hierarchy_start, hierarchy_step, part_boundary, HierarchyAction, HierarchyEvent, HierarchyState};
use circuit_analysis::mixed_graph::MixedGraph;
use circuit_analysis::safety::SafetyVerdict;

/// A path 0 - 1 - 2 with an arc between 0 and 1.
fn path() -> MixedGraph {
    let mut g = MixedGraph::new(
        vec![vec![10], vec![11], vec![12]],
        vec![vec![1], vec![0, 2], vec![1]],
        HashSet::from([0]),
        HashSet::from([2]),
    );
    g.dir_adjacencies[1].insert(0);
    g
}

#[test]
fn the_first_round_checks_every_part() {
    let (state, action) = hierarchy_start(&path());
    assert_eq!(state.parts_to_attempt, vec![0, 1, 2]);
    assert!(state.verified_parts.is_empty());
    assert!(matches!(action, HierarchyAction::Check(ps) if ps == vec![0, 1, 2]));
}

#[test]
fn passed_parts_offer_their_edges_without_an_arc() {
    let g = path();
    let (state, _) = hierarchy_start(&g);
    let results = vec![SafetyVerdict::Failed, SafetyVerdict::Verified, SafetyVerdict::Unknown];
    let (state, action) = hierarchy_step(&g, state, HierarchyEvent::Checked(results));
    assert_eq!(state.verified_parts, vec![1]);
    assert!(matches!(action, HierarchyAction::ExtendDag(arcs) if arcs == vec![(1, 2)]));
}

#[test]
fn no_part_passing_stops_the_rounds() {
    let g = path();
    let (state, _) = hierarchy_start(&g);
    let results = vec![SafetyVerdict::Failed; 3];
    let (state, action) = hierarchy_step(&g, state, HierarchyEvent::Checked(results));
    assert_eq!(state.parts_to_attempt, vec![0, 1, 2]);
    assert!(matches!(action, HierarchyAction::Merge));
}

#[test]
fn chosen_arcs_are_oriented_and_their_targets_checked() {
    let g = path();
    let state = HierarchyState { parts_to_attempt: vec![0, 1, 2], verified_parts: vec![1] };
    let (state, action) = hierarchy_step(&g, state, HierarchyEvent::Chosen(vec![(1, 2), (0, 2), (2, 0)]));
    assert_eq!(state.parts_to_attempt, vec![0, 2]);
    assert!(matches!(action, HierarchyAction::OrientAndCheck(a, ps) if a == vec![(1, 2), (0, 2), (2, 0)] && ps == vec![0, 2]));
    let (_, action) = hierarchy_step(&g, state, HierarchyEvent::Chosen(vec![]));
    assert!(matches!(action, HierarchyAction::Merge));
}

#[test]
fn a_part_is_checked_with_the_signals_it_shares() {
    // Part 1 has an arc from part 0 and an edge without an arc to part 2.
    let g = path();
    let constraint_signals = vec![vec![]; 13];
    let mut cs = constraint_signals;
    cs[10] = vec![1, 2];
    cs[11] = vec![2, 3, 4];
    cs[12] = vec![4, 5];
    let (inputs, outputs) = part_boundary(&g, &cs, 1);
    assert_eq!(inputs, vec![2]);
    assert_eq!(outputs, vec![4]);
    let (inputs, outputs) = part_boundary(&g, &cs, 0);
    assert!(inputs.is_empty());
    assert_eq!(outputs, vec![2]);
}
