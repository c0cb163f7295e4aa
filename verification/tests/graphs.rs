use std::collections::HashSet;

use circuit_analysis::dzn::format_dzn;
use circuit_analysis::label_propagation::iterated_label_propagation;
use circuit_analysis::lt;
use circuit_analysis::pdag::pdag_extension;
use circuit_analysis::mixed_graph::{distance_to_source_set, MixedGraph};

fn set(items: &[usize]) -> HashSet<usize> {
    items.iter().copied().collect()
}

/// A path 0 - 1 - 2, one constraint per part, input 0 and output 2.
fn path() -> MixedGraph {
    MixedGraph::new(
        vec![vec![10], vec![11], vec![12]],
        vec![vec![1], vec![0, 2], vec![1]],
        set(&[0]),
        set(&[2]),
    )
}

#[test]
fn a_new_graph_reads_each_edge_once_from_its_smaller_end() {
    let g = path();
    assert_eq!(g.n, 3);
    assert_eq!(g.m, 2);
    assert_eq!(g.edges, vec![(0, 1), (1, 2)]);
    assert!(!g.edge_oriented(0));
    assert!(!g.pair_oriented(1, 2));
}

#[test]
fn distances_are_breadth_first_and_unreachable_parts_are_at_max() {
    let adjacency = vec![vec![1], vec![0, 2], vec![1], vec![]];
    assert_eq!(distance_to_source_set(&set(&[0]), &adjacency), vec![0, 1, 2, usize::MAX]);
    assert_eq!(distance_to_source_set(&set(&[2, 3]), &adjacency), vec![2, 1, 0, 0]);
}

#[test]
fn the_partial_order_is_strict() {
    assert!(lt((0, 2), (1, 1)));
    assert!(lt((1, 2), (1, 1)));
    assert!(!lt((1, 1), (1, 1)));
    assert!(!lt((0, 0), (1, 1)));
}

#[test]
fn orienting_a_path_points_every_edge_from_input_to_output() {
    let mut g = path();
    let distances = g.orient_by_partial_order();
    assert_eq!(distances, vec![(0, 2), (1, 1), (2, 0)]);
    assert!(g.edge_oriented(0) && g.edge_oriented(1));
    assert!(g.dir_adjacencies[0].contains(&1));
    assert!(g.dir_adjacencies[1].contains(&2));
    let (fuzzy, init) = g.export_to_dzn();
    assert_eq!(fuzzy, vec![false, false]);
    assert_eq!(init, vec![2, 2]);
}

#[test]
fn inverting_twice_gives_the_reading_back() {
    let mut g = path();
    assert!(!g.invert_edge_direction());
    assert!(g.invert_edge_direction());
}

#[test]
fn a_leaf_gets_an_arc_from_its_neighbour() {
    let mut g = MixedGraph::new(
        vec![vec![0], vec![1], vec![2], vec![3]],
        vec![vec![1], vec![0, 2, 3], vec![1], vec![1]],
        set(&[]),
        set(&[]),
    );
    g.orient_leaf_parts();
    assert!(g.dir_adjacencies[1].contains(&0));
    assert!(g.dir_adjacencies[1].contains(&2));
    assert!(g.dir_adjacencies[1].contains(&3));
    let (fuzzy, init) = g.export_to_dzn();
    assert_eq!(fuzzy, vec![false, false, false]);
    assert_eq!(init, vec![1, 2, 2]);
}

#[test]
fn merging_groups_parts_and_their_neighbours() {
    let g = path();
    let merged = g.merge(&vec![vec![0, 1], vec![2]]);
    assert_eq!(merged.n, 2);
    assert_eq!(merged.partition, vec![vec![10, 11], vec![12]]);
    assert_eq!(merged.adjacencies, vec![vec![1], vec![0]]);
    assert_eq!(merged.edges, vec![(0, 1)]);
    assert_eq!(merged.input_parts, set(&[0]));
    assert_eq!(merged.output_parts, set(&[1]));
}

#[test]
fn the_data_file_numbers_parts_and_edges_from_one() {
    let text = format_dzn(
        &vec![vec![1], vec![2, 0], vec![1]],
        &vec![(0, 1), (1, 2)],
        &vec![true, false],
        &vec![0, 2],
        &set(&[0]),
        &set(&[2]),
    );
    let expected = "n = 3;\nm = 2;\n\n\
edges = [| 1, 2\n | 2, 3\n|];\n\n\
fuzzy = [\ntrue,false];\n\n\
init_direction = [\n0,2];\n\n\
incidence = [\n  {1},\n  {1,2},\n  {2},\n];\n\n\
adjacency = [\n  {2},\n  {1,3},\n  {2},\n];\n\
s_input = {1};\n\
s_output = {3};\n";
    assert_eq!(text, expected);
}

#[test]
fn a_loop_edge_is_listed_once_in_its_part() {
    let text = format_dzn(&vec![vec![0]], &vec![(0, 0)], &vec![true], &vec![0], &set(&[]), &set(&[0, 0]));
    assert!(text.contains("incidence = [\n  {1},\n];"), "{text}");
    assert!(text.ends_with("s_input = {};\ns_output = {1};\n"), "{text}");
}

fn sorted_classes(classes: &[(usize, Vec<usize>)]) -> Vec<Vec<usize>> {
    let mut out: Vec<Vec<usize>> = classes
        .iter()
        .map(|(_, members)| {
            let mut m = members.clone();
            m.sort();
            m
        })
        .collect();
    out.sort();
    out
}

fn label_in(classes: &[(usize, Vec<usize>)], i: usize) -> usize {
    classes.iter().find(|(_, members)| members.contains(&i)).unwrap().0
}

fn path_adjacency() -> Vec<(usize, Vec<usize>)> {
    vec![(0, vec![1]), (1, vec![0, 2]), (2, vec![1])]
}

#[test]
fn label_propagation_splits_the_middle_of_a_path() {
    let adjacency = vec![path_adjacency()];
    let initial = vec![vec![(7, vec![0, 1, 2])]];
    let result = iterated_label_propagation(&adjacency, initial);
    assert_eq!(result.len(), 1);
    assert_eq!(sorted_classes(&result[0]), vec![vec![0, 2], vec![1]]);
}

#[test]
fn label_propagation_shares_labels_between_equal_graphs() {
    let adjacency = vec![path_adjacency(), path_adjacency()];
    let initial = vec![vec![(7, vec![0, 1, 2])], vec![(7, vec![2, 1, 0])]];
    let result = iterated_label_propagation(&adjacency, initial);
    assert_eq!(sorted_classes(&result[0]), vec![vec![0, 2], vec![1]]);
    assert_eq!(sorted_classes(&result[1]), vec![vec![0, 2], vec![1]]);
    assert_eq!(label_in(&result[0], 0), label_in(&result[1], 2));
    assert_eq!(label_in(&result[0], 1), label_in(&result[1], 1));
    assert_ne!(label_in(&result[0], 0), label_in(&result[0], 1));
}

#[test]
fn label_propagation_keeps_initial_classes_apart() {
    let adjacency = vec![vec![(10, vec![11]), (11, vec![10]), (12, vec![13]), (13, vec![12])]];
    let initial = vec![vec![(1, vec![10, 12]), (2, vec![11]), (3, vec![13])]];
    let result = iterated_label_propagation(&adjacency, initial);
    assert_eq!(sorted_classes(&result[0]), vec![vec![10], vec![11], vec![12], vec![13]]);
}

#[test]
fn label_propagation_counts_a_repeated_index_once() {
    let adjacency = vec![path_adjacency()];
    let initial = vec![vec![(7, vec![0, 1, 2, 0, 2])]];
    let result = iterated_label_propagation(&adjacency, initial);
    assert_eq!(sorted_classes(&result[0]), vec![vec![0, 2], vec![1]]);
}

#[test]
fn label_propagation_of_a_cycle_keeps_one_class() {
    let adjacency = vec![vec![(0, vec![1, 2]), (1, vec![2, 0]), (2, vec![0, 1])]];
    let initial = vec![vec![(5, vec![0, 1, 2])]];
    let result = iterated_label_propagation(&adjacency, initial);
    assert_eq!(sorted_classes(&result[0]), vec![vec![0, 1, 2]]);
}

#[test]
fn label_propagation_ignores_empty_initial_classes() {
    let adjacency = vec![path_adjacency()];
    let initial = vec![vec![(9, vec![]), (7, vec![0, 1, 2])]];
    let result = iterated_label_propagation(&adjacency, initial);
    assert_eq!(sorted_classes(&result[0]), vec![vec![0, 2], vec![1]]);
}

#[test]
fn iterative_orientation_of_a_path_keeps_the_plain_distances() {
    let mut g = path();
    let preorder = g.iterative_orient_by_partial_order();
    assert_eq!(preorder, vec![(0, 2), (1, 1), (2, 0)]);
    assert_eq!(g.dir_adjacencies[0], set(&[1]));
    assert_eq!(g.dir_adjacencies[1], set(&[2]));
    assert_eq!(g.dir_adjacencies[2], set(&[]));
}

#[test]
fn iterative_orientation_follows_the_reading_of_the_arcs() {
    let mut g = path();
    g.invert_edge_direction();
    let preorder = g.iterative_orient_by_partial_order();
    assert_eq!(preorder, vec![(0, 2), (1, 1), (2, 0)]);
    assert_eq!(g.dir_adjacencies[0], set(&[]));
    assert_eq!(g.dir_adjacencies[1], set(&[0]));
    assert_eq!(g.dir_adjacencies[2], set(&[1]));
}

#[test]
fn iterative_orientation_of_a_triangle_orders_every_edge() {
    let mut g = MixedGraph::new(
        vec![vec![0], vec![1], vec![2]],
        vec![vec![1, 2], vec![0, 2], vec![0, 1]],
        set(&[0]),
        set(&[2]),
    );
    let preorder = g.iterative_orient_by_partial_order();
    assert_eq!(preorder, vec![(0, 1), (1, 1), (1, 0)]);
    assert_eq!(g.dir_adjacencies[0], set(&[1, 2]));
    assert_eq!(g.dir_adjacencies[1], set(&[2]));
    assert_eq!(g.dir_adjacencies[2], set(&[]));
}

#[test]
fn pdag_extension_directs_a_path_towards_removed_sinks() {
    let adjacency = vec![vec![1], vec![0, 2], vec![1]];
    let edges = vec![(0, 1), (1, 2)];
    let pdag = vec![0, 0];
    assert_eq!(pdag_extension(&adjacency, &edges, &pdag, 0), Some(vec![(1, 0), (2, 1)]));
}

#[test]
fn pdag_extension_waits_for_an_arc_to_be_removed() {
    let adjacency = vec![vec![1], vec![0]];
    let edges = vec![(0, 1)];
    let pdag = vec![1];
    assert_eq!(pdag_extension(&adjacency, &edges, &pdag, 0), Some(vec![(1, 0)]));
}

#[test]
fn pdag_extension_of_an_undirected_square_has_no_removable_vertex() {
    let adjacency = vec![vec![1, 3], vec![0, 2], vec![1, 3], vec![0, 2]];
    let edges = vec![(0, 1), (1, 2), (2, 3), (0, 3)];
    let pdag = vec![0, 0, 0, 0];
    assert_eq!(pdag_extension(&adjacency, &edges, &pdag, 0), None);
}

#[test]
fn merging_distance_classes_of_a_path_changes_nothing() {
    let mut g = path();
    let preorder = g.merge_equivalence_classes_by_distance_and_orient(0);
    assert_eq!(preorder, vec![(0, 2), (1, 1), (2, 0)]);
    assert_eq!(g.n, 3);
    assert_eq!(g.partition, vec![vec![10], vec![11], vec![12]]);
    assert!(g.dir_adjacencies[0].contains(&1));
    assert!(g.dir_adjacencies[1].contains(&2));
}

#[test]
fn merging_distance_classes_joins_the_middle_of_a_diamond() {
    let mut g = MixedGraph::new(
        vec![vec![10], vec![11], vec![12], vec![13]],
        vec![vec![1, 2], vec![0, 2, 3], vec![0, 1, 3], vec![1, 2]],
        set(&[0]),
        set(&[3]),
    );
    let preorder = g.merge_equivalence_classes_by_distance_and_orient(0);
    assert_eq!(preorder, vec![(0, 2), (1, 1), (2, 0)]);
    assert_eq!(g.n, 3);
    assert_eq!(g.partition, vec![vec![10], vec![11, 12], vec![13]]);
    assert_eq!(g.adjacencies, vec![vec![1], vec![0, 2], vec![1]]);
    assert_eq!(g.edges, vec![(0, 1), (1, 2)]);
    assert_eq!(g.input_parts, set(&[0]));
    assert_eq!(g.output_parts, set(&[2]));
    assert_eq!(g.dir_adjacencies[0], set(&[1]));
    assert_eq!(g.dir_adjacencies[1], set(&[2]));
    assert_eq!(g.dir_adjacencies[2], set(&[]));
}

#[test]
fn an_edge_is_oriented_when_its_ends_are_joined_either_way() {
    let mut g = path();
    g.dir_adjacencies[2].insert(1);
    assert!(!g.edge_oriented(0));
    assert!(g.edge_oriented(1));
    assert_eq!(g.pair_oriented(1, 2), g.pair_oriented(2, 1));
    assert!(g.pair_oriented(1, 2));
    assert!(!g.pair_oriented(0, 1) && !g.pair_oriented(1, 0));
}
