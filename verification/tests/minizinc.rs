use std::collections::HashSet;

use circuit_analysis::minizinc_data::{chosen_arcs, dzn_document, extend_dag_data, solution_raw, DznValue};
use circuit_analysis::mixed_graph::MixedGraph;

fn pair(a: usize, b: usize) -> DznValue {
    DznValue::Array(vec![DznValue::Natural(a), DznValue::Natural(b)])
}

#[test]
fn a_matrix_is_written_as_a_two_dimensional_array() {
    let entries = vec![("arcs".to_string(), DznValue::Array(vec![pair(1, 2), pair(3, 4)]))];
    assert_eq!(dzn_document(&entries), "arcs = array2d(1..2, 1..2, [1,2,3,4]);\n");
}

#[test]
fn a_jagged_array_is_written_as_a_one_dimensional_array() {
    let v = DznValue::Array(vec![
        DznValue::Natural(1),
        DznValue::Negative(2),
        DznValue::Bool(true),
        DznValue::Null,
        DznValue::Str("a\"b\\".to_string()),
    ]);
    let entries = vec![("x".to_string(), v)];
    assert_eq!(dzn_document(&entries), "x = array1d(1..5, [1,-2,true,undefined,\"a\\\"b\\\\\"]);\n");
}

#[test]
fn an_empty_array_is_an_empty_matrix() {
    let entries = vec![("e".to_string(), DznValue::Array(vec![])), ("n".to_string(), DznValue::Natural(10))];
    assert_eq!(dzn_document(&entries), "e = array2d(1..0, 1..0, []);\nn = 10;\n");
}

#[test]
fn the_data_of_the_extension_lists_the_arcs_from_one() {
    let mut g = MixedGraph::new(
        vec![vec![10], vec![11], vec![12]],
        vec![vec![1], vec![0, 2], vec![1]],
        HashSet::from([0]),
        HashSet::from([2]),
    );
    g.dir_adjacencies[1] = HashSet::from([2, 0]);
    let data = extend_dag_data(&g, &vec![(0, 1)]);
    let text = dzn_document(&data);
    assert_eq!(
        text,
        "fixed_arcs = array2d(1..2, 1..2, [1,2,3,2]);\nn = 3;\nnum_fixed_arcs = 2;\nnum_var_arcs = 1;\nvar_arcs = array2d(1..1, 1..2, [1,2]);\n"
    );
}

fn object(entries: Vec<(&str, DznValue)>) -> DznValue {
    DznValue::Object(entries.into_iter().map(|(k, v)| (k.to_string(), v)).collect())
}

#[test]
fn the_solution_is_read_from_the_second_to_last_value() {
    let solution = object(vec![
        ("type", DznValue::Str("solution".to_string())),
        ("output", object(vec![("raw", DznValue::Str("1 0 1".to_string()))])),
    ]);
    let status = object(vec![("type", DznValue::Str("status".to_string()))]);
    let raw = solution_raw(&vec![solution, status]).unwrap();
    assert_eq!(raw, "1 0 1");
    assert_eq!(chosen_arcs(&vec![(0, 1), (1, 2), (2, 3)], &raw), Some(vec![(0, 1), (2, 3)]));
}

#[test]
fn a_stream_without_a_solution_gives_none() {
    let status = object(vec![("type", DznValue::Str("status".to_string()))]);
    assert_eq!(solution_raw(&vec![status]).is_none(), true);
    assert_eq!(chosen_arcs(&vec![(0, 1), (1, 2)], "1"), None);
}
