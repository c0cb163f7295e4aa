use circuit_analysis::fingerprinting::iterated_refinement;

/// Items 0 and 1 are constraints, 2, 3 and 4 signals.
/// Constraint 0 holds signals 2 and 3, constraint 1 holds signals 3 and 4.
fn two_constraints(c0: [usize; 2], c1: [usize; 2]) -> (Vec<(bool, usize)>, Vec<Vec<(usize, usize)>>) {
    let initial = vec![(false, 0), (false, 0), (true, 0), (true, 0), (true, 0)];
    let incidences = vec![
        vec![(2, c0[0]), (3, c0[1])],
        vec![(3, c1[0]), (4, c1[1])],
        vec![(0, c0[0])],
        vec![(0, c0[1]), (1, c1[0])],
        vec![(1, c1[1])],
    ];
    (initial, incidences)
}

#[test]
fn the_order_of_an_items_incidences_does_not_matter() {
    let (initial, mut incidences) = two_constraints([7, 7], [7, 7]);
    incidences[1].reverse();
    let r = iterated_refinement(&initial, &incidences);
    assert_eq!(r, vec![0, 0, 2, 3, 2]);
}

#[test]
fn characteristics_tell_incidences_apart() {
    // Signal 3 holds constraint 0 with characteristic 1 and constraint 1
    // with characteristic 2: the two constraints differ, and so do signals
    // 2 and 4.
    let (initial, incidences) = two_constraints([1, 1], [2, 2]);
    let r = iterated_refinement(&initial, &incidences);
    assert_eq!(r, vec![0, 1, 2, 3, 4]);
}

#[test]
fn constraints_and_signals_never_share_a_label() {
    let initial = vec![(false, 5), (true, 5)];
    let incidences = vec![vec![(1, 0)], vec![(0, 0)]];
    assert_eq!(iterated_refinement(&initial, &incidences), vec![0, 1]);
}

#[test]
fn equal_circuits_share_their_labels() {
    // Two copies of one constraint with one signal, numbered together.
    let initial = vec![(false, 1), (true, 2), (false, 1), (true, 2)];
    let incidences = vec![vec![(1, 4)], vec![(0, 4)], vec![(3, 4)], vec![(2, 4)]];
    assert_eq!(iterated_refinement(&initial, &incidences), vec![0, 1, 0, 1]);
}

use circuit_analysis::fingerprinting::relabel_round;

#[test]
fn singular_labels_come_first_and_the_rest_move_past_them() {
    // Circuit 0: label 7 holds one item, label 9 two; circuit 1: label 9
    // holds one item, label 7 two.
    let classes = vec![
        vec![(7, vec![0]), (9, vec![1, 2])],
        vec![(9, vec![5]), (7, vec![3, 4])],
    ];
    let (loose, count) = relabel_round(&classes, 10, false);
    assert_eq!(count, 12);
    assert_eq!(loose[0], vec![(10, vec![0]), (21, vec![1, 2])]);
    assert_eq!(loose[1], vec![(11, vec![5]), (19, vec![3, 4])]);

    let (strict, count) = relabel_round(&classes, 10, true);
    assert_eq!(count, 10);
    assert_eq!(strict[0], vec![(17, vec![0]), (19, vec![1, 2])]);
    assert_eq!(strict[1], vec![(19, vec![5]), (17, vec![3, 4])]);
}

#[test]
fn a_label_singular_everywhere_is_renamed_once() {
    let classes = vec![vec![(4, vec![0])], vec![(4, vec![1])]];
    let (renamed, count) = relabel_round(&classes, 0, true);
    assert_eq!(count, 1);
    assert_eq!(renamed, vec![vec![(0, vec![0])], vec![(0, vec![1])]]);
}
