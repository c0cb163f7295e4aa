use circuit_analysis::guided::{guided_clustering, GuideCluster};
use circuit_analysis::options::{HybridClusteringMethodOptions, TiebreakingStrategy};

fn options() -> HybridClusteringMethodOptions {
    HybridClusteringMethodOptions { tiebreaking_strategy: TiebreakingStrategy::FirstInList, recipient_requires_subsets: false }
}

fn guide() -> Vec<GuideCluster> {
    vec![
        GuideCluster { id: 5, signals: vec![1, 2], constraints: vec![0] },
        GuideCluster { id: 3, signals: vec![2, 3], constraints: vec![1] },
    ]
}

#[test]
fn each_constraint_goes_to_the_cluster_sharing_most_signals_and_ties_go_to_the_smallest_id() {
    let atoms = vec![vec![1], vec![2], vec![3]];
    let r = guided_clustering(&guide(), &atoms, options()).unwrap();
    assert_eq!(r, vec![(5, vec![0]), (3, vec![1, 2])]);
}

#[test]
fn a_constraint_reached_only_through_another_is_placed_in_a_later_round() {
    let atoms = vec![vec![9], vec![3, 9], vec![1]];
    let r = guided_clustering(&guide(), &atoms, options()).unwrap();
    assert_eq!(r, vec![(5, vec![2]), (3, vec![1, 0])]);
}

#[test]
fn the_cluster_with_more_signals_in_common_wins_over_a_smaller_id() {
    let atoms = vec![vec![1, 2], vec![3]];
    let r = guided_clustering(&guide(), &atoms, options()).unwrap();
    assert_eq!(r, vec![(5, vec![0]), (3, vec![1])]);
}

#[test]
fn uncovered_constraints_are_an_error_naming_them() {
    let err = guided_clustering(&guide(), &vec![vec![1], vec![42], vec![3]], options()).unwrap_err();
    assert_eq!(
        err,
        "Guided clustering covered only 2 of 3 recipient constraints: [1] share no signal with any cluster of the guide, so nothing covers them"
    );
    let many: Vec<Vec<usize>> = (0..12).map(|_| vec![42]).collect();
    let err = guided_clustering(&guide(), &many, options()).unwrap_err();
    assert_eq!(
        err,
        "Guided clustering covered only 0 of 12 recipient constraints: [0, 1, 2, 3, 4, 5, 6, 7, 8, 9] (and 2 more) share no signal with any cluster of the guide, so nothing covers them"
    );
}

#[test]
fn an_empty_recipient_cluster_is_an_error() {
    let err = guided_clustering(&guide(), &vec![vec![3]], options()).unwrap_err();
    assert_eq!(err, "Recipient cluster 5 is empty; Corresponding guide cluster has atoms [0]");
}

#[test]
fn no_constraints_and_no_clusters_is_an_empty_clustering() {
    let r = guided_clustering(&Vec::new(), &Vec::new(), options()).unwrap();
    assert!(r.is_empty());
}
