use network_partitions::clustering::Clustering;
use network_partitions::errors::CoreError;
use network_partitions::leiden_level::{LeidenLevel, LeidenStep};

#[test]
fn level_without_fewer_clusters_than_nodes_is_done() {
    let clustering = Clustering::as_self_clusters(3);
    let mut level = LeidenLevel::new(clustering, 3, false);
    assert!(matches!(level.next_step(), LeidenStep::Done { improved: false }));
    assert_eq!(level.into_clustering(), Clustering::as_self_clusters(3));
}

#[test]
fn level_refines_each_cluster_then_aggregates() {
    // after the moves: {0, 1, 2} and {3, 4}
    let clustering = Clustering::as_defined(vec![0, 0, 0, 1, 1], 2);
    let mut level = LeidenLevel::new(clustering, 5, true);
    assert!(matches!(level.next_step(), LeidenStep::Refine { cluster: 0 }));
    assert_eq!(level.members(0).clone(), vec![0, 1, 2]);
    // the subnetwork holds nodes 2 and 0 only; node 1 has no edge inside
    let labels: Vec<usize> = vec![2, 0];
    let refined = Clustering::as_defined(vec![0, 1], 2);
    assert_eq!(level.after_refinement(&labels, &refined), Ok(()));
    assert!(matches!(level.next_step(), LeidenStep::Refine { cluster: 1 }));
    let labels: Vec<usize> = vec![3, 4];
    let refined = Clustering::as_defined(vec![0, 0], 1);
    assert_eq!(level.after_refinement(&labels, &refined), Ok(()));
    assert_eq!(
        level.clustering().clone(),
        Clustering::as_defined(vec![1, 2, 0, 3, 3], 4)
    );
    let initial = match level.next_step() {
        LeidenStep::Aggregate { initial } => initial,
        _ => panic!("expected the aggregation step"),
    };
    // cluster 0 gave three ids, cluster 1 one
    assert_eq!(initial, Clustering::as_defined(vec![0, 0, 0, 1], 2));
    // the aggregate put ids 0, 1 and 3 together and kept 2 apart
    let induced = Clustering::as_defined(vec![0, 0, 1, 0], 2);
    assert_eq!(level.after_aggregate(false, &induced), Ok(true));
    assert_eq!(
        level.into_clustering(),
        Clustering::as_defined(vec![0, 1, 0, 0, 0], 2)
    );
}

#[test]
fn level_refuses_a_refinement_that_does_not_fit() {
    let clustering = Clustering::as_defined(vec![0, 0, 1], 2);
    let mut level = LeidenLevel::new(clustering, 3, false);
    assert!(matches!(level.next_step(), LeidenStep::Refine { cluster: 0 }));
    // node 2 is not a member of cluster 0
    let labels: Vec<usize> = vec![0, 2];
    let refined = Clustering::as_defined(vec![0, 1], 2);
    assert_eq!(
        level.after_refinement(&labels, &refined),
        Err(CoreError::ClusterIndexingError)
    );
    // a repeated label
    let labels: Vec<usize> = vec![0, 0];
    assert_eq!(
        level.after_refinement(&labels, &refined),
        Err(CoreError::ClusterIndexingError)
    );
    // a refined clustering with an unused id
    let labels: Vec<usize> = vec![0, 1];
    let gappy = Clustering::as_defined(vec![0, 2], 3);
    assert_eq!(
        level.after_refinement(&labels, &gappy),
        Err(CoreError::ClusterIndexingError)
    );
    assert_eq!(level.after_refinement(&labels, &refined), Ok(()));
    assert_eq!(
        level.after_aggregate(false, &Clustering::as_self_clusters(2)),
        Err(CoreError::UnsafeInducementError)
    );
}
