use network_partitions::clustering::{ClusterItem, Clustering};
use network_partitions::errors::CoreError;

#[test]
fn test_remove_empty_clusters() {
    let mut clustering: Clustering = Clustering::as_defined(vec![3, 3, 5, 1, 2, 2, 9, 0], 10);
    let expected: Clustering = Clustering::as_defined(vec![3, 3, 4, 1, 2, 2, 5, 0], 6);
    clustering.remove_empty_clusters();
    assert_eq!(clustering, expected);

    let mut clustering: Clustering = Clustering::as_defined(Vec::new(), 0);
    let expected: Clustering = Clustering::as_defined(Vec::new(), 0);
    clustering.remove_empty_clusters();
    assert_eq!(clustering, expected);
}

#[test]
fn test_merge_clusters() {
    let mut clustering: Clustering = Clustering::as_defined(vec![1, 1, 4, 3, 0, 0, 5, 2], 6);
    let other: Clustering = Clustering::as_defined(vec![0, 2, 2, 3, 4, 4], 5);
    let expected: Clustering = Clustering::as_defined(vec![2, 2, 4, 3, 0, 0, 4, 2], 5);
    clustering.merge_clustering(&other);
    assert_eq!(clustering, expected);
}

#[test]
fn test_num_nodes_per_cluster() {
    let clustering: Clustering = Clustering::as_defined(vec![1, 1, 4, 3, 0, 0, 5, 2], 6);
    let expected: Vec<u64> = vec![2, 2, 1, 1, 1, 1];
    assert_eq!(expected, clustering.num_nodes_per_cluster());
    let clustering: Clustering = Clustering::as_defined(vec![], 0);
    let expected: Vec<u64> = Vec::new();
    assert_eq!(expected, clustering.num_nodes_per_cluster());
}

#[test]
fn test_nodes_per_cluster() {
    let clustering: Clustering = Clustering::as_defined(vec![1, 1, 4, 3, 0, 0, 5, 2], 6);
    let expected: Vec<Vec<usize>> =
        vec![vec![4, 5], vec![0, 1], vec![7], vec![3], vec![2], vec![6]];
    assert_eq!(expected, clustering.nodes_per_cluster());

    let clustering: Clustering = Clustering::as_defined(vec![], 0);
    let expected: Vec<Vec<usize>> = Vec::new();
    assert_eq!(expected, clustering.nodes_per_cluster());
}

#[test]
fn self_clusters_are_the_identity() {
    let clustering = Clustering::as_self_clusters(4);
    assert_eq!(clustering, Clustering::as_defined(vec![0, 1, 2, 3], 4));
    assert_eq!(clustering.num_nodes(), 4);
    assert_eq!(clustering.next_cluster_id(), 4);
}

#[test]
fn new_clustering_is_empty() {
    let clustering = Clustering::new();
    assert_eq!(clustering.num_nodes(), 0);
    assert_eq!(clustering.next_cluster_id(), 0);
}

#[test]
fn cluster_at_out_of_range_is_an_indexing_error() {
    let clustering = Clustering::as_defined(vec![1, 0], 2);
    assert_eq!(clustering.cluster_at(0), Ok(1));
    assert_eq!(clustering.cluster_at(2), Err(CoreError::ClusterIndexingError));
}

#[test]
fn update_cluster_at_raises_next_cluster_id() {
    let mut clustering = Clustering::as_defined(vec![0, 1, 1], 2);
    assert_eq!(clustering.update_cluster_at(1, 7), Ok(()));
    assert_eq!(clustering, Clustering::as_defined(vec![0, 7, 1], 8));
    assert_eq!(clustering.update_cluster_at(2, 0), Ok(()));
    assert_eq!(clustering.next_cluster_id(), 8);
    assert_eq!(
        clustering.update_cluster_at(3, 0),
        Err(CoreError::ClusterIndexingError)
    );
    assert_eq!(clustering, Clustering::as_defined(vec![0, 7, 0], 8));
}

#[test]
fn compaction_leaves_a_compact_clustering_alone() {
    let mut clustering = Clustering::as_defined(vec![2, 0, 1, 0], 3);
    clustering.remove_empty_clusters();
    assert_eq!(clustering, Clustering::as_defined(vec![2, 0, 1, 0], 3));
}

#[test]
fn merge_subnetwork_clustering_offsets_by_next_cluster_id() {
    let mut clustering = Clustering::as_defined(vec![0, 0, 0, 1, 1], 2);
    clustering.reset_next_cluster_id();
    assert_eq!(clustering.next_cluster_id(), 0);
    let labels: Vec<usize> = vec![4, 3];
    let sub = Clustering::as_defined(vec![1, 0], 2);
    clustering.merge_subnetwork_clustering(&labels, &sub);
    assert_eq!(clustering, Clustering::as_defined(vec![0, 0, 0, 0, 1], 2));
    let labels: Vec<usize> = vec![0, 2, 1];
    let sub = Clustering::as_defined(vec![0, 0, 1], 2);
    clustering.merge_subnetwork_clustering(&labels, &sub);
    assert_eq!(clustering, Clustering::as_defined(vec![2, 3, 2, 0, 1], 4));
}

#[test]
fn cluster_items_list_nodes_in_order() {
    let clustering = Clustering::as_defined(vec![2, 0], 3);
    let items = clustering.cluster_items();
    assert_eq!(
        items,
        vec![
            ClusterItem { node_id: 0, cluster: 2 },
            ClusterItem { node_id: 1, cluster: 0 }
        ]
    );
}

#[test]
fn merging_compact_clusterings_stays_compact() {
    let mut clustering = Clustering::as_defined(vec![1, 0, 2, 2], 3);
    let other = Clustering::as_defined(vec![1, 0, 1], 2);
    clustering.merge_clustering(&other);
    assert_eq!(clustering, Clustering::as_defined(vec![0, 1, 1, 1], 2));
    let mut copy = clustering.clone();
    copy.remove_empty_clusters();
    assert_eq!(copy, clustering);
}

#[test]
fn cluster_iterator_walks_every_node_once() {
    let clustering = Clustering::as_defined(vec![1, 1, 0], 2);
    let mut walk = clustering.iter();
    assert_eq!(walk.next(), Some(ClusterItem { node_id: 0, cluster: 1 }));
    assert_eq!(walk.next(), Some(ClusterItem { node_id: 1, cluster: 1 }));
    assert_eq!(walk.next(), Some(ClusterItem { node_id: 2, cluster: 0 }));
    assert_eq!(walk.next(), None);
    assert_eq!(walk.next(), None);
}

#[test]
fn compactness_is_detected() {
    assert!(Clustering::as_defined(vec![1, 0, 1], 2).is_compacted());
    assert!(!Clustering::as_defined(vec![2, 0], 3).is_compacted());
    assert!(Clustering::new().is_compacted());
}
