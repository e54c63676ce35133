use network_partitions::clustering::Clustering;
use network_partitions::errors::CoreError;
use network_partitions::hierarchical::{HierarchicalCluster, HierarchicalClustering};
use network_partitions::hierarchical_driver::HierarchicalDriver;

fn entry(
    node: usize,
    cluster: usize,
    level: u32,
    parent_cluster: Option<usize>,
    is_final_cluster: bool,
) -> HierarchicalCluster {
    HierarchicalCluster {
        node,
        cluster,
        level,
        parent_cluster,
        is_final_cluster,
    }
}

fn final_count(entries: &[HierarchicalCluster], node: usize) -> usize {
    entries
        .iter()
        .filter(|e| e.is_final_cluster && e.node == node)
        .count()
}

#[test]
fn top_level_records_sorted_by_cluster_then_node() {
    let top = Clustering::as_defined(vec![1, 0, 1, 0], 2);
    let hierarchy = HierarchicalClustering::new(&top);
    assert_eq!(
        hierarchy.hierarchical_clusterings().clone(),
        vec![
            entry(1, 0, 0, None, true),
            entry(3, 0, 0, None, true),
            entry(0, 1, 0, None, true),
            entry(2, 1, 0, None, true),
        ]
    );
}

#[test]
fn split_replaces_the_parent_as_final() {
    let top = Clustering::as_defined(vec![0, 0, 0, 1, 1], 2);
    let mut hierarchy = HierarchicalClustering::new(&top);
    let labels: Vec<usize> = vec![2, 0, 1];
    let sub = Clustering::as_defined(vec![1, 0, 0], 2);
    assert_eq!(hierarchy.insert_subnetwork_clustering(&labels, &sub, 0, 2, 1), Ok(2));
    let entries = hierarchy.into_hierarchical_clusterings();
    assert_eq!(
        entries,
        vec![
            entry(0, 0, 0, None, false),
            entry(1, 0, 0, None, false),
            entry(2, 0, 0, None, false),
            entry(3, 1, 0, None, true),
            entry(4, 1, 0, None, true),
            entry(0, 2, 1, Some(0), true),
            entry(1, 2, 1, Some(0), true),
            entry(2, 3, 1, Some(0), true),
        ]
    );
    for node in 0..5 {
        assert_eq!(final_count(&entries, node), 1);
    }
}

#[test]
fn split_that_misses_a_member_is_refused() {
    let top = Clustering::as_defined(vec![0, 0, 0, 1, 1], 2);
    let mut hierarchy = HierarchicalClustering::new(&top);
    let before = hierarchy.hierarchical_clusterings().clone();
    let labels: Vec<usize> = vec![0, 1];
    let sub = Clustering::as_defined(vec![0, 1], 2);
    assert_eq!(
        hierarchy.insert_subnetwork_clustering(&labels, &sub, 0, 2, 1),
        Err(CoreError::ClusterIndexingError)
    );
    let labels: Vec<usize> = vec![0, 1, 3];
    let sub = Clustering::as_defined(vec![0, 1, 1], 2);
    assert_eq!(
        hierarchy.insert_subnetwork_clustering(&labels, &sub, 0, 2, 1),
        Err(CoreError::ClusterIndexingError)
    );
    let labels: Vec<usize> = vec![0, 1, 2];
    let sub = Clustering::as_defined(vec![0, 1, 1], 2);
    assert_eq!(
        hierarchy.insert_subnetwork_clustering(&labels, &sub, 0, 3, 1),
        Err(CoreError::ClusterIndexingError)
    );
    assert_eq!(
        hierarchy.insert_subnetwork_clustering(&labels, &sub, 0, 2, 2),
        Err(CoreError::ClusterIndexingError)
    );
    assert_eq!(hierarchy.hierarchical_clusterings().clone(), before);
}

#[test]
fn driver_splits_oversize_clusters_and_keeps_lineage() {
    let top = Clustering::as_defined(vec![0, 0, 0, 1, 1], 2);
    let mut driver = HierarchicalDriver::new(top, 3);
    assert_eq!(driver.level(), 1);
    assert_eq!(driver.next_work(), Some(0));
    let labels: Vec<usize> = vec![0, 1, 2];
    let sub = Clustering::as_defined(vec![0, 0, 1], 2);
    assert_eq!(driver.record_subnetwork_clustering(0, &labels, &sub), Ok(()));
    assert_eq!(driver.level(), 2);
    assert_eq!(
        driver.clustering().clone(),
        Clustering::as_defined(vec![2, 2, 3, 1, 1], 4)
    );
    assert_eq!(driver.next_work(), None);
    let entries = driver.into_hierarchical_clusterings();
    for node in 0..5 {
        assert_eq!(final_count(&entries, node), 1);
    }
    for e in entries.iter().filter(|e| e.level > 0) {
        let parent = e.parent_cluster.unwrap();
        assert!(entries
            .iter()
            .any(|p| p.cluster == parent && p.level + 1 == e.level));
    }
    assert_eq!(entries[5], entry(0, 2, 1, Some(0), true));
    assert_eq!(entries[7], entry(2, 3, 1, Some(0), true));
}

#[test]
fn driver_requeues_large_clusters_at_the_next_level() {
    let top = Clustering::as_defined(vec![0, 0, 0, 0, 0], 1);
    let mut driver = HierarchicalDriver::new(top, 2);
    assert_eq!(driver.next_work(), Some(0));
    let labels: Vec<usize> = vec![0, 1, 2, 3, 4];
    let sub = Clustering::as_defined(vec![0, 0, 0, 1, 1], 2);
    assert_eq!(driver.record_subnetwork_clustering(0, &labels, &sub), Ok(()));
    assert_eq!(driver.level(), 2);
    assert_eq!(driver.next_work(), Some(1));
    assert_eq!(driver.next_work(), Some(2));
    assert_eq!(driver.next_work(), None);
}

#[test]
fn driver_marks_a_single_cluster_result_unsplittable() {
    let top = Clustering::as_defined(vec![0, 0, 0, 1], 2);
    let mut driver = HierarchicalDriver::new(top, 2);
    assert_eq!(driver.next_work(), Some(0));
    let labels: Vec<usize> = vec![0, 1, 2];
    let sub = Clustering::as_defined(vec![0, 0, 0], 1);
    assert_eq!(driver.record_subnetwork_clustering(0, &labels, &sub), Ok(()));
    assert_eq!(driver.level(), 2);
    assert_eq!(driver.next_work(), None);
    assert_eq!(
        driver.clustering().clone(),
        Clustering::as_defined(vec![0, 0, 0, 1], 2)
    );
}
