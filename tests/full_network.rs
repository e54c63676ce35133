use network_partitions::clustering::Clustering;
use network_partitions::errors::CoreError;
use network_partitions::full_network::{
    join_cluster_count, leave_cluster_count, trigger_cluster_change, unused_clusters,
};
use network_partitions::work_queue::FullNetworkWorkQueue;

#[test]
fn unused_clusters_lists_empty_ids_highest_first() {
    let counts: Vec<usize> = vec![2, 0, 1, 0, 0];
    let (stack, count) = unused_clusters(5, &counts);
    assert_eq!(count, 3);
    assert_eq!(stack, vec![4, 3, 1, 0]);
}

#[test]
fn unused_clusters_with_every_cluster_used() {
    let counts: Vec<usize> = vec![1, 1, 1];
    let (stack, count) = unused_clusters(3, &counts);
    assert_eq!(count, 0);
    assert_eq!(stack, vec![0, 0]);
}

#[test]
fn trigger_cluster_change_requeues_neighbors_elsewhere() {
    let clustering = Clustering::as_defined(vec![0, 1, 1, 2], 3);
    let mut queue = FullNetworkWorkQueue::new();
    queue.push_back(0);
    queue.push_back(1);
    queue.push_back(2);
    queue.push_back(3);
    while !queue.is_empty() {
        queue.pop_front().unwrap();
    }
    let neighbors: Vec<usize> = vec![0, 2, 3];
    assert_eq!(trigger_cluster_change(&neighbors, &clustering, &mut queue, 1), Ok(()));
    assert_eq!(queue.len(), 2);
    assert_eq!(queue.pop_front(), Ok(0));
    assert_eq!(queue.pop_front(), Ok(3));
}

#[test]
fn trigger_cluster_change_rejects_an_unknown_neighbor() {
    let clustering = Clustering::as_defined(vec![0, 1], 2);
    let mut queue = FullNetworkWorkQueue::new();
    let neighbors: Vec<usize> = vec![5];
    assert_eq!(
        trigger_cluster_change(&neighbors, &clustering, &mut queue, 1),
        Err(CoreError::ClusterIndexingError)
    );
}

#[test]
fn leaving_the_last_node_pushes_the_cluster_on_the_stack() {
    let mut counts: Vec<usize> = vec![2, 1, 0];
    let mut stack: Vec<usize> = vec![2, 0];
    assert_eq!(leave_cluster_count(0, &mut counts, &mut stack, 1), 1);
    assert_eq!(counts, vec![1, 1, 0]);
    assert_eq!(leave_cluster_count(1, &mut counts, &mut stack, 1), 2);
    assert_eq!(counts, vec![1, 0, 0]);
    assert_eq!(stack, vec![2, 1]);
}

#[test]
fn joining_the_top_unused_cluster_pops_it() {
    let mut counts: Vec<usize> = vec![1, 0, 0];
    let mut height: usize = 2;
    join_cluster_count(1, &mut counts, &mut height, 1);
    assert_eq!(counts, vec![1, 1, 0]);
    assert_eq!(height, 1);
    join_cluster_count(0, &mut counts, &mut height, 2);
    assert_eq!(counts, vec![2, 1, 0]);
    assert_eq!(height, 1);
}
