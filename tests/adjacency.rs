use network_partitions::adjacency::{cluster_entries, entries_within, group_entries, mirror_edges};
use network_partitions::clustering::Clustering;
use network_partitions::errors::CoreError;

#[test]
fn mirrored_edges_read_each_edge_both_ways() {
    let edges: Vec<(usize, usize)> = vec![(0, 1), (2, 2)];
    assert_eq!(mirror_edges(&edges), vec![(0, 1), (1, 0), (2, 2), (2, 2)]);
}

#[test]
fn grouping_sorts_targets_and_keeps_entry_order() {
    // the 8-node example network, edges in their listed order
    let edges: Vec<(usize, usize)> = vec![
        (0, 1),
        (0, 2),
        (0, 3),
        (1, 0),
        (1, 4),
        (1, 3),
        (1, 5),
        (1, 6),
        (4, 1),
        (4, 6),
        (2, 0),
        (2, 7),
        (3, 0),
        (3, 1),
        (5, 1),
        (6, 1),
        (6, 4),
        (7, 2),
    ];
    let entries = mirror_edges(&edges);
    let groups = group_entries(8, &entries);
    assert_eq!(groups.targets[1], vec![0, 3, 4, 5, 6]);
    assert_eq!(groups.targets[0], vec![1, 2, 3]);
    assert_eq!(groups.targets[7], vec![2]);
    // node 1 meets node 0 first in edge 0 (backwards) and again in edge 3
    assert_eq!(groups.positions[1][0], vec![1, 6]);
    assert_eq!(groups.positions[1][1], vec![10, 27]);
    for node in 0..8 {
        assert!(!groups.targets[node].contains(&node));
        assert!(groups.loops[node].is_empty());
        for target in &groups.targets[node] {
            assert!(groups.targets[*target].contains(&node));
        }
    }
}

#[test]
fn grouping_collects_self_entries_apart() {
    let entries: Vec<(usize, usize)> = vec![(1, 1), (0, 1), (1, 1), (1, 0)];
    let groups = group_entries(2, &entries);
    assert_eq!(groups.loops[1], vec![0, 2]);
    assert_eq!(groups.loops[0], Vec::<usize>::new());
    assert_eq!(groups.targets[0], vec![1]);
    assert_eq!(groups.positions[0], vec![vec![1]]);
    assert_eq!(groups.targets[1], vec![0]);
    assert_eq!(groups.positions[1], vec![vec![3]]);
}

#[test]
fn cluster_entries_map_both_ends() {
    let clustering = Clustering::as_defined(vec![1, 0, 1], 2);
    let entries: Vec<(usize, usize)> = vec![(0, 1), (2, 0), (1, 2)];
    assert_eq!(
        cluster_entries(&clustering, &entries),
        Ok(vec![(1, 0), (1, 1), (0, 1)])
    );
    let bad: Vec<(usize, usize)> = vec![(0, 3)];
    assert_eq!(
        cluster_entries(&clustering, &bad),
        Err(CoreError::ClusterIndexingError)
    );
}

#[test]
fn identity_clustering_keeps_the_grouping() {
    let edges: Vec<(usize, usize)> = vec![(0, 1), (1, 2), (2, 0), (2, 3)];
    let entries = mirror_edges(&edges);
    let identity = Clustering::as_self_clusters(4);
    let between = cluster_entries(&identity, &entries).unwrap();
    assert_eq!(between, entries);
    let original = group_entries(4, &entries);
    let induced = group_entries(4, &between);
    assert_eq!(original.targets, induced.targets);
    assert_eq!(original.positions, induced.positions);
}

#[test]
fn entries_within_keep_both_ends_inside() {
    let clustering = Clustering::as_defined(vec![0, 0, 1], 2);
    let entries: Vec<(usize, usize)> = vec![(0, 1), (0, 2), (1, 0), (2, 2)];
    assert_eq!(entries_within(&clustering, 0, &entries), Ok(vec![0, 2]));
    assert_eq!(entries_within(&clustering, 1, &entries), Ok(vec![3]));
    let bad: Vec<(usize, usize)> = vec![(0, 9)];
    assert_eq!(
        entries_within(&clustering, 0, &bad),
        Err(CoreError::ClusterIndexingError)
    );
}
