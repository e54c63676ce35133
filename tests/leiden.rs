use std::collections::HashMap;

use network_partitions::clustering::Clustering;
use network_partitions::leiden::{guarantee_clustering_sanity, initial_clustering_for_induced};

#[test]
fn test_initial_clustering_for_induced() {
    let num_nodes_per_cluster: Vec<usize> = vec![1, 1, 2, 3, 5, 8];
    let expected: Clustering = Clustering::as_defined(
        vec![0, 1, 2, 2, 3, 3, 3, 4, 4, 4, 4, 4, 5, 5, 5, 5, 5, 5, 5, 5],
        6,
    );

    let actual: Clustering = initial_clustering_for_induced(num_nodes_per_cluster, 20);
    assert_eq!(actual, expected);
    assert_eq!(actual.num_nodes(), 20);
}

#[test]
fn initial_clustering_for_no_sizes_is_empty() {
    let actual = initial_clustering_for_induced(Vec::new(), 0);
    assert_eq!(actual, Clustering::as_defined(Vec::new(), 0));
}

fn edge_list() -> Vec<(&'static str, &'static str)> {
    vec![
        ("a", "b"),
        ("a", "d"),
        ("a", "e"),
        ("b", "a"),
        ("b", "c"),
        ("b", "e"),
        ("b", "f"),
        ("b", "g"),
        ("c", "b"),
        ("c", "g"),
        ("d", "a"),
        ("d", "h"),
        ("e", "a"),
        ("e", "b"),
        ("f", "b"),
        ("g", "b"),
        ("g", "c"),
        ("h", "d"),
    ]
}

/// Dense ids in order of first appearance, and each node's sorted, distinct
/// neighbors.
fn neighbor_lists(edges: &[(&'static str, &'static str)]) -> (HashMap<&'static str, usize>, Vec<Vec<usize>>) {
    let mut ids: HashMap<&'static str, usize> = HashMap::new();
    let mut lists: Vec<Vec<usize>> = Vec::new();
    for (s, t) in edges {
        for label in [s, t] {
            if !ids.contains_key(label) {
                ids.insert(label, lists.len());
                lists.push(Vec::new());
            }
        }
        let (si, ti) = (ids[s], ids[t]);
        if si != ti {
            if !lists[si].contains(&ti) {
                lists[si].push(ti);
            }
            if !lists[ti].contains(&si) {
                lists[ti].push(si);
            }
        }
    }
    for list in lists.iter_mut() {
        list.sort();
    }
    (ids, lists)
}

#[test]
fn test_guarantee_clustering_sanity() {
    let (ids, neighbors) = neighbor_lists(&edge_list());
    let mut clustering: Clustering = Clustering::as_self_clusters(neighbors.len());
    // node 'a' and node 'h' do not share an edge
    let a_compact = ids["a"];
    let h_compact = ids["h"];
    clustering
        .update_cluster_at(a_compact, clustering.next_cluster_id())
        .expect("Updating this known cluster for a should work");
    clustering
        .update_cluster_at(h_compact, clustering.cluster_at(a_compact).unwrap())
        .expect("Updating this known cluster for h should work");
    clustering.remove_empty_clusters();
    assert_eq!(
        clustering.cluster_at(a_compact).unwrap(),
        clustering.cluster_at(h_compact).unwrap()
    );
    guarantee_clustering_sanity(&neighbors, &mut clustering)
        .expect("guarantee clustering sanity should not throw an error");
    assert_ne!(
        clustering.cluster_at(a_compact).unwrap(),
        clustering.cluster_at(h_compact).unwrap()
    );
    let isolates: Vec<usize> = vec![
        clustering.cluster_at(a_compact).unwrap(),
        clustering.cluster_at(h_compact).unwrap(),
    ];
    for item in clustering.cluster_items() {
        if item.node_id != a_compact && item.node_id != h_compact {
            assert!(!isolates.contains(&item.cluster));
        }
    }
}

#[test]
fn sanity_keeps_connected_clusters_and_numbers_fresh_ids_by_node() {
    // a path 0 - 1 - 2, and 3 alone
    let neighbors: Vec<Vec<usize>> = vec![vec![1], vec![0, 2], vec![1], vec![]];
    // {0, 1} is connected; {2, 3} has no edge inside
    let mut clustering = Clustering::as_defined(vec![0, 0, 1, 1], 2);
    guarantee_clustering_sanity(&neighbors, &mut clustering).unwrap();
    assert_eq!(clustering, Clustering::as_defined(vec![0, 0, 2, 3], 4));
}

#[test]
fn sanity_leaves_singletons_alone() {
    let neighbors: Vec<Vec<usize>> = vec![vec![], vec![]];
    let mut clustering = Clustering::as_self_clusters(2);
    guarantee_clustering_sanity(&neighbors, &mut clustering).unwrap();
    assert_eq!(clustering, Clustering::as_self_clusters(2));
}
