use vstd::prelude::*;

use crate::clustering::{lemma_members_of_complete, lemma_members_of_props, members_of, Clustering};
use crate::errors::CoreError;

verus! {

/// One record of a hierarchical clustering: `node` sits in `cluster` at
/// `level`; below level 0 the record names the cluster it was split from.
/// `is_final_cluster` marks the deepest cluster a node reached.
#[derive(Clone, Copy, Debug, PartialEq, Eq, Structural)]
pub struct HierarchicalCluster {
    pub node: usize,
    pub cluster: usize,
    pub level: u32,
    pub parent_cluster: Option<usize>,
    pub is_final_cluster: bool,
}

/// The records of one cluster's members, in the order of `members`.
pub open spec fn entry_block(
    labels: Seq<usize>,
    members: Seq<usize>,
    cluster: usize,
    level: u32,
    parent: Option<usize>,
) -> Seq<HierarchicalCluster> {
    members.map_values(
        |u: usize|
            HierarchicalCluster {
                node: labels[u as int],
                cluster,
                level,
                parent_cluster: parent,
                is_final_cluster: true,
            },
    )
}

/// The records of the clusters `0..k` of the clustering `c`, cluster by
/// cluster and, within one, by ascending node; node `u` of `c` is recorded
/// as `labels[u]` and its cluster `j` as `j + offset`.
pub open spec fn entries_by_cluster(
    labels: Seq<usize>,
    c: Seq<usize>,
    k: nat,
    offset: nat,
    level: u32,
    parent: Option<usize>,
) -> Seq<HierarchicalCluster>
    decreases k,
{
    if k == 0 {
        Seq::empty()
    } else {
        entries_by_cluster(labels, c, (k - 1) as nat, offset, level, parent) + entry_block(
            labels,
            members_of(c, (k - 1) as usize),
            (k - 1 + offset) as usize,
            level,
            parent,
        )
    }
}

/// Each cluster's range of records holds records of that cluster only.
pub open spec fn ranges_fit(entries: Seq<HierarchicalCluster>, ranges: Seq<(usize, usize)>) -> bool {
    &&& forall|k: int|
        0 <= k < ranges.len() ==> (#[trigger] ranges[k]).0 <= ranges[k].1 <= entries.len()
    &&& forall|k: int, i: int|
        #![trigger ranges[k], entries[i]]
        0 <= k < ranges.len() && ranges[k].0 <= i < ranges[k].1 ==> entries[i].cluster == k
}

/// `final_entry[v]` is the one final record of node `v`.
pub open spec fn final_index_fits(entries: Seq<HierarchicalCluster>, final_entry: Seq<usize>) -> bool {
    &&& forall|v: int|
        0 <= v < final_entry.len() ==> (#[trigger] final_entry[v]) < entries.len()
            && entries[final_entry[v] as int].node == v
            && entries[final_entry[v] as int].is_final_cluster
    &&& forall|i: int|
        0 <= i < entries.len() && (#[trigger] entries[i]).is_final_cluster ==> entries[i].node
            < final_entry.len() && final_entry[entries[i].node as int] == i
}

/// Records at level 0 name no parent; every record below level 0 names a
/// parent cluster that has a record one level up.
pub open spec fn lineage_holds(entries: Seq<HierarchicalCluster>) -> bool {
    &&& forall|i: int|
        0 <= i < entries.len() && (#[trigger] entries[i]).level == 0 ==> entries[i].parent_cluster
            is None
    &&& forall|i: int|
        0 <= i < entries.len() && (#[trigger] entries[i]).level > 0 ==> {
            &&& entries[i].parent_cluster is Some
            &&& exists|j: int|
                0 <= j < entries.len() && (#[trigger] entries[j]).cluster
                    == entries[i].parent_cluster->Some_0 && entries[j].level + 1 == entries[i].level
        }
}

/// The record with its final mark taken away.
pub open spec fn retired(x: HierarchicalCluster) -> HierarchicalCluster {
    HierarchicalCluster {
        node: x.node,
        cluster: x.cluster,
        level: x.level,
        parent_cluster: x.parent_cluster,
        is_final_cluster: false,
    }
}

/// The records with those at positions `[start, end)` retired.
pub open spec fn retire_range(entries: Seq<HierarchicalCluster>, start: int, end: int) -> Seq<
    HierarchicalCluster,
> {
    Seq::new(
        entries.len(),
        |i: int|
            if start <= i < end {
                retired(entries[i])
            } else {
                entries[i]
            },
    )
}

/// Some record of `new_entries` names the node whose final record is at `i`.
pub open spec fn replaced(final_entry: Seq<usize>, new_entries: Seq<HierarchicalCluster>, i: int) -> bool {
    exists|q: int|
        0 <= q < new_entries.len() && final_entry[(#[trigger] new_entries[q]).node as int] == i
}

/// Whether the records `new_entries` may replace the final records at
/// positions `[start, end)`: each names a node whose final record lies
/// there, no node twice, every record there is replaced, and where there are
/// new records they sit one level below the records they replace.
pub open spec fn split_fits_range(
    entries: Seq<HierarchicalCluster>,
    final_entry: Seq<usize>,
    new_entries: Seq<HierarchicalCluster>,
    start: int,
    end: int,
    level: u32,
) -> bool {
    &&& forall|q: int|
        0 <= q < new_entries.len() ==> (#[trigger] new_entries[q]).node < final_entry.len() && start
            <= final_entry[new_entries[q].node as int] < end
    &&& forall|a: int, b: int|
        0 <= a < new_entries.len() && 0 <= b < new_entries.len() && a != b ==> (#[trigger] new_entries[a]).node
            != (#[trigger] new_entries[b]).node
    &&& forall|i: int| start <= i < end ==> #[trigger] replaced(final_entry, new_entries, i)
    &&& new_entries.len() > 0 ==> entries[start].level + 1 == level
}

proof fn lemma_entries_prefix(
    labels: Seq<usize>,
    c: Seq<usize>,
    k: nat,
    kk: nat,
    offset: nat,
    level: u32,
    parent: Option<usize>,
)
    requires
        k <= kk,
    ensures
        entries_by_cluster(labels, c, k, offset, level, parent).len() <= entries_by_cluster(
            labels,
            c,
            kk,
            offset,
            level,
            parent,
        ).len(),
        forall|q: int|
            0 <= q < entries_by_cluster(labels, c, k, offset, level, parent).len() ==> entries_by_cluster(
                labels,
                c,
                kk,
                offset,
                level,
                parent,
            )[q] == entries_by_cluster(labels, c, k, offset, level, parent)[q],
    decreases kk,
{
    if k < kk {
        lemma_entries_prefix(labels, c, k, (kk - 1) as nat, offset, level, parent);
    }
}

/// Some record of `entries` names node `v`.
pub open spec fn names_node(entries: Seq<HierarchicalCluster>, v: int) -> bool {
    exists|q: int| 0 <= q < entries.len() && (#[trigger] entries[q]).node == v
}

/// The lineage of a hierarchical clustering: a flat list of records, the
/// range of records of each cluster id, and for each node the position of
/// its final record.
pub struct HierarchicalClustering {
    hierarchical_clusterings: Vec<HierarchicalCluster>,
    cluster_range: Vec<(usize, usize)>,
    final_entry: Vec<usize>,
}

impl HierarchicalClustering {
    /// The records, in the order they were made.
    pub closed spec fn entries(&self) -> Seq<HierarchicalCluster> {
        self.hierarchical_clusterings@
    }

    /// The range of records of each cluster id.
    pub closed spec fn ranges(&self) -> Seq<(usize, usize)> {
        self.cluster_range@
    }

    /// For each node, the position of its final record.
    pub closed spec fn final_positions(&self) -> Seq<usize> {
        self.final_entry@
    }

    /// The number of nodes that the records cover.
    pub open spec fn num_nodes(&self) -> nat {
        self.final_positions().len()
    }

    pub open spec fn wf(&self) -> bool {
        &&& ranges_fit(self.entries(), self.ranges())
        &&& forall|i: int|
            0 <= i < self.entries().len() ==> (#[trigger] self.entries()[i]).node < self.num_nodes()
                && self.entries()[i].cluster < self.ranges().len()
        &&& final_index_fits(self.entries(), self.final_positions())
        &&& lineage_holds(self.entries())
    }

    /// Level 0 of a hierarchy: one final record per node of
    /// `initial_clustering`, ordered by cluster and then by node.
    pub fn new(initial_clustering: &Clustering) -> (r: Self)
        requires
            initial_clustering.wf(),
        ensures
            r.wf(),
            r.num_nodes() == initial_clustering@.len(),
            r.ranges().len() == initial_clustering.next_id(),
            forall|k: int|
                0 <= k < initial_clustering.next_id() ==> (#[trigger] r.ranges()[k]) == (
                    entries_by_cluster(
                        Seq::new(initial_clustering@.len(), |i: int| i as usize),
                        initial_clustering@,
                        k as nat,
                        0,
                        0,
                        None,
                    ).len() as usize,
                    entries_by_cluster(
                        Seq::new(initial_clustering@.len(), |i: int| i as usize),
                        initial_clustering@,
                        (k + 1) as nat,
                        0,
                        0,
                        None,
                    ).len() as usize,
                ),
            forall|v: int|
                0 <= v < initial_clustering@.len() ==> (#[trigger] r.final_positions()[v]) < r.entries().len()
                    && r.entries()[r.final_positions()[v] as int].node == v
                    && r.entries()[r.final_positions()[v] as int].is_final_cluster,
            forall|i: int|
                0 <= i < r.entries().len() ==> initial_clustering@[(#[trigger] r.entries()[i]).node as int]
                    == r.entries()[i].cluster,
            r.entries() == entries_by_cluster(
                Seq::new(initial_clustering@.len(), |i: int| i as usize),
                initial_clustering@,
                initial_clustering.next_id(),
                0,
                0,
                None,
            ),
    {
        let s = Ghost(initial_clustering@);
        let labels = Ghost(Seq::new(s@.len(), |i: int| i as usize));
        let n = initial_clustering.num_nodes();
        let num_clusters = initial_clustering.next_cluster_id();
        let buckets = initial_clustering.nodes_per_cluster();
        let mut hierarchical: Vec<HierarchicalCluster> = Vec::with_capacity(n);
        let mut cluster_range: Vec<(usize, usize)> = Vec::with_capacity(num_clusters);
        let mut final_entry: Vec<usize> = vec![0; n];
        let mut k: usize = 0;
        while k < num_clusters
            invariant
                n == s@.len(),
                labels@ == Seq::new(s@.len(), |i: int| i as usize),
                num_clusters == initial_clustering.next_id(),
                s@ == initial_clustering@,
                initial_clustering.wf(),
                buckets@.len() == num_clusters,
                forall|j: int| 0 <= j < num_clusters ==> (#[trigger] buckets@[j])@ == members_of(s@, j as usize),
                k <= num_clusters,
                final_entry@.len() == n,
                hierarchical@ == entries_by_cluster(labels@, s@, k as nat, 0, 0, None),
                cluster_range@.len() == k,
                forall|kk: int|
                    0 <= kk < k ==> (#[trigger] cluster_range@[kk]) == (
                        entries_by_cluster(labels@, s@, kk as nat, 0, 0, None).len() as usize,
                        entries_by_cluster(labels@, s@, (kk + 1) as nat, 0, 0, None).len() as usize,
                    ),
                ranges_fit(hierarchical@, cluster_range@),
                forall|i: int|
                    0 <= i < hierarchical@.len() ==> {
                        &&& (#[trigger] hierarchical@[i]).node < n
                        &&& hierarchical@[i].cluster < k
                        &&& s@[hierarchical@[i].node as int] == hierarchical@[i].cluster
                        &&& hierarchical@[i].is_final_cluster
                        &&& hierarchical@[i].level == 0
                        &&& hierarchical@[i].parent_cluster is None
                    },
                forall|i: int|
                    0 <= i < hierarchical@.len() ==> final_entry@[(#[trigger] hierarchical@[i]).node as int] == i,
                forall|v: int|
                    0 <= v < n && s@[v] < k ==> (#[trigger] final_entry@[v]) < hierarchical@.len()
                        && hierarchical@[final_entry@[v] as int].node == v,
            decreases num_clusters - k,
        {
            let range_start = hierarchical.len();
            let bucket = &buckets[k];
            let ghost before = hierarchical@;
            proof {
                lemma_members_of_props(s@, k);
            }
            let mut t: usize = 0;
            while t < bucket.len()
                invariant
                    n == s@.len(),
                    labels@ == Seq::new(s@.len(), |i: int| i as usize),
                    k < num_clusters,
                    bucket@ == members_of(s@, k),
                    forall|tt: int|
                        0 <= tt < bucket@.len() ==> (#[trigger] bucket@[tt]) < s@.len() && s@[bucket@[tt] as int] == k,
                    forall|a: int, b: int| 0 <= a < b < bucket@.len() ==> bucket@[a] < bucket@[b],
                    t <= bucket@.len(),
                    final_entry@.len() == n,
                    before == entries_by_cluster(labels@, s@, k as nat, 0, 0, None),
                    range_start == before.len(),
                    hierarchical@ == before + entry_block(labels@, bucket@.take(t as int), k, 0, None),
                    cluster_range@.len() == k,
                    forall|kk: int|
                        0 <= kk < k ==> (#[trigger] cluster_range@[kk]) == (
                            entries_by_cluster(labels@, s@, kk as nat, 0, 0, None).len() as usize,
                            entries_by_cluster(labels@, s@, (kk + 1) as nat, 0, 0, None).len() as usize,
                        ),
                    ranges_fit(before, cluster_range@),
                    forall|i: int|
                        0 <= i < hierarchical@.len() ==> {
                            &&& (#[trigger] hierarchical@[i]).node < n
                            &&& hierarchical@[i].cluster <= k
                            &&& (i < range_start ==> hierarchical@[i].cluster < k)
                            &&& (i >= range_start ==> hierarchical@[i].cluster == k
                                && hierarchical@[i].node == bucket@[i - range_start])
                            &&& s@[hierarchical@[i].node as int] == hierarchical@[i].cluster
                            &&& hierarchical@[i].is_final_cluster
                            &&& hierarchical@[i].level == 0
                            &&& hierarchical@[i].parent_cluster is None
                        },
                    hierarchical@.len() == range_start + t,
                    forall|i: int|
                        0 <= i < hierarchical@.len() ==> final_entry@[(#[trigger] hierarchical@[i]).node as int] == i,
                    forall|v: int|
                        0 <= v < n && (s@[v] < k || bucket@.take(t as int).contains(v as usize)) ==> (#[trigger] final_entry@[v])
                            < hierarchical@.len() && hierarchical@[final_entry@[v] as int].node == v,
                decreases bucket@.len() - t,
            {
                let v = bucket[t];
                let ghost prev = hierarchical@;
                let ghost prev_fe = final_entry@;
                final_entry.set(v, hierarchical.len());
                hierarchical.push(
                    HierarchicalCluster {
                        node: v,
                        cluster: k,
                        level: 0,
                        parent_cluster: None,
                        is_final_cluster: true,
                    },
                );
                proof {
                    assert(bucket@.take(t + 1) =~= bucket@.take(t as int).push(v));
                    assert(labels@[v as int] == v);
                    assert(entry_block(labels@, bucket@.take(t + 1), k, 0, None) =~= entry_block(
                        labels@,
                        bucket@.take(t as int),
                        k,
                        0,
                        None,
                    ).push(hierarchical@.last()));
                    assert(hierarchical@ =~= before + entry_block(
                        labels@,
                        bucket@.take(t + 1),
                        k,
                        0,
                        None,
                    ));
                    assert forall|i: int| 0 <= i < prev.len() implies prev[i].node != v by {
                        if i >= range_start {
                            assert(prev[i].node == bucket@[i - range_start]);
                        }
                    }
                    assert forall|i: int|
                        0 <= i < hierarchical@.len() implies final_entry@[(#[trigger] hierarchical@[i]).node as int]
                        == i by {
                        if i < prev.len() {
                            assert(hierarchical@[i] == prev[i]);
                            assert(prev_fe[prev[i].node as int] == i);
                        }
                    }
                    assert forall|w: int|
                        0 <= w < n && (s@[w] < k || bucket@.take(t + 1).contains(w as usize)) implies (#[trigger] final_entry@[w])
                        < hierarchical@.len() && hierarchical@[final_entry@[w] as int].node == w by {
                        if w != v {
                            if bucket@.take(t + 1).contains(w as usize) && s@[w] >= k {
                                let tk = bucket@.take(t + 1);
                                let q = choose|q: int| 0 <= q < tk.len() && tk[q] == w as usize;
                                assert(q != t);
                                assert(bucket@.take(t as int)[q] == w as usize);
                            }
                            assert(prev_fe[w] == final_entry@[w]);
                        }
                    }
                }
                t += 1;
            }
            let ghost ranges_before = cluster_range@;
            cluster_range.push((range_start, hierarchical.len()));
            proof {
                assert(bucket@.take(t as int) =~= bucket@);
                assert(hierarchical@ =~= entries_by_cluster(labels@, s@, (k + 1) as nat, 0, 0, None));
                assert forall|v: int|
                    0 <= v < n && s@[v] < k + 1 implies (#[trigger] final_entry@[v]) < hierarchical@.len()
                    && hierarchical@[final_entry@[v] as int].node == v by {
                    if s@[v] == k {
                        lemma_members_of_complete(s@, v);
                    }
                }
                assert forall|kk: int, i: int|
                    #![trigger cluster_range@[kk], hierarchical@[i]]
                    0 <= kk < cluster_range@.len() && cluster_range@[kk].0 <= i
                        < cluster_range@[kk].1 implies hierarchical@[i].cluster == kk by {
                    if kk < k {
                        assert(cluster_range@[kk] == ranges_before[kk]);
                    }
                }
            }
            k += 1;
        }
        proof {
            assert forall|v: int| 0 <= v < n implies s@[v] < k by {
                assert(crate::clustering::ids_below(s@, num_clusters as nat));
            }
        }
        HierarchicalClustering { hierarchical_clusterings: hierarchical, cluster_range, final_entry }
    }

    /// The records that splitting `parent` by the subnetwork clustering `sub`
    /// adds: node `u` of the subnetwork is node `labels[u]`, and its cluster
    /// `j` becomes `j + starting` at `level`.
    pub open spec fn split_entries(
        labels: Seq<usize>,
        sub: Clustering,
        parent: usize,
        starting: usize,
        level: u32,
    ) -> Seq<HierarchicalCluster> {
        entries_by_cluster(labels, sub@, sub.next_id(), starting as nat, level, Some(parent))
    }

    /// Whether splitting `parent` by `sub` fits this lineage: `parent` is a
    /// known cluster, the new ids start right after the known ones, there is
    /// one label per subnetwork node, and the new records replace exactly the
    /// final records of `parent`, one level below them.
    pub open spec fn split_fits(
        &self,
        labels: Seq<usize>,
        sub: Clustering,
        parent: usize,
        starting: usize,
        level: u32,
    ) -> bool {
        &&& parent < self.ranges().len()
        &&& starting == self.ranges().len()
        &&& labels.len() == sub@.len()
        &&& starting + sub.next_id() <= usize::MAX
        &&& split_fits_range(
            self.entries(),
            self.final_positions(),
            Self::split_entries(labels, sub, parent, starting, level),
            self.ranges()[parent as int].0 as int,
            self.ranges()[parent as int].1 as int,
            level,
        )
    }

    /// The records, in the order they were made.
    pub fn hierarchical_clusterings(&self) -> (r: &Vec<HierarchicalCluster>)
        ensures
            r@ == self.entries(),
    {
        &self.hierarchical_clusterings
    }

    /// Gives up the records, in the order they were made.
    pub fn into_hierarchical_clusterings(self) -> (r: Vec<HierarchicalCluster>)
        ensures
            r@ == self.entries(),
    {
        self.hierarchical_clusterings
    }

    /// Tests `split_fits_range` for the records that a subnetwork clustering
    /// would add.
    fn split_fits_check(
        &self,
        labels: &Vec<usize>,
        subnetwork_clustering: &Clustering,
        buckets: &Vec<Vec<usize>>,
        start: usize,
        end: usize,
        starting_cluster_id: usize,
        level: u32,
        parent_cluster: usize,
    ) -> (r: bool)
        requires
            self.wf(),
            subnetwork_clustering.wf(),
            labels@.len() == subnetwork_clustering@.len(),
            buckets@.len() == subnetwork_clustering.next_id(),
            forall|j: int|
                0 <= j < buckets@.len() ==> (#[trigger] buckets@[j])@ == members_of(
                    subnetwork_clustering@,
                    j as usize,
                ),
            start <= end <= self.entries().len(),
        ensures
            r == split_fits_range(
                self.entries(),
                self.final_positions(),
                entries_by_cluster(
                    labels@,
                    subnetwork_clustering@,
                    subnetwork_clustering.next_id(),
                    starting_cluster_id as nat,
                    level,
                    Some(parent_cluster),
                ),
                start as int,
                end as int,
                level,
            ),
    {
        let ghost sub = subnetwork_clustering@;
        let ghost big_k = subnetwork_clustering.next_id();
        let ghost off = starting_cluster_id as nat;
        let ghost par = Some(parent_cluster);
        let ghost all = entries_by_cluster(labels@, sub, big_k, off, level, par);
        let ghost entries = self.entries();
        let ghost fe = self.final_positions();
        let n = self.final_entry.len();
        let num_clusters = buckets.len();
        // the length of an executable vector bounds the subnetwork's size
        let _num_sub_nodes = subnetwork_clustering.num_nodes();
        let width: usize = end - start;
        let mut seen: Vec<bool> = vec![false; width];
        let ghost mut done: Seq<HierarchicalCluster> = Seq::empty();
        let mut k: usize = 0;
        while k < num_clusters
            invariant
                self.wf(),
                entries == self.entries(),
                fe == self.final_positions(),
                n == fe.len(),
                num_clusters == big_k,
                big_k == subnetwork_clustering.next_id(),
                off == starting_cluster_id as nat,
                par == Some(parent_cluster),
                sub == subnetwork_clustering@,
                labels@.len() == sub.len(),
                sub.len() <= usize::MAX,
                buckets@.len() == big_k,
                forall|j: int| 0 <= j < buckets@.len() ==> (#[trigger] buckets@[j])@ == members_of(sub, j as usize),
                all == entries_by_cluster(labels@, sub, big_k, off, level, par),
                start <= end <= entries.len(),
                k <= num_clusters,
                done == entries_by_cluster(labels@, sub, k as nat, off, level, par),
                seen@.len() == end - start,
                forall|q: int|
                    0 <= q < done.len() ==> (#[trigger] done[q]).node < n && start <= fe[done[q].node as int] < end,
                forall|a: int, b: int|
                    0 <= a < done.len() && 0 <= b < done.len() && a != b ==> (#[trigger] done[a]).node
                        != (#[trigger] done[b]).node,
                forall|i: int|
                    start <= i < end ==> (seen@[i - start] <==> #[trigger] replaced(fe, done, i)),
            decreases num_clusters - k,
        {
            let bucket = &buckets[k];
            let ghost block = entry_block(labels@, bucket@, (k + off) as usize, level, par);
            let ghost base = done;
            proof {
                lemma_members_of_props(sub, k);
                lemma_entries_prefix(labels@, sub, (k + 1) as nat, big_k, off, level, par);
                assert(entries_by_cluster(labels@, sub, (k + 1) as nat, off, level, par) == base + block);
            }
            let mut t: usize = 0;
            while t < bucket.len()
                invariant
                    self.wf(),
                    entries == self.entries(),
                    fe == self.final_positions(),
                    n == fe.len(),
                    labels@.len() == sub.len(),
                    sub == subnetwork_clustering@,
                    big_k == subnetwork_clustering.next_id(),
                    off == starting_cluster_id as nat,
                    par == Some(parent_cluster),
                    all == entries_by_cluster(labels@, sub, big_k, off, level, par),
                    k < num_clusters,
                    bucket@ == members_of(sub, k as usize),
                    forall|tt: int| 0 <= tt < bucket@.len() ==> (#[trigger] bucket@[tt]) < sub.len(),
                    block == entry_block(labels@, bucket@, (k + off) as usize, level, par),
                    forall|q: int|
                        0 <= q < base.len() + block.len() ==> all[q] == (base + block)[q],
                    base.len() + block.len() <= all.len(),
                    start <= end <= entries.len(),
                    t <= bucket@.len(),
                    done == base + block.take(t as int),
                    seen@.len() == end - start,
                    forall|q: int|
                        0 <= q < done.len() ==> (#[trigger] done[q]).node < n && start <= fe[done[q].node as int] < end,
                    forall|a: int, b: int|
                        0 <= a < done.len() && 0 <= b < done.len() && a != b ==> (#[trigger] done[a]).node
                            != (#[trigger] done[b]).node,
                    forall|i: int|
                        start <= i < end ==> (seen@[i - start] <==> #[trigger] replaced(fe, done, i)),
                decreases bucket@.len() - t,
            {
                let u = bucket[t];
                let w = labels[u];
                let ghost p = done.len() as int;
                proof {
                    assert(block[t as int].node == w);
                    assert(all[p] == block[t as int]);
                }
                if w >= n {
                    proof {
                        assert(!(all[p].node < fe.len()));
                    }
                    return false;
                }
                let f = self.final_entry[w];
                if f < start || f >= end {
                    proof {
                        assert(!(start <= fe[all[p].node as int] < end));
                    }
                    return false;
                }
                if seen[f - start] {
                    proof {
                        assert(replaced(fe, done, f as int));
                        let q = choose|q: int| 0 <= q < done.len() && fe[(#[trigger] done[q]).node as int] == f;
                        assert(entries[fe[done[q].node as int] as int].node == done[q].node);
                        assert(all[q].node == all[p].node);
                    }
                    return false;
                }
                let ghost seen_old = seen@;
                proof {
                    assert(!replaced(fe, done, f as int));
                }
                seen.set(f - start, true);
                proof {
                    let e0 = block[t as int];
                    assert(block.take(t + 1) =~= block.take(t as int).push(e0));
                    let nd = done.push(e0);
                    assert(nd =~= base + block.take(t + 1));
                    assert forall|a: int, b: int|
                        0 <= a < nd.len() && 0 <= b < nd.len() && a != b implies (#[trigger] nd[a]).node
                        != (#[trigger] nd[b]).node by {
                        if a == p && b < p {
                            if nd[b].node == w {
                                assert(nd[b] == done[b]);
                                assert(fe[done[b].node as int] == f);
                            }
                        } else if b == p && a < p {
                            if nd[a].node == w {
                                assert(nd[a] == done[a]);
                                assert(fe[done[a].node as int] == f);
                            }
                        } else {
                            assert(nd[a] == done[a]);
                            assert(nd[b] == done[b]);
                        }
                    }
                    assert forall|i: int|
                        start <= i < end implies (seen@[i - start] <==> #[trigger] replaced(fe, nd, i)) by {
                        if i == f {
                            assert(fe[nd[p].node as int] == i);
                        } else {
                            assert(seen@[i - start] == seen_old[i - start]);
                            assert(seen_old[i - start] == replaced(fe, done, i));
                            if replaced(fe, nd, i) {
                                let q = choose|q: int| 0 <= q < nd.len() && fe[(#[trigger] nd[q]).node as int] == i;
                                assert(q != p);
                                assert(nd[q] == done[q]);
                            }
                            if replaced(fe, done, i) {
                                let q = choose|q: int| 0 <= q < done.len() && fe[(#[trigger] done[q]).node as int] == i;
                                assert(nd[q] == done[q]);
                            }
                        }
                    }
                    done = nd;
                }
                t += 1;
            }
            proof {
                assert(block.take(t as int) =~= block);
            }
            k += 1;
        }
        proof {
            assert(done =~= all);
        }
        let mut i: usize = start;
        while i < end
            invariant
                sub == subnetwork_clustering@,
                big_k == subnetwork_clustering.next_id(),
                off == starting_cluster_id as nat,
                par == Some(parent_cluster),
                all == entries_by_cluster(labels@, sub, big_k, off, level, par),
                entries == self.entries(),
                fe == self.final_positions(),
                start <= i <= end,
                done == all,
                seen@.len() == end - start,
                forall|j: int|
                    start <= j < end ==> (seen@[j - start] <==> #[trigger] replaced(fe, done, j)),
                forall|j: int| start <= j < i ==> #[trigger] replaced(fe, all, j),
            decreases end - i,
        {
            if !seen[i - start] {
                proof {
                    assert(!replaced(fe, all, i as int));
                }
                return false;
            }
            i += 1;
        }
        proof {
            if all.len() > 0 && start == end {
                assert(start <= fe[all[0].node as int] < end);
            }
        }
        if start < end {
            proof {
                assert(replaced(fe, all, start as int));
                let q = choose|q: int| 0 <= q < all.len() && fe[(#[trigger] all[q]).node as int] == start;
            }
            (self.hierarchical_clusterings[start].level as u64) + 1 == level as u64
        } else {
            true
        }
    }

    /// Records the split of `parent_cluster` by a subnetwork clustering:
    /// node `u` of the subnetwork is the node `labels[u]`, and its cluster
    /// `j` becomes `j + starting_cluster_id` at `level`. The new records are
    /// final and the parent's records no longer are. Returns the number of
    /// cluster ids added; `ClusterIndexingError`, with nothing changed, where
    /// the split does not fit.
    #[verifier::rlimit(60)]
    pub fn insert_subnetwork_clustering(
        &mut self,
        labels: &Vec<usize>,
        subnetwork_clustering: &Clustering,
        parent_cluster: usize,
        starting_cluster_id: usize,
        level: u32,
    ) -> (r: Result<usize, CoreError>)
        requires
            old(self).wf(),
            subnetwork_clustering.wf(),
        ensures
            final(self).wf(),
            final(self).num_nodes() == old(self).num_nodes(),
            r is Ok <==> old(self).split_fits(
                labels@,
                *subnetwork_clustering,
                parent_cluster,
                starting_cluster_id,
                level,
            ),
            r is Ok ==> {
                &&& r == Ok::<usize, CoreError>(subnetwork_clustering.next_id() as usize)
                &&& final(self).entries() == retire_range(
                    old(self).entries(),
                    old(self).ranges()[parent_cluster as int].0 as int,
                    old(self).ranges()[parent_cluster as int].1 as int,
                ) + Self::split_entries(
                    labels@,
                    *subnetwork_clustering,
                    parent_cluster,
                    starting_cluster_id,
                    level,
                )
                &&& final(self).ranges().len() == old(self).ranges().len()
                    + subnetwork_clustering.next_id()
                &&& forall|j: int|
                    0 <= j < old(self).ranges().len() ==> #[trigger] final(self).ranges()[j]
                        == old(self).ranges()[j]
                &&& forall|k: int|
                    0 <= k < subnetwork_clustering.next_id() ==> #[trigger] final(self).ranges()[old(
                        self,
                    ).ranges().len() + k] == (
                        (old(self).entries().len() + entries_by_cluster(
                            labels@,
                            subnetwork_clustering@,
                            k as nat,
                            starting_cluster_id as nat,
                            level,
                            Some(parent_cluster),
                        ).len()) as usize,
                        (old(self).entries().len() + entries_by_cluster(
                            labels@,
                            subnetwork_clustering@,
                            (k + 1) as nat,
                            starting_cluster_id as nat,
                            level,
                            Some(parent_cluster),
                        ).len()) as usize,
                    )
            },
            r is Err ==> {
                &&& r == Err::<usize, CoreError>(CoreError::ClusterIndexingError)
                &&& *final(self) == *old(self)
            },
    {
        if parent_cluster >= self.cluster_range.len() || starting_cluster_id
            != self.cluster_range.len() || labels.len() != subnetwork_clustering.num_nodes()
            || subnetwork_clustering.next_cluster_id() > usize::MAX - starting_cluster_id {
            return Err(CoreError::ClusterIndexingError);
        }
        let (start, end) = self.cluster_range[parent_cluster];
        let buckets = subnetwork_clustering.nodes_per_cluster();
        if !self.split_fits_check(
            labels,
            subnetwork_clustering,
            &buckets,
            start,
            end,
            starting_cluster_id,
            level,
            parent_cluster,
        ) {
            return Err(CoreError::ClusterIndexingError);
        }
        let ghost sub = subnetwork_clustering@;
        let ghost par = Some(parent_cluster);
        let ghost off = starting_cluster_id as nat;
        let ghost all = Self::split_entries(
            labels@,
            *subnetwork_clustering,
            parent_cluster,
            starting_cluster_id,
            level,
        );
        let ghost old_entries = self.entries();
        let ghost old_fe = self.final_positions();
        let ghost old_ranges = self.ranges();
        let ghost n = old_fe.len();
        let base = self.hierarchical_clusterings.len();
        let num_clusters = buckets.len();
        let ghost mut done: Seq<HierarchicalCluster> = Seq::empty();
        let mut k: usize = 0;
        while k < num_clusters
            invariant
                old(self).wf(),
                old_entries == old(self).entries(),
                old_fe == old(self).final_positions(),
                old_ranges == old(self).ranges(),
                n == old_fe.len(),
                base == old_entries.len(),
                sub == subnetwork_clustering@,
                sub.len() == labels@.len(),
                sub.len() <= usize::MAX,
                num_clusters == subnetwork_clustering.next_id(),
                starting_cluster_id == old_ranges.len(),
                starting_cluster_id + num_clusters <= usize::MAX,
                parent_cluster < old_ranges.len(),
                start == old_ranges[parent_cluster as int].0,
                end == old_ranges[parent_cluster as int].1,
                buckets@.len() == num_clusters,
                forall|j: int| 0 <= j < buckets@.len() ==> (#[trigger] buckets@[j])@ == members_of(sub, j as usize),
                all == entries_by_cluster(labels@, sub, num_clusters as nat, off, level, par),
                off == starting_cluster_id as nat,
                par == Some(parent_cluster),
                split_fits_range(old_entries, old_fe, all, start as int, end as int, level),
                k <= num_clusters,
                done == entries_by_cluster(labels@, sub, k as nat, off, level, par),
                done.len() <= all.len(),
                forall|q: int| 0 <= q < done.len() ==> all[q] == done[q],
                self.entries() == old_entries + done,
                self.ranges().len() == old_ranges.len() + k,
                forall|kk: int|
                    0 <= kk < k ==> #[trigger] self.ranges()[old_ranges.len() + kk] == (
                        (base + entries_by_cluster(labels@, sub, kk as nat, off, level, par).len()) as usize,
                        (base + entries_by_cluster(labels@, sub, (kk + 1) as nat, off, level, par).len()) as usize,
                    ),
                forall|j: int| 0 <= j < old_ranges.len() ==> self.ranges()[j] == old_ranges[j],
                ranges_fit(self.entries(), self.ranges()),
                self.final_positions().len() == n,
                forall|q: int|
                    0 <= q < done.len() ==> {
                        &&& (#[trigger] done[q]).node < n
                        &&& done[q].cluster < old_ranges.len() + k
                        &&& done[q].level == level
                        &&& done[q].parent_cluster == par
                        &&& done[q].is_final_cluster
                        &&& self.final_positions()[done[q].node as int] == base + q
                    },
                forall|v: int|
                    0 <= v < n && !names_node(done, v) ==> (#[trigger] self.final_positions()[v])
                        == old_fe[v],
            decreases num_clusters - k,
        {
            let range_start = self.hierarchical_clusterings.len();
            let bucket = &buckets[k];
            let ghost block = entry_block(labels@, bucket@, (k + off) as usize, level, par);
            let ghost before = done;
            proof {
                lemma_members_of_props(sub, k);
                lemma_entries_prefix(labels@, sub, (k + 1) as nat, num_clusters as nat, off, level, par);
                assert(entries_by_cluster(labels@, sub, (k + 1) as nat, off, level, par) == before + block);
            }
            let mut t: usize = 0;
            while t < bucket.len()
                invariant
                    old_entries == old(self).entries(),
                    n == old_fe.len(),
                    base == old_entries.len(),
                    sub.len() == labels@.len(),
                    starting_cluster_id == old_ranges.len(),
                    starting_cluster_id + num_clusters <= usize::MAX,
                    k < num_clusters,
                    off == starting_cluster_id as nat,
                    par == Some(parent_cluster),
                    bucket@ == members_of(sub, k as usize),
                    forall|tt: int| 0 <= tt < bucket@.len() ==> (#[trigger] bucket@[tt]) < sub.len(),
                    block == entry_block(labels@, bucket@, (k + off) as usize, level, par),
                    forall|q: int| 0 <= q < before.len() + block.len() ==> all[q] == (before + block)[q],
                    before.len() + block.len() <= all.len(),
                    split_fits_range(old_entries, old_fe, all, start as int, end as int, level),
                    t <= bucket@.len(),
                    done == before + block.take(t as int),
                    range_start == base + before.len(),
                    self.entries() == old_entries + done,
                    self.ranges().len() == old_ranges.len() + k,
                    forall|kk: int|
                        0 <= kk < k ==> #[trigger] self.ranges()[old_ranges.len() + kk] == (
                            (base + entries_by_cluster(labels@, sub, kk as nat, off, level, par).len()) as usize,
                            (base + entries_by_cluster(labels@, sub, (kk + 1) as nat, off, level, par).len()) as usize,
                        ),
                    forall|j: int| 0 <= j < old_ranges.len() ==> self.ranges()[j] == old_ranges[j],
                    ranges_fit(old_entries + before, self.ranges()),
                    self.final_positions().len() == n,
                    forall|q: int|
                        0 <= q < done.len() ==> {
                            &&& (#[trigger] done[q]).node < n
                            &&& done[q].cluster <= old_ranges.len() + k
                            &&& (q >= before.len() ==> done[q].cluster == old_ranges.len() + k)
                            &&& (q < before.len() ==> done[q].cluster < old_ranges.len() + k)
                            &&& done[q].level == level
                            &&& done[q].parent_cluster == par
                            &&& done[q].is_final_cluster
                            &&& self.final_positions()[done[q].node as int] == base + q
                        },
                    forall|v: int|
                        0 <= v < n && !names_node(done, v) ==> (#[trigger] self.final_positions()[v])
                            == old_fe[v],
                decreases bucket@.len() - t,
            {
                let u = bucket[t];
                let w = labels[u];
                let ghost p = done.len() as int;
                let ghost prev = done;
                let ghost prev_fe = self.final_positions();
                proof {
                    assert(block[t as int].node == w);
                    assert(all[p] == block[t as int]);
                    assert(w < n);
                }
                let position = self.hierarchical_clusterings.len();
                self.final_entry.set(w, position);
                self.hierarchical_clusterings.push(
                    HierarchicalCluster {
                        node: w,
                        cluster: k + starting_cluster_id,
                        level,
                        parent_cluster: Some(parent_cluster),
                        is_final_cluster: true,
                    },
                );
                proof {
                    let e0 = block[t as int];
                    assert(e0 == self.entries().last());
                    assert(block.take(t + 1) =~= block.take(t as int).push(e0));
                    done = prev.push(e0);
                    assert(done =~= before + block.take(t + 1));
                    assert(self.entries() =~= old_entries + done);
                    assert forall|q: int| 0 <= q < prev.len() implies prev[q].node != w by {
                        assert(all[q] == prev[q]);
                    }
                    assert forall|q: int|
                        0 <= q < done.len() implies self.final_positions()[(#[trigger] done[q]).node as int]
                        == base + q by {
                        if q < p {
                            assert(done[q] == prev[q]);
                        }
                    }
                    assert forall|v: int|
                        0 <= v < n && !names_node(done, v) implies (#[trigger] self.final_positions()[v])
                        == old_fe[v] by {
                        assert(done[p].node == w);
                        if names_node(prev, v) {
                            let q = choose|q: int| 0 <= q < prev.len() && (#[trigger] prev[q]).node == v;
                            assert(done[q] == prev[q]);
                        }
                    }
                }
                t += 1;
            }
            let ghost ranges_before = self.ranges();
            self.cluster_range.push((range_start, self.hierarchical_clusterings.len()));
            proof {
                assert(block.take(t as int) =~= block);
                assert forall|kk: int, i: int|
                    #![trigger self.ranges()[kk], self.entries()[i]]
                    0 <= kk < self.ranges().len() && self.ranges()[kk].0 <= i
                        < self.ranges()[kk].1 implies self.entries()[i].cluster == kk by {
                    if kk < ranges_before.len() {
                        assert(self.ranges()[kk] == ranges_before[kk]);
                        assert((old_entries + before)[i] == self.entries()[i]);
                    } else {
                        assert(self.entries()[i] == done[i - base]);
                    }
                }
            }
            k += 1;
        }
        proof {
            assert(done =~= all);
        }
        let ghost committed = self.entries();
        let ghost committed_ranges = self.ranges();
        let ghost committed_fe = self.final_positions();
        let mut i: usize = start;
        while i < end
            invariant
                self.ranges() == committed_ranges,
                self.final_positions() == committed_fe,
                start <= i <= end,
                end <= committed.len(),
                self.entries().len() == committed.len(),
                forall|j: int|
                    0 <= j < committed.len() ==> self.entries()[j] == if start <= j < i {
                        retired(committed[j])
                    } else {
                        committed[j]
                    },
            decreases end - i,
        {
            let mut x = self.hierarchical_clusterings[i];
            x.is_final_cluster = false;
            self.hierarchical_clusterings.set(i, x);
            i += 1;
        }
        proof {
            let fin = self.entries();
            let fe = self.final_positions();
            assert(fin =~= retire_range(old_entries, start as int, end as int) + all);
            assert forall|j: int| 0 <= j < fin.len() implies (#[trigger] fin[j]).node < n
                && fin[j].cluster < self.ranges().len() by {
                if j >= base {
                    assert(fin[j] == all[j - base]);
                } else {
                    assert(fin[j].cluster == old_entries[j].cluster);
                }
            }
            assert forall|kk: int, j: int|
                #![trigger self.ranges()[kk], fin[j]]
                0 <= kk < self.ranges().len() && self.ranges()[kk].0 <= j < self.ranges()[kk].1 implies fin[j].cluster
                == kk by {
                assert(committed[j].cluster == kk);
            }
            assert forall|v: int| 0 <= v < fe.len() implies (#[trigger] fe[v]) < fin.len()
                && fin[fe[v] as int].node == v && fin[fe[v] as int].is_final_cluster by {
                if names_node(all, v) {
                    let q = choose|q: int| 0 <= q < all.len() && (#[trigger] all[q]).node == v;
                    assert(fin[base + q] == all[q]);
                } else {
                    assert(fe[v] == old_fe[v]);
                    if start <= old_fe[v] < end {
                        assert(replaced(old_fe, all, old_fe[v] as int));
                        let q = choose|q: int| 0 <= q < all.len() && old_fe[(#[trigger] all[q]).node as int] == old_fe[v];
                        assert(old_entries[old_fe[v] as int].node == v);
                        assert(all[q].node == v);
                    }
                    assert(fin[fe[v] as int] == old_entries[old_fe[v] as int]);
                }
            }
            assert forall|j: int| 0 <= j < fin.len() && (#[trigger] fin[j]).is_final_cluster implies fin[j].node
                < fe.len() && fe[fin[j].node as int] == j by {
                if j >= base {
                    assert(fin[j] == all[j - base]);
                } else {
                    let v = old_entries[j].node as int;
                    assert(!(start <= j < end));
                    assert(fin[j] == old_entries[j]);
                    assert(old_fe[v] == j);
                    if names_node(all, v) {
                        let q = choose|q: int| 0 <= q < all.len() && (#[trigger] all[q]).node == v;
                        assert(start <= old_fe[all[q].node as int] < end);
                    }
                }
            }
            assert forall|j: int| 0 <= j < fin.len() && (#[trigger] fin[j]).level == 0 implies fin[j].parent_cluster is None by {
                if j >= base {
                    assert(fin[j] == all[j - base]);
                    assert(start <= old_fe[all[j - base].node as int] < end);
                    assert(old_entries[start as int].level + 1 == level);
                } else {
                    assert(fin[j].level == old_entries[j].level);
                }
            }
            assert forall|j: int| 0 <= j < fin.len() && (#[trigger] fin[j]).level > 0 implies {
                &&& fin[j].parent_cluster is Some
                &&& exists|jj: int|
                    0 <= jj < fin.len() && (#[trigger] fin[jj]).cluster == fin[j].parent_cluster->Some_0
                        && fin[jj].level + 1 == fin[j].level
            } by {
                if j >= base {
                    assert(fin[j] == all[j - base]);
                    assert(start <= old_fe[all[j - base].node as int] < end);
                    assert(old_ranges[parent_cluster as int].0 <= start < old_ranges[parent_cluster as int].1);
                    assert(old_entries[start as int].cluster == parent_cluster);
                    assert(fin[start as int].cluster == parent_cluster);
                } else {
                    assert(old_entries[j].level > 0);
                    let jj = choose|jj: int|
                        0 <= jj < old_entries.len() && (#[trigger] old_entries[jj]).cluster
                            == old_entries[j].parent_cluster->Some_0 && old_entries[jj].level + 1
                            == old_entries[j].level;
                    assert(fin[jj].cluster == old_entries[jj].cluster);
                }
            }
        }
        Ok(num_clusters)
    }
}

/// Some final record names node `v`.
pub open spec fn has_final_record(entries: Seq<HierarchicalCluster>, v: int) -> bool {
    exists|i: int| 0 <= i < entries.len() && (#[trigger] entries[i]).is_final_cluster && entries[i].node == v
}

/// Every node that a lineage covers has exactly one final record, and every
/// record names a covered node.
pub proof fn lemma_one_final_record_per_node(h: &HierarchicalClustering)
    requires
        h.wf(),
    ensures
        forall|v: int| 0 <= v < h.num_nodes() ==> #[trigger] has_final_record(h.entries(), v),
        forall|i: int, j: int|
            0 <= i < h.entries().len() && 0 <= j < h.entries().len() && (#[trigger] h.entries()[i]).is_final_cluster
                && (#[trigger] h.entries()[j]).is_final_cluster && h.entries()[i].node
                == h.entries()[j].node ==> i == j,
        forall|i: int| 0 <= i < h.entries().len() ==> (#[trigger] h.entries()[i]).node < h.num_nodes(),
{
    let e = h.entries();
    let fe = h.final_positions();
    assert forall|v: int| 0 <= v < h.num_nodes() implies #[trigger] has_final_record(e, v) by {
        assert(fe[v] < e.len());
        assert(e[fe[v] as int].is_final_cluster);
    }
}

/// A record names a parent exactly when it lies below level 0, and every
/// record below level 0 names a parent cluster that has a record at the
/// level right above.
pub proof fn lemma_parent_one_level_up(h: &HierarchicalClustering)
    requires
        h.wf(),
    ensures
        forall|i: int|
            0 <= i < h.entries().len() ==> ((#[trigger] h.entries()[i]).level == 0 <==> h.entries()[i].parent_cluster
                is None),
        forall|i: int|
            0 <= i < h.entries().len() && (#[trigger] h.entries()[i]).level > 0 ==> {
                &&& h.entries()[i].parent_cluster is Some
                &&& exists|j: int|
                    0 <= j < h.entries().len() && (#[trigger] h.entries()[j]).cluster
                        == h.entries()[i].parent_cluster->Some_0 && h.entries()[j].level + 1
                        == h.entries()[i].level
            },
{
}

} // verus!
