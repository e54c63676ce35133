use vstd::prelude::*;

use std::collections::HashSet;
use std::collections::VecDeque;

use crate::clustering::{count_of, Clustering};
use crate::errors::CoreError;
use crate::hierarchical::{
    entries_by_cluster, lemma_one_final_record_per_node, names_node, retire_range, split_fits_range, HierarchicalCluster, HierarchicalClustering,
};

verus! {

broadcast use vstd::std_specs::hash::group_hash_axioms;

/// The cluster ids below `k`, ascending, that hold at least `max` nodes of
/// `s`; where `strict`, also more than one node and none listed in `skip`.
pub open spec fn oversize_clusters(
    s: Seq<usize>,
    max: nat,
    skip: Set<usize>,
    strict: bool,
    k: nat,
) -> Seq<usize>
    decreases k,
{
    if k == 0 {
        Seq::empty()
    } else {
        let c = (k - 1) as usize;
        oversize_clusters(s, max, skip, strict, (k - 1) as nat) + if count_of(s, c) >= max && (!strict
            || (count_of(s, c) > 1 && !skip.contains(c))) {
            seq![c]
        } else {
            Seq::<usize>::empty()
        }
    }
}

/// Each node's final record names the cluster that `c` gives the node.
pub open spec fn final_records_agree(entries: Seq<HierarchicalCluster>, c: Seq<usize>) -> bool {
    forall|i: int|
        0 <= i < entries.len() && (#[trigger] entries[i]).is_final_cluster ==> c[entries[i].node as int]
            == entries[i].cluster
}

/// The decisions of hierarchical clustering: which clusters still need to
/// be split, at which level, and how each split is recorded. The caller runs
/// the clustering of each subnetwork that `next_work` names and hands the
/// result to `record_subnetwork_clustering`.
pub struct HierarchicalDriver {
    hierarchy: HierarchicalClustering,
    clustering: Clustering,
    work_queue: VecDeque<usize>,
    clusters_that_did_not_split: HashSet<usize>,
    level: u32,
    max_cluster_size: u32,
}

impl HierarchicalDriver {
    /// The records made so far.
    pub closed spec fn hierarchy_spec(&self) -> HierarchicalClustering {
        self.hierarchy
    }

    /// The clustering of the original nodes into their deepest clusters.
    pub closed spec fn clustering_spec(&self) -> Clustering {
        self.clustering
    }

    /// The clusters waiting to be split, front first.
    pub closed spec fn queue(&self) -> Seq<usize> {
        self.work_queue@
    }

    /// The clusters whose split gave a single cluster.
    pub closed spec fn unsplittable(&self) -> Set<usize> {
        self.clusters_that_did_not_split@
    }

    /// The level that the next splits are recorded at.
    pub closed spec fn level_spec(&self) -> u32 {
        self.level
    }

    /// The size from which a cluster is split further.
    pub closed spec fn max_size(&self) -> u32 {
        self.max_cluster_size
    }

    pub open spec fn wf(&self) -> bool {
        &&& self.hierarchy_spec().wf()
        &&& self.clustering_spec().wf()
        &&& self.hierarchy_spec().num_nodes() == self.clustering_spec()@.len()
        &&& final_records_agree(self.hierarchy_spec().entries(), self.clustering_spec()@)
    }

    /// The oversize clusters of `clustering`, ascending by id.
    fn oversize(
        clustering: &Clustering,
        max_cluster_size: u32,
        skip: &HashSet<usize>,
        strict: bool,
    ) -> (r: VecDeque<usize>)
        requires
            clustering.wf(),
        ensures
            r@ == oversize_clusters(
                clustering@,
                max_cluster_size as nat,
                skip@,
                strict,
                clustering.next_id(),
            ),
    {
        let counts: Vec<u64> = clustering.num_nodes_per_cluster();
        let mut queue: VecDeque<usize> = VecDeque::new();
        let mut c: usize = 0;
        while c < counts.len()
            invariant
                counts@.len() == clustering.next_id(),
                forall|k: int| 0 <= k < counts@.len() ==> counts@[k] == count_of(clustering@, k as usize),
                c <= counts@.len(),
                queue@ == oversize_clusters(
                    clustering@,
                    max_cluster_size as nat,
                    skip@,
                    strict,
                    c as nat,
                ),
            decreases counts@.len() - c,
        {
            let size = counts[c];
            if size >= max_cluster_size as u64 && (!strict || (size > 1 && !skip.contains(&c))) {
                queue.push_back(c);
            }
            c += 1;
        }
        queue
    }

    /// Starts from the top-level clustering: level-0 records for every node,
    /// and every cluster of at least `max_cluster_size` nodes queued for a
    /// split at level 1.
    pub fn new(top_clustering: Clustering, max_cluster_size: u32) -> (r: Self)
        requires
            top_clustering.wf(),
        ensures
            r.wf(),
            r.clustering_spec() == top_clustering,
            r.hierarchy_spec().num_nodes() == top_clustering@.len(),
            r.hierarchy_spec().entries() == entries_by_cluster(
                Seq::new(top_clustering@.len(), |i: int| i as usize),
                top_clustering@,
                top_clustering.next_id(),
                0,
                0,
                None,
            ),
            r.hierarchy_spec().ranges().len() == top_clustering.next_id(),
            forall|k: int|
                0 <= k < top_clustering.next_id() ==> (#[trigger] r.hierarchy_spec().ranges()[k]) == (
                    entries_by_cluster(
                        Seq::new(top_clustering@.len(), |i: int| i as usize),
                        top_clustering@,
                        k as nat,
                        0,
                        0,
                        None,
                    ).len() as usize,
                    entries_by_cluster(
                        Seq::new(top_clustering@.len(), |i: int| i as usize),
                        top_clustering@,
                        (k + 1) as nat,
                        0,
                        0,
                        None,
                    ).len() as usize,
                ),
            r.queue() == oversize_clusters(
                top_clustering@,
                max_cluster_size as nat,
                Set::<usize>::empty(),
                false,
                top_clustering.next_id(),
            ),
            r.unsplittable() == Set::<usize>::empty(),
            r.level_spec() == 1,
            r.max_size() == max_cluster_size,
    {
        let hierarchy = HierarchicalClustering::new(&top_clustering);
        let clusters_that_did_not_split: HashSet<usize> = HashSet::new();
        let work_queue = Self::oversize(
            &top_clustering,
            max_cluster_size,
            &clusters_that_did_not_split,
            false,
        );
        HierarchicalDriver {
            hierarchy,
            clustering: top_clustering,
            work_queue,
            clusters_that_did_not_split,
            level: 1,
            max_cluster_size,
        }
    }

    /// The level that the next splits are recorded at.
    pub fn level(&self) -> (r: u32)
        ensures
            r == self.level_spec(),
    {
        self.level
    }

    /// The clustering of the original nodes into their deepest clusters.
    pub fn clustering(&self) -> (r: &Clustering)
        ensures
            *r == self.clustering_spec(),
    {
        &self.clustering
    }

    /// The records made so far.
    pub fn hierarchy(&self) -> (r: &HierarchicalClustering)
        ensures
            *r == self.hierarchy_spec(),
    {
        &self.hierarchy
    }

    /// Gives up the records made.
    pub fn into_hierarchical_clusterings(self) -> (r: Vec<HierarchicalCluster>)
        ensures
            r@ == self.hierarchy_spec().entries(),
    {
        self.hierarchy.into_hierarchical_clusterings()
    }

    /// The next cluster to split, taken off the queue; `None` once nothing
    /// is left.
    pub fn next_work(&mut self) -> (r: Option<usize>)
        ensures
            old(self).queue().len() == 0 ==> r is None && *final(self) == *old(self),
            old(self).queue().len() > 0 ==> {
                &&& r == Some(old(self).queue()[0])
                &&& final(self).queue() == old(self).queue().drop_first()
                &&& final(self).hierarchy_spec() == old(self).hierarchy_spec()
                &&& final(self).clustering_spec() == old(self).clustering_spec()
                &&& final(self).unsplittable() == old(self).unsplittable()
                &&& final(self).level_spec() == old(self).level_spec()
                &&& final(self).max_size() == old(self).max_size()
            },
    {
        if self.work_queue.len() == 0 {
            return None;
        }
        let front = self.work_queue.pop_front();
        proof {
            assert(self.queue() =~= old(self).queue().drop_first());
        }
        front
    }

    /// Records the clustering of the subnetwork of `parent_cluster`, whose
    /// node `u` is the original node `labels[u]`. A single cluster marks the
    /// parent as unsplittable. Otherwise the clusters get fresh ids from the
    /// composite clustering's `next_cluster_id` upward, are recorded at the
    /// current level, and their members move there; `ClusterIndexingError`,
    /// with nothing changed, where the split does not fit the records. Once
    /// the queue has run empty the level advances, and every cluster of more
    /// than one node, at least the size limit and not unsplittable is queued,
    /// ascending by id.
    #[verifier::rlimit(60)]
    pub fn record_subnetwork_clustering(
        &mut self,
        parent_cluster: usize,
        labels: &Vec<usize>,
        subnetwork_clustering: &Clustering,
    ) -> (r: Result<(), CoreError>)
        requires
            old(self).wf(),
            subnetwork_clustering.wf(),
        ensures
            final(self).wf(),
            final(self).max_size() == old(self).max_size(),
            subnetwork_clustering.next_id() == 1 ==> {
                &&& r is Ok
                &&& final(self).hierarchy_spec() == old(self).hierarchy_spec()
                &&& final(self).clustering_spec() == old(self).clustering_spec()
                &&& final(self).unsplittable() == old(self).unsplittable().insert(parent_cluster)
            },
            subnetwork_clustering.next_id() != 1 ==> (r is Ok <==> {
                &&& old(self).clustering_spec().next_id() + subnetwork_clustering.next_id()
                    < usize::MAX
                &&& old(self).hierarchy_spec().split_fits(
                    labels@,
                    *subnetwork_clustering,
                    parent_cluster,
                    old(self).clustering_spec().next_id() as usize,
                    old(self).level_spec(),
                )
            }),
            subnetwork_clustering.next_id() != 1 && r is Ok ==> {
                let added = HierarchicalClustering::split_entries(
                    labels@,
                    *subnetwork_clustering,
                    parent_cluster,
                    old(self).clustering_spec().next_id() as usize,
                    old(self).level_spec(),
                );
                let range = old(self).hierarchy_spec().ranges()[parent_cluster as int];
                &&& final(self).hierarchy_spec().entries() == retire_range(
                    old(self).hierarchy_spec().entries(),
                    range.0 as int,
                    range.1 as int,
                ) + added
                &&& final(self).clustering_spec()@.len() == old(self).clustering_spec()@.len()
                &&& forall|q: int|
                    0 <= q < added.len() ==> final(self).clustering_spec()@[(#[trigger] added[q]).node as int]
                        == added[q].cluster
                &&& forall|v: int|
                    0 <= v < old(self).clustering_spec()@.len() && !names_node(added, v)
                        ==> final(self).clustering_spec()@[v] == old(self).clustering_spec()@[v]
                &&& final(self).unsplittable() == old(self).unsplittable()
            },
            r is Err ==> {
                &&& r == Err::<(), CoreError>(CoreError::ClusterIndexingError)
                &&& final(self).hierarchy_spec() == old(self).hierarchy_spec()
                &&& final(self).clustering_spec() == old(self).clustering_spec()
                &&& final(self).unsplittable() == old(self).unsplittable()
                &&& final(self).queue() == old(self).queue()
                &&& final(self).level_spec() == old(self).level_spec()
            },
            r is Ok && old(self).queue().len() > 0 ==> {
                &&& final(self).queue() == old(self).queue()
                &&& final(self).level_spec() == old(self).level_spec()
            },
            r is Ok && old(self).queue().len() == 0 && old(self).level_spec() < u32::MAX ==> {
                &&& final(self).level_spec() == old(self).level_spec() + 1
                &&& final(self).queue() == oversize_clusters(
                    final(self).clustering_spec()@,
                    final(self).max_size() as nat,
                    final(self).unsplittable(),
                    true,
                    final(self).clustering_spec().next_id(),
                )
            },
            r is Ok && old(self).queue().len() == 0 && old(self).level_spec() == u32::MAX ==> {
                &&& final(self).level_spec() == old(self).level_spec()
                &&& final(self).queue().len() == 0
            },
    {
        if subnetwork_clustering.next_cluster_id() == 1 {
            self.clusters_that_did_not_split.insert(parent_cluster);
        } else {
            let offset = self.clustering.next_cluster_id();
            if subnetwork_clustering.next_cluster_id() >= usize::MAX - offset {
                return Err(CoreError::ClusterIndexingError);
            }
            let base = self.hierarchy.hierarchical_clusterings().len();
            let ghost old_h = self.hierarchy;
            let ghost old_c = self.clustering@;
            let ghost added = HierarchicalClustering::split_entries(
                labels@,
                *subnetwork_clustering,
                parent_cluster,
                offset,
                self.level,
            );
            let inserted = self.hierarchy.insert_subnetwork_clustering(
                labels,
                subnetwork_clustering,
                parent_cluster,
                offset,
                self.level,
            );
            if inserted.is_err() {
                return Err(CoreError::ClusterIndexingError);
            }
            let ghost range = old_h.ranges()[parent_cluster as int];
            proof {
                assert(split_fits_range(
                    old_h.entries(),
                    old_h.final_positions(),
                    added,
                    range.0 as int,
                    range.1 as int,
                    self.level,
                ));
            }
            proof {
                assert(self.hierarchy.ranges().len() == old_h.ranges().len()
                    + subnetwork_clustering.next_id());
            }
            let entries = self.hierarchy.hierarchical_clusterings();
            let mut j: usize = base;
            while j < entries.len()
                invariant
                    self.max_cluster_size == old(self).max_cluster_size,
                    self.level == old(self).level,
                    self.work_queue@ == old(self).work_queue@,
                    self.clusters_that_did_not_split@ == old(self).clusters_that_did_not_split@,
                    self.hierarchy.ranges().len() < usize::MAX,
                    entries@ == self.hierarchy.entries(),
                    self.hierarchy.wf(),
                    self.hierarchy.num_nodes() == old_c.len(),
                    entries@ == retire_range(old_h.entries(), range.0 as int, range.1 as int)
                        + added,
                    base == old_h.entries().len(),
                    base <= j <= entries@.len(),
                    forall|a: int, b: int|
                        0 <= a < added.len() && 0 <= b < added.len() && a != b ==> (#[trigger] added[a]).node
                            != (#[trigger] added[b]).node,
                    self.clustering.wf(),
                    self.clustering@.len() == old_c.len(),
                    forall|q: int|
                        0 <= q < j - base ==> self.clustering@[(#[trigger] added[q]).node as int]
                            == added[q].cluster,
                    forall|v: int|
                        0 <= v < old_c.len() && !names_node(added.take(j - base), v)
                            ==> self.clustering@[v] == old_c[v],
                decreases entries@.len() - j,
            {
                let entry = entries[j];
                let ghost q = j - base;
                let ghost before = self.clustering@;
                proof {
                    assert(entry == added[q]);
                    assert(entry.node < old_c.len());
                }
                let _ = self.clustering.update_cluster_at(entry.node, entry.cluster);
                proof {
                    assert forall|qq: int|
                        0 <= qq < j + 1 - base implies self.clustering@[(#[trigger] added[qq]).node as int]
                        == added[qq].cluster by {
                        if qq < q {
                            assert(added[qq].node != added[q].node);
                            assert(before[added[qq].node as int] == added[qq].cluster);
                            assert(entries@[base + qq] == added[qq]);
                            assert(added[qq].node < old_c.len());
                            assert(self.clustering@[added[qq].node as int] == before[added[qq].node as int]);
                        } else {
                            assert(qq == q);
                            assert(self.clustering@[entry.node as int] == entry.cluster);
                        }
                    }
                    assert forall|v: int|
                        0 <= v < old_c.len() && !names_node(added.take(j + 1 - base), v) implies self.clustering@[v]
                        == old_c[v] by {
                        assert(added.take(j + 1 - base)[q] == entry);
                        if names_node(added.take(q), v) {
                            let qq = choose|qq: int|
                                0 <= qq < added.take(q).len() && (#[trigger] added.take(q)[qq]).node == v;
                            assert(added.take(j + 1 - base)[qq] == added.take(q)[qq]);
                        }
                    }
                }
                j += 1;
            }
            proof {
                assert(added.take(added.len() as int) =~= added);
                let fin = self.hierarchy.entries();
                let fe = old_h.final_positions();
                assert forall|i: int|
                    0 <= i < fin.len() && (#[trigger] fin[i]).is_final_cluster implies self.clustering@[fin[i].node as int]
                    == fin[i].cluster by {
                    if i >= base {
                        assert(fin[i] == added[i - base]);
                    } else {
                        let v = old_h.entries()[i].node as int;
                        assert(!(range.0 <= i < range.1));
                        assert(fin[i] == old_h.entries()[i]);
                        assert(fe[v] == i);
                        if names_node(added, v) {
                            let qq = choose|qq: int| 0 <= qq < added.len() && (#[trigger] added[qq]).node == v;
                            assert(range.0 <= fe[added[qq].node as int] < range.1);
                        }
                    }
                }
            }
        }
        if self.work_queue.len() == 0 {
            if self.level < u32::MAX {
                self.level = self.level + 1;
                self.work_queue = Self::oversize(
                    &self.clustering,
                    self.max_cluster_size,
                    &self.clusters_that_did_not_split,
                    true,
                );
            }
        }
        Ok(())
    }
}

/// Some final record names node `v` in cluster `c[v]`.
pub open spec fn final_record_in(entries: Seq<HierarchicalCluster>, c: Seq<usize>, v: int) -> bool {
    exists|i: int|
        0 <= i < entries.len() && (#[trigger] entries[i]).is_final_cluster && entries[i].node == v
            && entries[i].cluster == c[v]
}

/// Each original node has exactly one final record, and it names the
/// deepest cluster that the composite clustering gives the node.
pub proof fn lemma_final_record_is_deepest_cluster(d: &HierarchicalDriver)
    requires
        d.wf(),
    ensures
        forall|v: int|
            0 <= v < d.clustering_spec()@.len() ==> #[trigger] final_record_in(
                d.hierarchy_spec().entries(),
                d.clustering_spec()@,
                v,
            ),
        forall|i: int, j: int|
            0 <= i < d.hierarchy_spec().entries().len() && 0 <= j < d.hierarchy_spec().entries().len()
                && (#[trigger] d.hierarchy_spec().entries()[i]).is_final_cluster
                && (#[trigger] d.hierarchy_spec().entries()[j]).is_final_cluster
                && d.hierarchy_spec().entries()[i].node == d.hierarchy_spec().entries()[j].node ==> i == j,
{
    lemma_one_final_record_per_node(&d.hierarchy_spec());
    let e = d.hierarchy_spec().entries();
    assert forall|v: int| 0 <= v < d.clustering_spec()@.len() implies #[trigger] final_record_in(
        e,
        d.clustering_spec()@,
        v,
    ) by {
        assert(crate::hierarchical::has_final_record(e, v));
        let i = choose|i: int| 0 <= i < e.len() && (#[trigger] e[i]).is_final_cluster && e[i].node == v;
        assert(e[i].cluster == d.clustering_spec()@[e[i].node as int]);
    }
}

} // verus!
