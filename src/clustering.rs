use vstd::prelude::*;

use crate::errors::CoreError;

verus! {

/// One node and the cluster it belongs to.
#[derive(Clone, Copy, Debug, PartialEq, Eq, Structural)]
pub struct ClusterItem {
    pub node_id: usize,
    pub cluster: usize,
}

/// A mapping from each node (by dense index) to a cluster id, together with
/// `next_cluster_id`, an id that no node uses yet. After
/// `remove_empty_clusters` the ids fill `[0, next_cluster_id)` exactly.
#[derive(Clone, Debug, PartialEq, Eq)]
pub struct Clustering {
    next_cluster_id: usize,
    node_to_cluster_mapping: Vec<usize>,
}

impl View for Clustering {
    type V = Seq<usize>;

    closed spec fn view(&self) -> Seq<usize> {
        self.node_to_cluster_mapping@
    }
}

/// Walks the nodes of a clustering in ascending order, each with its
/// cluster.
pub struct ClusterIterator<'a> {
    cluster_ref: &'a Clustering,
    next_cluster_id: usize,
}

impl<'a> ClusterIterator<'a> {
    /// The clustering walked.
    pub closed spec fn walked(&self) -> Seq<usize> {
        self.cluster_ref@
    }

    /// The node that comes next.
    pub closed spec fn position(&self) -> nat {
        self.next_cluster_id as nat
    }

    /// The next node with its cluster; `None` once every node has come.
    pub fn next(&mut self) -> (r: Option<ClusterItem>)
        requires
            old(self).position() <= old(self).walked().len(),
        ensures
            final(self).walked() == old(self).walked(),
            final(self).position() <= final(self).walked().len(),
            old(self).position() == old(self).walked().len() ==> r is None && final(self).position()
                == old(self).position(),
            old(self).position() < old(self).walked().len() ==> {
                &&& r == Some(
                    ClusterItem {
                        node_id: old(self).position() as usize,
                        cluster: old(self).walked()[old(self).position() as int],
                    },
                )
                &&& final(self).position() == old(self).position() + 1
            },
    {
        if self.next_cluster_id == self.cluster_ref.node_to_cluster_mapping.len() {
            None
        } else {
            let item = ClusterItem {
                node_id: self.next_cluster_id,
                cluster: self.cluster_ref.node_to_cluster_mapping[self.next_cluster_id],
            };
            self.next_cluster_id += 1;
            Some(item)
        }
    }
}

/// The number of positions of `s` that hold `k`.
pub open spec fn count_of(s: Seq<usize>, k: usize) -> nat
    decreases s.len(),
{
    if s.len() == 0 {
        0
    } else {
        count_of(s.drop_last(), k) + if s.last() == k {
            1nat
        } else {
            0nat
        }
    }
}

/// The positions of `s` that hold `k`, in ascending order.
pub open spec fn members_of(s: Seq<usize>, k: usize) -> Seq<usize>
    decreases s.len(),
{
    if s.len() == 0 {
        Seq::empty()
    } else {
        members_of(s.drop_last(), k) + if s.last() == k {
            seq![(s.len() - 1) as usize]
        } else {
            Seq::<usize>::empty()
        }
    }
}

/// Every id in `s` is below `next`.
pub open spec fn ids_below(s: Seq<usize>, next: nat) -> bool {
    forall|i: int| 0 <= i < s.len() ==> (#[trigger] s[i]) < next
}

/// Some position of `s` holds `k`.
pub open spec fn is_used(s: Seq<usize>, k: usize) -> bool {
    exists|i: int| 0 <= i < s.len() && s[i] == k
}

/// The number of ids below `k` that some position of `s` holds: the id that
/// compaction gives to `k`.
pub open spec fn rank_of(s: Seq<usize>, k: nat) -> nat
    decreases k,
{
    if k == 0 {
        0
    } else {
        rank_of(s, (k - 1) as nat) + if is_used(s, (k - 1) as usize) {
            1nat
        } else {
            0nat
        }
    }
}

/// The ids of a compacted clustering fill `[0, next)`: each is below `next`
/// and each id below `next` is used.
pub open spec fn is_compact(s: Seq<usize>, next: nat) -> bool {
    &&& ids_below(s, next)
    &&& forall|k: usize| k < next ==> #[trigger] is_used(s, k)
}

impl Clustering {
    /// The id that no node uses yet.
    pub closed spec fn next_id(&self) -> nat {
        self.next_cluster_id as nat
    }

    /// Every node's cluster id is below `next_cluster_id`.
    pub open spec fn wf(&self) -> bool {
        ids_below(self@, self.next_id())
    }

    /// A clustering of no nodes.
    pub fn new() -> (r: Clustering)
        ensures
            r@ == Seq::<usize>::empty(),
            r.next_id() == 0,
            r.wf(),
    {
        Clustering { next_cluster_id: 0, node_to_cluster_mapping: Vec::new() }
    }

    /// Every node in a cluster of its own: node `i` in cluster `i`.
    pub fn as_self_clusters(num_nodes: usize) -> (r: Clustering)
        ensures
            r@.len() == num_nodes,
            forall|i: int| 0 <= i < num_nodes ==> r@[i] == i,
            r.next_id() == num_nodes,
            r.wf(),
    {
        let mut identity_mapping: Vec<usize> = Vec::with_capacity(num_nodes);
        let mut i: usize = 0;
        while i < num_nodes
            invariant
                i <= num_nodes,
                identity_mapping@.len() == i,
                forall|j: int| 0 <= j < i ==> identity_mapping@[j] == j,
            decreases num_nodes - i,
        {
            identity_mapping.push(i);
            i += 1;
        }
        Clustering { next_cluster_id: num_nodes, node_to_cluster_mapping: identity_mapping }
    }

    /// A clustering with the given mapping and next id.
    pub fn as_defined(node_to_cluster_mapping: Vec<usize>, next_cluster_id: usize) -> (r:
        Clustering)
        requires
            ids_below(node_to_cluster_mapping@, next_cluster_id as nat),
        ensures
            r@ == node_to_cluster_mapping@,
            r.next_id() == next_cluster_id,
            r.wf(),
    {
        Clustering { next_cluster_id, node_to_cluster_mapping }
    }

    /// The number of nodes.
    pub fn num_nodes(&self) -> (r: usize)
        ensures
            r == self@.len(),
    {
        self.node_to_cluster_mapping.len()
    }

    /// The id that no node uses yet.
    pub fn next_cluster_id(&self) -> (r: usize)
        ensures
            r == self.next_id(),
    {
        self.next_cluster_id
    }

    /// The cluster of `node`, or `ClusterIndexingError` where there is no such node.
    pub fn cluster_at(&self, node: usize) -> (r: Result<usize, CoreError>)
        ensures
            node < self@.len() ==> r == Ok::<usize, CoreError>(self@[node as int]),
            node >= self@.len() ==> r == Err::<usize, CoreError>(CoreError::ClusterIndexingError),
    {
        if node < self.node_to_cluster_mapping.len() {
            Ok(self.node_to_cluster_mapping[node])
        } else {
            Err(CoreError::ClusterIndexingError)
        }
    }

    /// Puts `node` into `cluster` and raises `next_cluster_id` above `cluster`
    /// where needed; `ClusterIndexingError`, with nothing changed, where there
    /// is no such node.
    pub fn update_cluster_at(&mut self, node: usize, cluster: usize) -> (r: Result<(), CoreError>)
        requires
            cluster < usize::MAX,
        ensures
            old(self).wf() ==> final(self).wf(),
            node < old(self)@.len() ==> {
                &&& r == Ok::<(), CoreError>(())
                &&& final(self)@ == old(self)@.update(node as int, cluster)
                &&& final(self).next_id() == if old(self).next_id() > cluster + 1 {
                    old(self).next_id() as int
                } else {
                    cluster + 1
                }
            },
            node >= old(self)@.len() ==> {
                &&& r == Err::<(), CoreError>(CoreError::ClusterIndexingError)
                &&& *final(self) == *old(self)
            },
    {
        if node < self.node_to_cluster_mapping.len() {
            self.node_to_cluster_mapping.set(node, cluster);
            if self.next_cluster_id < cluster + 1 {
                self.next_cluster_id = cluster + 1;
            }
            Ok(())
        } else {
            Err(CoreError::ClusterIndexingError)
        }
    }

    /// For each cluster id below `next_cluster_id`, how many nodes it holds.
    pub fn num_nodes_per_cluster(&self) -> (r: Vec<u64>)
        requires
            self.wf(),
        ensures
            r@.len() == self.next_id(),
            forall|k: int| 0 <= k < r@.len() ==> r@[k] == count_of(self@, k as usize),
    {
        let s = Ghost(self@);
        let mut nodes_per_cluster: Vec<u64> = vec![0u64; self.next_cluster_id];
        let mut i: usize = 0;
        while i < self.node_to_cluster_mapping.len()
            invariant
                s@ == self@,
                self.wf(),
                i <= s@.len(),
                nodes_per_cluster@.len() == self.next_id(),
                forall|k: int|
                    0 <= k < nodes_per_cluster@.len() ==> nodes_per_cluster@[k] == count_of(
                        s@.take(i as int),
                        k as usize,
                    ),
            decreases s@.len() - i,
        {
            let c = self.node_to_cluster_mapping[i];
            proof {
                assert forall|k: usize| #[trigger]
                    count_of(s@.take(i + 1), k) == count_of(s@.take(i as int), k) + if s@[i as int]
                        == k {
                        1nat
                    } else {
                        0nat
                    } by {
                    lemma_count_step(s@, i as int, k);
                }
                lemma_count_bound(s@.take(i as int), c);
                assert(usize::MAX <= u64::MAX);
            }
            nodes_per_cluster.set(c, nodes_per_cluster[c] + 1);
            i += 1;
        }
        assert(s@.take(s@.len() as int) =~= s@);
        nodes_per_cluster
    }

    /// For each cluster id below `next_cluster_id`, the nodes it holds in
    /// ascending order.
    pub fn nodes_per_cluster(&self) -> (r: Vec<Vec<usize>>)
        requires
            self.wf(),
        ensures
            r@.len() == self.next_id(),
            forall|k: int| 0 <= k < r@.len() ==> r@[k]@ == members_of(self@, k as usize),
    {
        let s = Ghost(self@);
        let number_nodes_per_cluster: Vec<u64> = self.num_nodes_per_cluster();
        let mut nodes_per_cluster: Vec<Vec<usize>> = Vec::with_capacity(self.next_cluster_id);
        let mut k: usize = 0;
        while k < self.next_cluster_id
            invariant
                k <= self.next_id(),
                number_nodes_per_cluster@.len() == self.next_id(),
                nodes_per_cluster@.len() == k,
                forall|j: int| 0 <= j < k ==> nodes_per_cluster@[j]@ == Seq::<usize>::empty(),
            decreases self.next_id() - k,
        {
            nodes_per_cluster.push(Vec::with_capacity(number_nodes_per_cluster[k] as usize));
            k += 1;
        }
        let mut i: usize = 0;
        while i < self.node_to_cluster_mapping.len()
            invariant
                s@ == self@,
                self.wf(),
                i <= s@.len(),
                nodes_per_cluster@.len() == self.next_id(),
                forall|j: int|
                    0 <= j < nodes_per_cluster@.len() ==> nodes_per_cluster@[j]@ == members_of(
                        s@.take(i as int),
                        j as usize,
                    ),
            decreases s@.len() - i,
        {
            let c = self.node_to_cluster_mapping[i];
            proof {
                assert forall|j: usize| #[trigger]
                    members_of(s@.take(i + 1), j) == members_of(s@.take(i as int), j) + if s@[i as int]
                        == j {
                        seq![i]
                    } else {
                        Seq::<usize>::empty()
                    } by {
                    lemma_members_step(s@, i as int, j);
                }
            }
            nodes_per_cluster[c].push(i);
            i += 1;
        }
        assert(s@.take(s@.len() as int) =~= s@);
        nodes_per_cluster
    }

    /// Renumbers the clusters so that the used ids fill `[0, K)` in their old
    /// order, `K` being the number of non-empty clusters, and sets
    /// `next_cluster_id` to `K`.
    pub fn remove_empty_clusters(&mut self)
        requires
            old(self).wf(),
        ensures
            final(self)@.len() == old(self)@.len(),
            forall|i: int|
                0 <= i < old(self)@.len() ==> final(self)@[i] == rank_of(
                    old(self)@,
                    old(self)@[i] as nat,
                ),
            final(self).next_id() == rank_of(old(self)@, old(self).next_id()),
            is_compact(final(self)@, final(self).next_id()),
            final(self).wf(),
    {
        let s = Ghost(self@);
        let next = self.next_cluster_id;
        let mut non_empty_clusters: Vec<bool> = vec![false; next];
        let mut i: usize = 0;
        while i < self.node_to_cluster_mapping.len()
            invariant
                s@ == self@,
                self.wf(),
                next == self.next_id(),
                i <= s@.len(),
                non_empty_clusters@.len() == next,
                forall|k: int|
                    0 <= k < next ==> (non_empty_clusters@[k] <==> exists|j: int|
                        0 <= j < i && s@[j] == k),
            decreases s@.len() - i,
        {
            let c = self.node_to_cluster_mapping[i];
            non_empty_clusters.set(c, true);
            proof {
                assert forall|k: int| 0 <= k < next implies (non_empty_clusters@[k] <==> exists|
                    j: int,
                | 0 <= j < i + 1 && s@[j] == k) by {
                    if k == c {
                        assert(s@[i as int] == k);
                    }
                    if exists|j: int| 0 <= j < i + 1 && s@[j] == k {
                        let j = choose|j: int| 0 <= j < i + 1 && s@[j] == k;
                        if j < i {
                        } else {
                            assert(k == c);
                        }
                    }
                }
            }
            i += 1;
        }
        assert forall|k: int| 0 <= k < next implies (non_empty_clusters@[k] <==> is_used(
            s@,
            k as usize,
        )) by {
            if non_empty_clusters@[k] {
                let j = choose|j: int| 0 <= j < s@.len() && s@[j] == k;
                assert(s@[j] == k as usize);
            }
            if is_used(s@, k as usize) {
                let j = choose|j: int| 0 <= j < s@.len() && s@[j] == k as usize;
                assert(0 <= j < i && s@[j] == k);
            }
        }
        let mut new_index: usize = 0;
        let mut new_cluster_lookup: Vec<usize> = vec![0; next];
        let mut k: usize = 0;
        while k < next
            invariant
                k <= next,
                non_empty_clusters@.len() == next,
                new_cluster_lookup@.len() == next,
                forall|j: int|
                    0 <= j < next ==> (non_empty_clusters@[j] <==> is_used(s@, j as usize)),
                new_index == rank_of(s@, k as nat),
                forall|j: int|
                    0 <= j < k && is_used(s@, j as usize) ==> new_cluster_lookup@[j] == rank_of(
                        s@,
                        j as nat,
                    ),
            decreases next - k,
        {
            proof {
                lemma_rank_bound(s@, k as nat);
            }
            if non_empty_clusters[k] {
                new_cluster_lookup.set(k, new_index);
                new_index += 1;
            }
            k += 1;
        }
        self.next_cluster_id = new_index;
        let mut i: usize = 0;
        while i < self.node_to_cluster_mapping.len()
            invariant
                self@.len() == s@.len(),
                self.next_id() == rank_of(s@, next as nat),
                ids_below(s@, next as nat),
                i <= s@.len(),
                new_cluster_lookup@.len() == next,
                forall|j: int|
                    0 <= j < next && is_used(s@, j as usize) ==> new_cluster_lookup@[j] == rank_of(
                        s@,
                        j as nat,
                    ),
                forall|j: int| 0 <= j < i ==> self@[j] == rank_of(s@, s@[j] as nat),
                forall|j: int| i <= j < s@.len() ==> self@[j] == s@[j],
            decreases s@.len() - i,
        {
            let c = self.node_to_cluster_mapping[i];
            assert(s@[i as int] == c);
            assert(is_used(s@, c));
            self.node_to_cluster_mapping.set(i, new_cluster_lookup[c]);
            i += 1;
        }
        proof {
            let t = self@;
            assert forall|j: int| 0 <= j < t.len() implies (#[trigger] t[j]) < self.next_id() by {
                assert(s@[j] < next);
                assert(is_used(s@, s@[j]));
                lemma_rank_strict(s@, s@[j], next as nat);
            }
            assert forall|r: usize| r < self.next_id() implies #[trigger] is_used(t, r) by {
                lemma_rank_onto(s@, r as nat, next as nat);
                let k = choose|k: usize| k < next && is_used(s@, k) && rank_of(s@, k as nat) == r;
                let j = choose|j: int| 0 <= j < s@.len() && s@[j] == k;
                assert(t[j] == r);
            }
        }
    }

    /// Whether the ids fill `[0, next_cluster_id)` exactly.
    pub fn is_compacted(&self) -> (r: bool)
        ensures
            r == is_compact(self@, self.next_id()),
    {
        let next = self.next_cluster_id;
        let mut used: Vec<bool> = vec![false; next];
        let mut i: usize = 0;
        while i < self.node_to_cluster_mapping.len()
            invariant
                next == self.next_id(),
                i <= self@.len(),
                used@.len() == next,
                ids_below(self@.take(i as int), next as nat),
                forall|k: int|
                    0 <= k < next ==> (used@[k] <==> exists|j: int| 0 <= j < i && self@[j] == k),
            decreases self@.len() - i,
        {
            let c = self.node_to_cluster_mapping[i];
            if c >= next {
                proof {
                    assert(self@[i as int] >= next);
                }
                return false;
            }
            used.set(c, true);
            proof {
                assert forall|k: int| 0 <= k < next implies (used@[k] <==> exists|j: int|
                    0 <= j < i + 1 && self@[j] == k) by {
                    if k == c {
                        assert(self@[i as int] == k);
                    }
                    if exists|j: int| 0 <= j < i + 1 && self@[j] == k {
                        let j = choose|j: int| 0 <= j < i + 1 && self@[j] == k;
                        if j == i {
                            assert(k == c);
                        }
                    }
                }
                assert forall|j: int| 0 <= j < self@.take(i + 1).len() implies (#[trigger] self@.take(
                    i + 1,
                )[j]) < next by {
                    if j < i {
                        assert(self@.take(i + 1)[j] == self@.take(i as int)[j]);
                    }
                }
            }
            i += 1;
        }
        proof {
            assert(self@.take(i as int) =~= self@);
        }
        let mut k: usize = 0;
        while k < next
            invariant
                next == self.next_id(),
                i == self@.len(),
                used@.len() == next,
                k <= next,
                forall|kk: int|
                    0 <= kk < next ==> (used@[kk] <==> exists|j: int| 0 <= j < i && self@[j] == kk),
                forall|kk: usize| kk < k ==> #[trigger] is_used(self@, kk),
            decreases next - k,
        {
            if !used[k] {
                proof {
                    assert(!is_used(self@, k));
                }
                return false;
            }
            proof {
                let j = choose|j: int| 0 <= j < i && self@[j] == k;
                assert(is_used(self@, k));
            }
            k += 1;
        }
        true
    }

    /// Sets `next_cluster_id` to zero, ahead of a renumbering.
    pub fn reset_next_cluster_id(&mut self)
        ensures
            final(self)@ == old(self)@,
            final(self).next_id() == 0,
    {
        self.next_cluster_id = 0;
    }

    /// Writes a subnetwork's clustering back: the node `labels[u]` goes to
    /// cluster `next_cluster_id + sub[u]`, and `next_cluster_id` grows by the
    /// subnetwork clustering's own.
    pub fn merge_subnetwork_clustering(
        &mut self,
        labels: &Vec<usize>,
        subnetwork_clustering: &Clustering,
    )
        requires
            subnetwork_clustering.wf(),
            subnetwork_clustering@.len() == labels@.len(),
            all_distinct(labels@),
            forall|u: int| 0 <= u < labels@.len() ==> (#[trigger] labels@[u]) < old(self)@.len(),
            old(self).next_id() + subnetwork_clustering.next_id() <= usize::MAX,
        ensures
            final(self)@.len() == old(self)@.len(),
            forall|u: int|
                0 <= u < labels@.len() ==> final(self)@[#[trigger] labels@[u] as int]
                    == old(self).next_id() + subnetwork_clustering@[u],
            forall|v: usize|
                v < old(self)@.len() && !labels@.contains(v) ==> final(self)@[v as int]
                    == old(self)@[v as int],
            final(self).next_id() == old(self).next_id() + subnetwork_clustering.next_id(),
            old(self).wf() ==> final(self).wf(),
    {
        let s = Ghost(self@);
        let next = self.next_cluster_id;
        let mut u: usize = 0;
        while u < labels.len()
            invariant
                next == self.next_id(),
                next + subnetwork_clustering.next_id() <= usize::MAX,
                subnetwork_clustering.wf(),
                subnetwork_clustering@.len() == labels@.len(),
                all_distinct(labels@),
                forall|w: int| 0 <= w < labels@.len() ==> (#[trigger] labels@[w]) < s@.len(),
                u <= labels@.len(),
                self@.len() == s@.len(),
                forall|w: int|
                    0 <= w < u ==> self@[#[trigger] labels@[w] as int] == next
                        + subnetwork_clustering@[w],
                forall|v: usize|
                    v < s@.len() && !labels@.take(u as int).contains(v) ==> self@[v as int]
                        == s@[v as int],
            decreases labels@.len() - u,
        {
            let old_id = labels[u];
            let new_id = next + subnetwork_clustering.node_to_cluster_mapping[u];
            self.node_to_cluster_mapping.set(old_id, new_id);
            proof {
                assert forall|v: usize|
                    v < s@.len() && !labels@.take(u + 1).contains(v) implies self@[v as int]
                    == s@[v as int] by {
                    assert(labels@.take(u + 1)[u as int] == old_id);
                    if labels@.take(u as int).contains(v) {
                        let w = choose|w: int| 0 <= w < u && labels@.take(u as int)[w] == v;
                        assert(labels@.take(u + 1)[w] == v);
                    }
                }
            }
            u += 1;
        }
        assert(labels@.take(labels@.len() as int) =~= labels@);
        self.next_cluster_id = next + subnetwork_clustering.next_cluster_id;
        let n = self.node_to_cluster_mapping.len();
        proof {
            if ids_below(s@, next as nat) {
                assert forall|v: int| 0 <= v < self@.len() implies (#[trigger] self@[v])
                    < self.next_id() by {
                    let vu = v as usize;
                    assert(vu as int == v);
                    if labels@.contains(vu) {
                        let w = choose|w: int| 0 <= w < labels@.len() && labels@[w] == vu;
                        assert(self@[labels@[w] as int] == next + subnetwork_clustering@[w]);
                        assert(subnetwork_clustering@[w] < subnetwork_clustering.next_id());
                    } else {
                        assert(self@[vu as int] == s@[vu as int]);
                        assert(s@[v] < next);
                    }
                }
            }
        }
    }

    /// Relabels through a clustering of the clusters: node `i` goes to cluster
    /// `other[self[i]]`, and `next_cluster_id` becomes `other`'s.
    pub fn merge_clustering(&mut self, other: &Clustering)
        requires
            ids_below(old(self)@, other@.len()),
        ensures
            final(self)@.len() == old(self)@.len(),
            forall|i: int|
                0 <= i < old(self)@.len() ==> final(self)@[i] == other@[old(self)@[i] as int],
            final(self).next_id() == other.next_id(),
            other.wf() ==> final(self).wf(),
    {
        let s = Ghost(self@);
        let mut i: usize = 0;
        while i < self.node_to_cluster_mapping.len()
            invariant
                ids_below(s@, other@.len()),
                self@.len() == s@.len(),
                i <= s@.len(),
                forall|j: int| 0 <= j < i ==> self@[j] == other@[s@[j] as int],
                forall|j: int| i <= j < s@.len() ==> self@[j] == s@[j],
            decreases s@.len() - i,
        {
            let c = self.node_to_cluster_mapping[i];
            assert(s@[i as int] == c);
            assert(c < other@.len());
            self.node_to_cluster_mapping.set(i, other.node_to_cluster_mapping[c]);
            i += 1;
        }
        self.next_cluster_id = other.next_cluster_id;
    }

    /// A walk over the nodes in ascending order, each with its cluster.
    pub fn iter(&self) -> (r: ClusterIterator<'_>)
        ensures
            r.walked() == self@,
            r.position() == 0,
    {
        ClusterIterator { cluster_ref: self, next_cluster_id: 0 }
    }

    /// Each node with its cluster, in ascending node order.
    pub fn cluster_items(&self) -> (r: Vec<ClusterItem>)
        ensures
            r@.len() == self@.len(),
            forall|i: int|
                0 <= i < r@.len() ==> r@[i] == (ClusterItem { node_id: i as usize, cluster: self@[i] }),
    {
        let mut items: Vec<ClusterItem> = Vec::with_capacity(self.node_to_cluster_mapping.len());
        let mut i: usize = 0;
        while i < self.node_to_cluster_mapping.len()
            invariant
                i <= self@.len(),
                items@.len() == i,
                forall|j: int|
                    0 <= j < i ==> items@[j] == (ClusterItem {
                        node_id: j as usize,
                        cluster: self@[j],
                    }),
            decreases self@.len() - i,
        {
            items.push(ClusterItem { node_id: i, cluster: self.node_to_cluster_mapping[i] });
            i += 1;
        }
        items
    }
}


/// Where `s` has no two equal elements.
pub open spec fn all_distinct(s: Seq<usize>) -> bool {
    forall|a: int, b: int| 0 <= a < s.len() && 0 <= b < s.len() && a != b ==> s[a] != s[b]
}

/// Relabelling a compact clustering through a compact clustering of its
/// clusters, as `merge_clustering` does, gives a compact clustering.
pub proof fn lemma_merge_keeps_compact(
    before: Seq<usize>,
    other: Seq<usize>,
    other_next: nat,
    after: Seq<usize>,
)
    requires
        other.len() <= usize::MAX,
        is_compact(before, other.len()),
        is_compact(other, other_next),
        after.len() == before.len(),
        forall|i: int| 0 <= i < before.len() ==> after[i] == other[before[i] as int],
    ensures
        is_compact(after, other_next),
{
    assert forall|i: int| 0 <= i < after.len() implies (#[trigger] after[i]) < other_next by {
        assert(before[i] < other.len());
        assert(other[before[i] as int] < other_next);
    }
    assert forall|k: usize| k < other_next implies #[trigger] is_used(after, k) by {
        assert(is_used(other, k));
        let j = choose|j: int| 0 <= j < other.len() && other[j] == k;
        assert(is_used(before, j as usize));
        let i = choose|i: int| 0 <= i < before.len() && before[i] == j as usize;
        assert(after[i] == k);
    }
}

proof fn lemma_count_step(s: Seq<usize>, i: int, k: usize)
    requires
        0 <= i < s.len(),
    ensures
        count_of(s.take(i + 1), k) == count_of(s.take(i), k) + if s[i] == k {
            1nat
        } else {
            0nat
        },
{
    assert(s.take(i + 1).drop_last() =~= s.take(i));
}

proof fn lemma_count_bound(s: Seq<usize>, k: usize)
    ensures
        count_of(s, k) <= s.len(),
    decreases s.len(),
{
    if s.len() > 0 {
        lemma_count_bound(s.drop_last(), k);
    }
}

proof fn lemma_members_step(s: Seq<usize>, i: int, k: usize)
    requires
        0 <= i < s.len(),
    ensures
        members_of(s.take(i + 1), k) == members_of(s.take(i), k) + if s[i] == k {
            seq![i as usize]
        } else {
            Seq::<usize>::empty()
        },
{
    assert(s.take(i + 1).drop_last() =~= s.take(i));
}

/// Every position listed for `k` holds `k`, and the list ascends strictly.
pub proof fn lemma_members_of_props(s: Seq<usize>, k: usize)
    requires
        s.len() <= usize::MAX,
    ensures
        forall|t: int|
            0 <= t < members_of(s, k).len() ==> (#[trigger] members_of(s, k)[t]) < s.len() && s[members_of(s, k)[t] as int] == k,
        forall|a: int, b: int|
            0 <= a < b < members_of(s, k).len() ==> members_of(s, k)[a] < members_of(s, k)[b],
    decreases s.len(),
{
    if s.len() > 0 {
        lemma_members_of_props(s.drop_last(), k);
        let m0 = members_of(s.drop_last(), k);
        let m = members_of(s, k);
        assert forall|t: int| 0 <= t < m.len() implies (#[trigger] m[t]) < s.len() && s[m[t] as int]
            == k by {
            if t < m0.len() {
                assert(m[t] == m0[t]);
                assert(s.drop_last()[m0[t] as int] == k);
            } else {
                assert(m[t] == (s.len() - 1) as usize);
            }
        }
        assert forall|a: int, b: int| 0 <= a < b < m.len() implies m[a] < m[b] by {
            assert(m[a] == m0[a]);
            if b < m0.len() {
                assert(m[b] == m0[b]);
            } else {
                assert(m[b] == (s.len() - 1) as usize);
                assert(m0[a] < s.drop_last().len());
            }
        }
    }
}

/// Each position appears in the list of the id it holds.
pub proof fn lemma_members_of_complete(s: Seq<usize>, v: int)
    requires
        0 <= v < s.len(),
        s.len() <= usize::MAX,
    ensures
        members_of(s, s[v]).contains(v as usize),
    decreases s.len(),
{
    if v < s.len() - 1 {
        lemma_members_of_complete(s.drop_last(), v);
        assert(s.drop_last()[v] == s[v]);
        let m0 = members_of(s.drop_last(), s[v]);
        let t = choose|t: int| 0 <= t < m0.len() && m0[t] == v as usize;
        assert(members_of(s, s[v])[t] == v as usize);
    } else {
        let m = members_of(s, s[v]);
        assert(m[m.len() - 1] == v as usize);
    }
}

proof fn lemma_rank_bound(s: Seq<usize>, k: nat)
    ensures
        rank_of(s, k) <= k,
    decreases k,
{
    if k > 0 {
        lemma_rank_bound(s, (k - 1) as nat);
    }
}

proof fn lemma_rank_mono(s: Seq<usize>, a: nat, b: nat)
    requires
        a <= b,
    ensures
        rank_of(s, a) <= rank_of(s, b),
    decreases b,
{
    if a < b {
        lemma_rank_mono(s, a, (b - 1) as nat);
    }
}

proof fn lemma_rank_strict(s: Seq<usize>, k: usize, b: nat)
    requires
        is_used(s, k),
        k < b,
    ensures
        rank_of(s, k as nat) < rank_of(s, b),
{
    lemma_rank_mono(s, (k + 1) as nat, b);
}

proof fn lemma_rank_onto(s: Seq<usize>, r: nat, b: nat)
    requires
        r < rank_of(s, b),
        b <= usize::MAX + 1,
    ensures
        exists|k: usize| k < b && is_used(s, k) && rank_of(s, k as nat) == r,
    decreases b,
{
    if b > 0 {
        let k = (b - 1) as usize;
        if r < rank_of(s, (b - 1) as nat) {
            lemma_rank_onto(s, r, (b - 1) as nat);
        } else {
            assert(is_used(s, k) && rank_of(s, k as nat) == r);
        }
    }
}

} // verus!
