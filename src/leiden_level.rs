use vstd::prelude::*;

use crate::clustering::{
    all_distinct, ids_below, is_compact, lemma_members_of_complete, lemma_members_of_props,
    lemma_merge_keeps_compact, members_of, Clustering,
};
use crate::errors::CoreError;
use crate::leiden::{blocks, initial_clustering_for_induced};

verus! {

/// What a Leiden level asks of its caller next.
pub enum LeidenStep {
    /// Cluster the subnetwork of `cluster` and hand the result to
    /// `after_refinement`.
    Refine { cluster: usize },
    /// Improve the aggregate network from the clustering `initial` and hand
    /// the result to `after_aggregate`.
    Aggregate { initial: Clustering },
    /// The level is done; `improved` tells whether any node moved.
    Done { improved: bool },
}

/// Some node whose cluster has been refined holds the id `k` in `c`.
pub open spec fn refined_holds(snapshot: Seq<usize>, done: nat, c: Seq<usize>, k: usize) -> bool {
    exists|v: int| 0 <= v < c.len() && snapshot[v] < done && c[v] == k
}

/// The members of `ms` that `labels` does not list, in order.
pub open spec fn missing_from(ms: Seq<usize>, labels: Seq<usize>) -> Seq<usize>
    decreases ms.len(),
{
    if ms.len() == 0 {
        Seq::empty()
    } else {
        missing_from(ms.drop_last(), labels) + if labels.contains(ms.last()) {
            Seq::<usize>::empty()
        } else {
            seq![ms.last()]
        }
    }
}

proof fn lemma_missing_from(ms: Seq<usize>, labels: Seq<usize>)
    ensures
        forall|x: usize| #[trigger] missing_from(ms, labels).contains(x) <==> (ms.contains(x) && !labels.contains(x)),
        missing_from(ms, labels).len() <= ms.len(),
    decreases ms.len(),
{
    if ms.len() > 0 {
        lemma_missing_from(ms.drop_last(), labels);
        let prev = missing_from(ms.drop_last(), labels);
        let cur = missing_from(ms, labels);
        assert forall|x: usize| #[trigger] cur.contains(x) <==> (ms.contains(x) && !labels.contains(x)) by {
            if cur.contains(x) {
                let i = choose|i: int| 0 <= i < cur.len() && cur[i] == x;
                if i < prev.len() {
                    assert(prev[i] == x);
                    assert(prev.contains(x));
                    let j = choose|j: int| 0 <= j < ms.drop_last().len() && ms.drop_last()[j] == x;
                    assert(ms[j] == x);
                } else {
                    assert(ms[ms.len() - 1] == x);
                }
            }
            if ms.contains(x) && !labels.contains(x) {
                let j = choose|j: int| 0 <= j < ms.len() && ms[j] == x;
                if j < ms.len() - 1 {
                    assert(ms.drop_last()[j] == x);
                    assert(prev.contains(x));
                    let i = choose|i: int| 0 <= i < prev.len() && prev[i] == x;
                    assert(cur[i] == x);
                } else {
                    assert(cur[prev.len() as int] == x);
                }
            }
        }
    }
}

/// One level of the Leiden iteration after its local moves: the
/// refinement of each cluster and the aggregation. Refinement runs only
/// where the moves left fewer clusters than nodes. Each cluster's refined
/// subclusters get fresh ids from `next_cluster_id` upward; the members
/// that its subnetwork does not hold get a fresh id each after them. The
/// sizes collected give the aggregate's starting clustering, and the
/// aggregate's result relabels the level.
pub struct LeidenLevel {
    clustering: Clustering,
    moved: bool,
    refining: bool,
    snapshot: Ghost<Seq<usize>>,
    members: Vec<Vec<usize>>,
    next_cluster: usize,
    sizes: Vec<usize>,
    marks: Vec<bool>,
}

impl LeidenLevel {
    /// The clustering as the steps so far left it.
    pub closed spec fn clustering_spec(&self) -> Clustering {
        self.clustering
    }

    /// Whether the local moves changed anything.
    pub closed spec fn moved_spec(&self) -> bool {
        self.moved
    }

    /// Whether the level refines and aggregates.
    pub closed spec fn refining_spec(&self) -> bool {
        self.refining
    }

    /// The clustering that the local moves left.
    pub closed spec fn snapshot(&self) -> Seq<usize> {
        self.snapshot@
    }

    /// The number of clusters that the local moves left.
    pub closed spec fn num_subnetworks(&self) -> nat {
        self.members@.len()
    }

    /// The cluster refined next.
    pub closed spec fn next_cluster_spec(&self) -> nat {
        self.next_cluster as nat
    }

    /// The aggregate's cluster sizes collected so far.
    pub closed spec fn sizes_spec(&self) -> Seq<usize> {
        self.sizes@
    }

    pub closed spec fn wf(&self) -> bool {
        &&& self.refining ==> {
            &&& self.snapshot@.len() == self.clustering@.len()
            &&& ids_below(self.snapshot@, self.members@.len() as nat)
            &&& forall|k: int|
                0 <= k < self.members@.len() ==> (#[trigger] self.members@[k])@ == members_of(
                    self.snapshot@,
                    k as usize,
                )
            &&& self.next_cluster <= self.members@.len()
            &&& self.marks@.len() == self.clustering@.len()
            &&& forall|v: int| 0 <= v < self.marks@.len() ==> !(#[trigger] self.marks@[v])
            &&& forall|v: int|
                0 <= v < self.clustering@.len() ==> if (#[trigger] self.snapshot@[v])
                    < self.next_cluster {
                    self.clustering@[v] < self.clustering.next_id()
                } else {
                    self.clustering@[v] == self.snapshot@[v]
                }
            &&& forall|k: usize|
                k < self.clustering.next_id() ==> #[trigger] refined_holds(
                    self.snapshot@,
                    self.next_cluster as nat,
                    self.clustering@,
                    k,
                )
        }
        &&& !self.refining ==> self.clustering.wf()
    }

    /// Starts a level from the clustering that the local moves left over
    /// `num_nodes` nodes; `moved` tells whether they changed it. Refinement
    /// runs only where fewer clusters than nodes are left; it starts from
    /// `next_cluster_id` zero.
    pub fn new(clustering: Clustering, num_nodes: usize, moved: bool) -> (r: Self)
        requires
            clustering.wf(),
            clustering@.len() == num_nodes,
        ensures
            r.wf(),
            r.moved_spec() == moved,
            r.refining_spec() == (clustering.next_id() < num_nodes),
            r.snapshot() == clustering@,
            r.clustering_spec()@ == clustering@,
            r.refining_spec() ==> r.clustering_spec().next_id() == 0,
            !r.refining_spec() ==> r.clustering_spec() == clustering,
            r.num_subnetworks() == if r.refining_spec() {
                clustering.next_id()
            } else {
                0
            },
            r.next_cluster_spec() == 0,
            r.sizes_spec() == Seq::<usize>::empty(),
    {
        let ghost snapshot = clustering@;
        if clustering.next_cluster_id() < num_nodes {
            let members = clustering.nodes_per_cluster();
            let marks: Vec<bool> = vec![false; num_nodes];
            let mut clustering = clustering;
            clustering.reset_next_cluster_id();
            LeidenLevel {
                clustering,
                moved,
                refining: true,
                snapshot: Ghost(snapshot),
                members,
                next_cluster: 0,
                sizes: Vec::new(),
                marks,
            }
        } else {
            LeidenLevel {
                clustering,
                moved,
                refining: false,
                snapshot: Ghost(snapshot),
                members: Vec::new(),
                next_cluster: 0,
                sizes: Vec::new(),
                marks: Vec::new(),
            }
        }
    }

    /// The members of `cluster` after the local moves, ascending.
    pub fn members(&self, cluster: usize) -> (r: &Vec<usize>)
        requires
            self.wf(),
            self.refining_spec(),
            cluster < self.num_subnetworks(),
        ensures
            r@ == members_of(self.snapshot(), cluster),
    {
        &self.members[cluster]
    }

    /// The clustering as the steps so far left it.
    pub fn clustering(&self) -> (r: &Clustering)
        ensures
            *r == self.clustering_spec(),
    {
        &self.clustering
    }

    /// What to do next: refine the next cluster, aggregate once every
    /// cluster is refined, or stop where the level does not refine.
    pub fn next_step(&mut self) -> (r: LeidenStep)
        requires
            old(self).wf(),
        ensures
            final(self).wf(),
            final(self).clustering_spec() == old(self).clustering_spec(),
            final(self).refining_spec() == old(self).refining_spec(),
            final(self).moved_spec() == old(self).moved_spec(),
            final(self).snapshot() == old(self).snapshot(),
            final(self).num_subnetworks() == old(self).num_subnetworks(),
            final(self).next_cluster_spec() == old(self).next_cluster_spec(),
            !old(self).refining_spec() ==> r == (LeidenStep::Done { improved: old(self).moved_spec() }),
            old(self).refining_spec() && old(self).next_cluster_spec() < old(self).num_subnetworks()
                ==> r == (LeidenStep::Refine { cluster: old(self).next_cluster_spec() as usize })
                && final(self).sizes_spec() == old(self).sizes_spec(),
            old(self).refining_spec() && old(self).next_cluster_spec() == old(self).num_subnetworks()
                ==> (r matches LeidenStep::Aggregate { initial } && initial@ == blocks(
                old(self).sizes_spec(),
            ) && initial.next_id() == old(self).sizes_spec().len() && initial.wf())
                && final(self).sizes_spec() == Seq::<usize>::empty(),
    {
        if !self.refining {
            LeidenStep::Done { improved: self.moved }
        } else if self.next_cluster < self.members.len() {
            LeidenStep::Refine { cluster: self.next_cluster }
        } else {
            let mut sizes: Vec<usize> = Vec::new();
            std::mem::swap(&mut sizes, &mut self.sizes);
            let num_nodes = self.clustering.next_cluster_id();
            LeidenStep::Aggregate { initial: initial_clustering_for_induced(sizes, num_nodes) }
        }
    }

    /// Relabels the level through the aggregate's clustering `induced`,
    /// whose nodes are this level's clusters, and ends the level. Returns
    /// whether any node moved here or below; `UnsafeInducementError`, with
    /// nothing changed, where the level is not ready to aggregate or
    /// `induced` has another number of nodes than the level has clusters.
    pub fn after_aggregate(&mut self, improved_below: bool, induced: &Clustering) -> (r: Result<
        bool,
        CoreError,
    >)
        requires
            old(self).wf(),
            induced.wf(),
        ensures
            final(self).wf(),
            r is Ok <==> (old(self).refining_spec() && old(self).next_cluster_spec()
                == old(self).num_subnetworks() && induced@.len() == old(self).clustering_spec().next_id()),
            r is Ok ==> {
                &&& r == Ok::<bool, CoreError>(old(self).moved_spec() || improved_below)
                &&& is_compact(old(self).clustering_spec()@, induced@.len())
                &&& final(self).clustering_spec()@.len() == old(self).clustering_spec()@.len()
                &&& forall|i: int|
                    0 <= i < old(self).clustering_spec()@.len() ==> final(self).clustering_spec()@[i]
                        == induced@[old(self).clustering_spec()@[i] as int]
                &&& final(self).clustering_spec().next_id() == induced.next_id()
                &&& is_compact(induced@, induced.next_id()) ==> is_compact(
                    final(self).clustering_spec()@,
                    final(self).clustering_spec().next_id(),
                )
                &&& !final(self).refining_spec()
            },
            r is Err ==> {
                &&& r == Err::<bool, CoreError>(CoreError::UnsafeInducementError)
                &&& *final(self) == *old(self)
            },
    {
        if !self.refining || self.next_cluster != self.members.len()
            || induced.num_nodes() != self.clustering.next_cluster_id() {
            return Err(CoreError::UnsafeInducementError);
        }
        let ghost before = self.clustering@;
        let ghost snapshot = self.snapshot@;
        proof {
            let next = self.clustering.next_id();
            assert forall|i: int| 0 <= i < before.len() implies (#[trigger] before[i]) < next by {
                assert(snapshot[i] < self.members@.len());
            }
            assert forall|k: usize| k < next implies #[trigger] crate::clustering::is_used(before, k) by {
                assert(refined_holds(snapshot, self.next_cluster as nat, before, k));
            }
        }
        self.clustering.merge_clustering(induced);
        self.refining = false;
        proof {
            if is_compact(induced@, induced.next_id()) {
                lemma_merge_keeps_compact(before, induced@, induced.next_id(), self.clustering@);
            }
        }
        Ok(self.moved || improved_below)
    }

    /// Gives up the clustering.
    pub fn into_clustering(self) -> (r: Clustering)
        ensures
            r == self.clustering_spec(),
    {
        self.clustering
    }

    /// Whether a clustering of the subnetwork of the next cluster fits it:
    /// one label per subnetwork node, the clustering compact, the labels
    /// distinct members of the cluster, and the fresh ids within range.
    pub open spec fn refinement_fits(&self, labels: Seq<usize>, refined: Clustering) -> bool {
        let ms = members_of(self.snapshot(), self.next_cluster_spec() as usize);
        &&& self.refining_spec()
        &&& self.next_cluster_spec() < self.num_subnetworks()
        &&& labels.len() == refined@.len()
        &&& is_compact(refined@, refined.next_id())
        &&& all_distinct(labels)
        &&& forall|u: int| 0 <= u < labels.len() ==> ms.contains(#[trigger] labels[u])
        &&& self.clustering_spec().next_id() + ms.len() + refined.next_id() <= usize::MAX
    }

    /// Takes the clustering `refined` of the next cluster's subnetwork,
    /// whose node `u` is the node `labels[u]`: node `labels[u]` gets the id
    /// `next_cluster_id + refined[u]`, and each member that the subnetwork
    /// does not hold gets a fresh id after those, in ascending node order.
    /// A non-empty cluster adds the number of ids it got to the aggregate's
    /// sizes. `ClusterIndexingError`, with nothing changed, where `refined`
    /// does not fit the cluster.
    #[verifier::rlimit(60)]
    pub fn after_refinement(&mut self, labels: &Vec<usize>, refined: &Clustering) -> (r: Result<
        (),
        CoreError,
    >)
        requires
            old(self).wf(),
            refined.wf(),
        ensures
            final(self).wf(),
            final(self).refining_spec() == old(self).refining_spec(),
            final(self).moved_spec() == old(self).moved_spec(),
            final(self).snapshot() == old(self).snapshot(),
            final(self).num_subnetworks() == old(self).num_subnetworks(),
            r is Ok <==> old(self).refinement_fits(labels@, *refined),
            r is Ok ==> {
                let ms = members_of(old(self).snapshot(), old(self).next_cluster_spec() as usize);
                let left = missing_from(ms, labels@);
                let next0 = old(self).clustering_spec().next_id();
                &&& final(self).clustering_spec()@.len() == old(self).clustering_spec()@.len()
                &&& forall|u: int|
                    0 <= u < labels@.len() ==> final(self).clustering_spec()@[#[trigger] labels@[u] as int]
                        == next0 + refined@[u]
                &&& forall|i: int|
                    0 <= i < left.len() ==> final(self).clustering_spec()@[#[trigger] left[i] as int]
                        == next0 + refined.next_id() + i
                &&& forall|v: usize|
                    v < old(self).clustering_spec()@.len() && !ms.contains(v)
                        ==> final(self).clustering_spec()@[v as int]
                        == old(self).clustering_spec()@[v as int]
                &&& final(self).clustering_spec().next_id() == next0 + refined.next_id() + left.len()
                &&& final(self).sizes_spec() == if ms.len() > 0 {
                    old(self).sizes_spec().push((refined.next_id() + left.len()) as usize)
                } else {
                    old(self).sizes_spec()
                }
                &&& final(self).next_cluster_spec() == old(self).next_cluster_spec() + 1
            },
            r is Err ==> {
                &&& r == Err::<(), CoreError>(CoreError::ClusterIndexingError)
                &&& final(self).clustering_spec() == old(self).clustering_spec()
                &&& final(self).sizes_spec() == old(self).sizes_spec()
                &&& final(self).next_cluster_spec() == old(self).next_cluster_spec()
            },
    {
        if !self.refining || self.next_cluster >= self.members.len() {
            return Err(CoreError::ClusterIndexingError);
        }
        let c = self.next_cluster;
        let n = self.clustering.num_nodes();
        let next0 = self.clustering.next_cluster_id();
        let m_len = self.members[c].len();
        let ghost snapshot = self.snapshot@;
        let ghost ms = self.members@[c as int]@;
        let ghost old_c = self.clustering@;
        proof {
            lemma_members_of_props(snapshot, c);
        }
        if labels.len() != refined.num_nodes() || !refined.is_compacted() || next0 > usize::MAX
            - m_len || refined.next_cluster_id() > usize::MAX - next0 - m_len {
            return Err(CoreError::ClusterIndexingError);
        }
        let mut t: usize = 0;
        while t < m_len
            invariant
                self.refining == old(self).refining,
                self.moved == old(self).moved,
                self.clustering == old(self).clustering,
                self.sizes@ == old(self).sizes@,
                self.next_cluster == old(self).next_cluster,
                self.snapshot == old(self).snapshot,
                self.members@ == old(self).members@,
                self.refining,
                c < self.members@.len(),
                ms == self.members@[c as int]@,
                m_len == ms.len(),
                n == self.clustering@.len(),
                self.marks@.len() == n,
                forall|tt: int| 0 <= tt < ms.len() ==> (#[trigger] ms[tt]) < n && snapshot[ms[tt] as int] == c,
                t <= m_len,
                forall|v: int| 0 <= v < n ==> (#[trigger] self.marks@[v] <==> ms.take(t as int).contains(v as usize)),
            decreases m_len - t,
        {
            let m = self.members[c][t];
            self.marks.set(m, true);
            proof {
                assert forall|v: int| 0 <= v < n implies (#[trigger] self.marks@[v] <==> ms.take(t + 1).contains(
                    v as usize,
                )) by {
                    assert(ms.take(t + 1)[t as int] == m);
                    if ms.take(t as int).contains(v as usize) {
                        let i = choose|i: int| 0 <= i < t && ms.take(t as int)[i] == v as usize;
                        assert(ms.take(t + 1)[i] == v as usize);
                    }
                    if ms.take(t + 1).contains(v as usize) && v as usize != m {
                        let tk = ms.take(t + 1);
                            let i = choose|i: int| 0 <= i < tk.len() && tk[i] == v as usize;
                        assert(ms.take(t as int)[i] == v as usize);
                    }
                }
            }
            t += 1;
        }
        proof {
            assert(ms.take(m_len as int) =~= ms);
        }
        let mut u: usize = 0;
        let mut fits = true;
        while u < labels.len() && fits
            invariant
                self.refining == old(self).refining,
                self.moved == old(self).moved,
                self.clustering == old(self).clustering,
                self.sizes@ == old(self).sizes@,
                self.next_cluster == old(self).next_cluster,
                self.snapshot == old(self).snapshot,
                self.members@ == old(self).members@,
                self.refining,
                c < self.members@.len(),
                ms == self.members@[c as int]@,
                n == self.clustering@.len(),
                self.marks@.len() == n,
                forall|tt: int| 0 <= tt < ms.len() ==> (#[trigger] ms[tt]) < n && snapshot[ms[tt] as int] == c,
                u <= labels@.len(),
                fits ==> forall|v: int|
                    0 <= v < n ==> (#[trigger] self.marks@[v] <==> (ms.contains(v as usize)
                        && !labels@.take(u as int).contains(v as usize))),
                fits ==> all_distinct(labels@.take(u as int)),
                fits ==> forall|w: int| 0 <= w < u ==> ms.contains(#[trigger] labels@[w]),
                !fits ==> !(all_distinct(labels@) && forall|w: int|
                    0 <= w < labels@.len() ==> ms.contains(#[trigger] labels@[w])),
                forall|v: int| 0 <= v < n && (#[trigger] self.marks@[v]) ==> ms.contains(v as usize),
            decreases labels@.len() - u + if fits {
                1int
            } else {
                0int
            },
        {
            let l = labels[u];
            if l >= n || !self.marks[l] {
                proof {
                    if ms.contains(l) {
                        assert(l < n);
                        assert(labels@.take(u as int).contains(l));
                        let w = choose|w: int| 0 <= w < u && labels@.take(u as int)[w] == l;
                        assert(labels@[w] == labels@[u as int]);
                    }
                }
                fits = false;
            } else {
                self.marks.set(l, false);
                proof {
                    assert(labels@.take(u + 1)[u as int] == l);
                    assert forall|v: int| 0 <= v < n implies (#[trigger] self.marks@[v] <==> (ms.contains(
                        v as usize,
                    ) && !labels@.take(u + 1).contains(v as usize))) by {
                        if labels@.take(u as int).contains(v as usize) {
                            let i = choose|i: int| 0 <= i < u && labels@.take(u as int)[i] == v as usize;
                            assert(labels@.take(u + 1)[i] == v as usize);
                        }
                        if labels@.take(u + 1).contains(v as usize) && v as usize != l {
                            let tk = labels@.take(u + 1);
                            let i = choose|i: int| 0 <= i < tk.len() && tk[i] == v as usize;
                            assert(labels@.take(u as int)[i] == v as usize);
                        }
                    }
                    let lt = labels@.take(u + 1);
                    let lp = labels@.take(u as int);
                    assert forall|a: int, b: int|
                        0 <= a < lt.len() && 0 <= b < lt.len() && a != b implies lt[a] != lt[b] by {
                        if a == u {
                            assert(!lp.contains(l));
                            assert(lp[b] == lt[b]);
                        } else if b == u {
                            assert(!lp.contains(l));
                            assert(lp[a] == lt[a]);
                        } else {
                            assert(lp[a] == lt[a]);
                            assert(lp[b] == lt[b]);
                        }
                    }
                }
                u += 1;
            }
        }
        if !fits {
            let mut t: usize = 0;
            while t < m_len
                invariant
                    self.refining == old(self).refining,
                    self.moved == old(self).moved,
                    self.clustering == old(self).clustering,
                    self.sizes@ == old(self).sizes@,
                    self.next_cluster == old(self).next_cluster,
                    self.snapshot == old(self).snapshot,
                    self.members@ == old(self).members@,
                    c < self.members@.len(),
                    ms == self.members@[c as int]@,
                    m_len == ms.len(),
                    self.marks@.len() == n,
                    forall|tt: int| 0 <= tt < ms.len() ==> (#[trigger] ms[tt]) < n,
                    t <= m_len,
                    forall|v: int|
                        0 <= v < n && (#[trigger] self.marks@[v]) ==> ms.contains(v as usize) && !ms.take(
                            t as int,
                        ).contains(v as usize),
                decreases m_len - t,
            {
                let m = self.members[c][t];
                self.marks.set(m, false);
                proof {
                    assert forall|v: int| 0 <= v < n && (#[trigger] self.marks@[v]) implies ms.contains(
                        v as usize,
                    ) && !ms.take(t + 1).contains(v as usize) by {
                        if ms.take(t + 1).contains(v as usize) {
                            let tk = ms.take(t + 1);
                            let i = choose|i: int| 0 <= i < tk.len() && tk[i] == v as usize;
                            if i < t {
                                assert(ms.take(t as int)[i] == v as usize);
                            }
                        }
                    }
                }
                t += 1;
            }
            proof {
                assert forall|v: int| 0 <= v < n implies !(#[trigger] self.marks@[v]) by {
                    if self.marks@[v] {
                        let i = choose|i: int| 0 <= i < ms.len() && ms[i] == v as usize;
                        assert(ms.take(m_len as int)[i] == v as usize);
                    }
                }
            }
            return Err(CoreError::ClusterIndexingError);
        }
        proof {
            assert(labels@.take(labels@.len() as int) =~= labels@);
        }
        let mut left: Vec<usize> = Vec::new();
        let mut t: usize = 0;
        while t < m_len
            invariant
                self.refining == old(self).refining,
                self.moved == old(self).moved,
                self.clustering == old(self).clustering,
                self.sizes@ == old(self).sizes@,
                self.next_cluster == old(self).next_cluster,
                self.snapshot == old(self).snapshot,
                self.members@ == old(self).members@,
                c < self.members@.len(),
                ms == self.members@[c as int]@,
                m_len == ms.len(),
                self.marks@.len() == n,
                forall|tt: int| 0 <= tt < ms.len() ==> (#[trigger] ms[tt]) < n,
                forall|a: int, b: int| 0 <= a < b < ms.len() ==> ms[a] < ms[b],
                t <= m_len,
                left@ == missing_from(ms.take(t as int), labels@),
                forall|v: int|
                    0 <= v < n ==> (#[trigger] self.marks@[v] <==> (ms.contains(v as usize)
                        && !labels@.contains(v as usize) && !ms.take(t as int).contains(v as usize))),
            decreases m_len - t,
        {
            let m = self.members[c][t];
            proof {
                assert(ms.take(t + 1).drop_last() =~= ms.take(t as int));
                assert(ms.take(t + 1).last() == m);
                assert(!ms.take(t as int).contains(m)) by {
                    if ms.take(t as int).contains(m) {
                        let i = choose|i: int| 0 <= i < t && ms.take(t as int)[i] == m;
                        assert(ms[i] < ms[t as int]);
                    }
                }
                assert(ms.contains(m)) by {
                    assert(ms[t as int] == m);
                }
            }
            if self.marks[m] {
                left.push(m);
                self.marks.set(m, false);
            }
            proof {
                assert forall|v: int| 0 <= v < n implies (#[trigger] self.marks@[v] <==> (ms.contains(
                    v as usize,
                ) && !labels@.contains(v as usize) && !ms.take(t + 1).contains(v as usize))) by {
                    if ms.take(t as int).contains(v as usize) {
                        let i = choose|i: int| 0 <= i < t && ms.take(t as int)[i] == v as usize;
                        assert(ms.take(t + 1)[i] == v as usize);
                    }
                    if ms.take(t + 1).contains(v as usize) && v as usize != m {
                        let tk = ms.take(t + 1);
                            let i = choose|i: int| 0 <= i < tk.len() && tk[i] == v as usize;
                        assert(ms.take(t as int)[i] == v as usize);
                    }
                    if v as usize == m {
                        assert(ms.take(t + 1)[t as int] == m);
                    }
                }
            }
            t += 1;
        }
        proof {
            assert(ms.take(m_len as int) =~= ms);
            lemma_missing_from(ms, labels@);
        }
        let ghost left_s = left@;
        proof {
            // the leftovers are distinct
            lemma_missing_from_distinct(ms, labels@);
        }
        self.clustering.merge_subnetwork_clustering(labels, refined);
        let ghost mid = self.clustering@;
        let singles = Clustering::as_self_clusters(left.len());
        self.clustering.merge_subnetwork_clustering(&left, &singles);
        if m_len > 0 {
            self.sizes.push(refined.next_cluster_id() + left.len());
        }
        self.next_cluster = c + 1;
        proof {
            let fin = self.clustering@;
            let next1 = self.clustering.next_id();
            assert(next1 == next0 + refined.next_id() + left_s.len());
            assert forall|i: int| 0 <= i < left_s.len() implies fin[#[trigger] left_s[i] as int]
                == next0 + refined.next_id() + i by {
                assert(singles@[i] == i);
            }
            assert forall|v: usize| v < n && !ms.contains(v) implies fin[v as int] == old_c[v as int] by {
                assert(!labels@.contains(v)) by {
                    if labels@.contains(v) {
                        let x = choose|x: int| 0 <= x < labels@.len() && labels@[x] == v;
                        assert(ms.contains(labels@[x]));
                    }
                }
                assert(!left_s.contains(v));
            }
            assert(self.sizes@ == if ms.len() > 0 {
                old(self).sizes@.push((refined.next_id() + left_s.len()) as usize)
            } else {
                old(self).sizes@
            });
            assert(self.next_cluster <= self.members@.len());
            assert(self.members@ == old(self).members@);
            assert(self.marks@.len() == fin.len());
            assert forall|v: int| 0 <= v < n implies !(#[trigger] self.marks@[v]) by {
                if self.marks@[v] {
                    assert(ms.take(m_len as int) =~= ms);
                }
            }
            assert forall|u: int| 0 <= u < labels@.len() implies fin[#[trigger] labels@[u] as int] == next0
                + refined@[u] by {
                assert(!left_s.contains(labels@[u])) by {
                    lemma_missing_from(ms, labels@);
                    assert(labels@.contains(labels@[u]));
                }
            }
            assert forall|v: int|
                0 <= v < n implies if (#[trigger] snapshot[v]) < c + 1 {
                fin[v] < next1
            } else {
                fin[v] == snapshot[v]
            } by {
                let vu = v as usize;
                if snapshot[v] == c {
                    lemma_members_of_complete(snapshot, v);
                    if labels@.contains(vu) {
                        let w = choose|w: int| 0 <= w < labels@.len() && labels@[w] == vu;
                        assert(fin[labels@[w] as int] == next0 + refined@[w]);
                        assert(refined@[w] < refined.next_id());
                    } else {
                        assert(left_s.contains(vu));
                        let i = choose|i: int| 0 <= i < left_s.len() && left_s[i] == vu;
                        assert(fin[left_s[i] as int] == next0 + refined.next_id() + i);
                    }
                } else {
                    assert(!ms.contains(vu)) by {
                        if ms.contains(vu) {
                            let i = choose|i: int| 0 <= i < ms.len() && ms[i] == vu;
                            assert(snapshot[ms[i] as int] == c);
                        }
                    }
                    assert(!labels@.contains(vu)) by {
                        if labels@.contains(vu) {
                            let w = choose|w: int| 0 <= w < labels@.len() && labels@[w] == vu;
                            assert(ms.contains(labels@[w]));
                        }
                    }
                    assert(!left_s.contains(vu));
                    assert(mid[v] == old_c[v]);
                    assert(fin[v] == mid[v]);
                }
            }
            assert(self.next_cluster as nat == (c + 1) as nat);
            assert forall|k: usize| k < next1 implies #[trigger] refined_holds(
                self.snapshot@,
                self.next_cluster as nat,
                self.clustering@,
                k,
            ) by {
                if k < next0 {
                    assert(refined_holds(snapshot, c as nat, old_c, k));
                    let w = choose|w: int| 0 <= w < old_c.len() && snapshot[w] < c && old_c[w] == k;
                    let wu = w as usize;
                    assert(!ms.contains(wu)) by {
                        if ms.contains(wu) {
                            let i = choose|i: int| 0 <= i < ms.len() && ms[i] == wu;
                            assert(snapshot[ms[i] as int] == c);
                        }
                    }
                    assert(!labels@.contains(wu)) by {
                        if labels@.contains(wu) {
                            let x = choose|x: int| 0 <= x < labels@.len() && labels@[x] == wu;
                            assert(ms.contains(labels@[x]));
                        }
                    }
                    assert(!left_s.contains(wu));
                    assert(fin[w] == k);
                } else if k < next0 + refined.next_id() {
                    let kk = (k - next0) as usize;
                    assert(crate::clustering::is_used(refined@, kk));
                    let w = choose|w: int| 0 <= w < refined@.len() && refined@[w] == kk;
                    let x = labels@[w];
                    assert(ms.contains(x));
                    let i = choose|i: int| 0 <= i < ms.len() && ms[i] == x;
                    assert(snapshot[ms[i] as int] == c);
                    assert(fin[x as int] == k);
                } else {
                    let i = k - next0 - refined.next_id();
                    assert(left_s.contains(left_s[i]));
                    assert(ms.contains(left_s[i]));
                    let j = choose|j: int| 0 <= j < ms.len() && ms[j] == left_s[i];
                    assert(snapshot[ms[j] as int] == c);
                    assert(fin[left_s[i] as int] == k);
                }
            }
        }
        Ok(())
    }
}

proof fn lemma_missing_from_distinct(ms: Seq<usize>, labels: Seq<usize>)
    requires
        forall|a: int, b: int| 0 <= a < b < ms.len() ==> ms[a] < ms[b],
    ensures
        all_distinct(missing_from(ms, labels)),
        forall|i: int|
            0 <= i < missing_from(ms, labels).len() ==> ms.contains(#[trigger] missing_from(ms, labels)[i]),
    decreases ms.len(),
{
    if ms.len() > 0 {
        let p = ms.drop_last();
        lemma_missing_from_distinct(p, labels);
        let prev = missing_from(p, labels);
        let cur = missing_from(ms, labels);
        assert forall|i: int| 0 <= i < cur.len() implies ms.contains(#[trigger] cur[i]) by {
            if i < prev.len() {
                assert(cur[i] == prev[i]);
                assert(p.contains(prev[i]));
                let j = choose|j: int| 0 <= j < p.len() && p[j] == prev[i];
                assert(ms[j] == prev[i]);
            } else {
                assert(ms[ms.len() - 1] == cur[i]);
            }
        }
        assert forall|a: int, b: int| 0 <= a < cur.len() && 0 <= b < cur.len() && a != b implies cur[a]
            != cur[b] by {
            if a < prev.len() && b < prev.len() {
                assert(cur[a] == prev[a] && cur[b] == prev[b]);
            } else if a < prev.len() {
                assert(p.contains(prev[a]));
                let j = choose|j: int| 0 <= j < p.len() && p[j] == prev[a];
                assert(ms[j] < ms[ms.len() - 1]);
                assert(cur[a] == prev[a]);
            } else if b < prev.len() {
                assert(p.contains(prev[b]));
                let j = choose|j: int| 0 <= j < p.len() && p[j] == prev[b];
                assert(ms[j] < ms[ms.len() - 1]);
                assert(cur[b] == prev[b]);
            }
        }
    }
}

} // verus!
