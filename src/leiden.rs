use vstd::prelude::*;

use crate::clustering::{count_of, is_compact, is_used, ClusterItem, Clustering};
use crate::errors::CoreError;

verus! {

/// `sizes[0]` copies of 0, then `sizes[1]` copies of 1, and so on.
pub open spec fn blocks(sizes: Seq<usize>) -> Seq<usize>
    decreases sizes.len(),
{
    if sizes.len() == 0 {
        Seq::empty()
    } else {
        blocks(sizes.drop_last()) + Seq::new(
            sizes.last() as nat,
            |j: int| (sizes.len() - 1) as usize,
        )
    }
}

proof fn lemma_blocks_step(sizes: Seq<usize>, k: int)
    requires
        0 <= k < sizes.len(),
    ensures
        blocks(sizes.take(k + 1)) == blocks(sizes.take(k)) + Seq::new(
            sizes[k] as nat,
            |j: int| k as usize,
        ),
{
    assert(sizes.take(k + 1).drop_last() =~= sizes.take(k));
}

/// The starting clustering of an aggregate network: the first `sizes[0]`
/// nodes in cluster 0, the next `sizes[1]` in cluster 1, and so on, with
/// one cluster id per entry of `sizes`.
pub fn initial_clustering_for_induced(
    num_nodes_per_cluster_induced_network: Vec<usize>,
    num_nodes: usize,
) -> (r: Clustering)
    ensures
        r@ == blocks(num_nodes_per_cluster_induced_network@),
        r.next_id() == num_nodes_per_cluster_induced_network@.len(),
        r.wf(),
        (forall|k: int|
            0 <= k < num_nodes_per_cluster_induced_network@.len() ==> (#[trigger] num_nodes_per_cluster_induced_network@[k])
                > 0) ==> is_compact(r@, num_nodes_per_cluster_induced_network@.len()),
{
    let sizes = Ghost(num_nodes_per_cluster_induced_network@);
    let mut clusters_induced_network: Vec<usize> = Vec::with_capacity(num_nodes);
    let mut k: usize = 0;
    while k < num_nodes_per_cluster_induced_network.len()
        invariant
            sizes@ == num_nodes_per_cluster_induced_network@,
            k <= sizes@.len(),
            clusters_induced_network@ == blocks(sizes@.take(k as int)),
            forall|i: int|
                0 <= i < clusters_induced_network@.len() ==> (#[trigger] clusters_induced_network@[i])
                    < k,
            (forall|t: int| 0 <= t < sizes@.len() ==> (#[trigger] sizes@[t]) > 0) ==> forall|j: usize|
                j < k ==> #[trigger] is_used(clusters_induced_network@, j),
        decreases sizes@.len() - k,
    {
        let repetitions: usize = num_nodes_per_cluster_induced_network[k];
        let before = Ghost(clusters_induced_network@);
        let mut j: usize = 0;
        while j < repetitions
            invariant
                j <= repetitions,
                k < sizes@.len(),
                clusters_induced_network@ == before@ + Seq::new(j as nat, |t: int| k),
                forall|i: int| 0 <= i < before@.len() ==> (#[trigger] before@[i]) < k,
            decreases repetitions - j,
        {
            clusters_induced_network.push(k);
            proof {
                assert(clusters_induced_network@ =~= before@ + Seq::new((j + 1) as nat, |t: int| k));
            }
            j += 1;
        }
        proof {
            lemma_blocks_step(sizes@, k as int);
            assert(Seq::new(repetitions as nat, |t: int| k) =~= Seq::new(
                sizes@[k as int] as nat,
                |t: int| k as usize,
            ));
            assert forall|i: int|
                0 <= i < clusters_induced_network@.len() implies (#[trigger] clusters_induced_network@[i])
                < k + 1 by {
                if i >= before@.len() {
                    assert(clusters_induced_network@[i] == k);
                }
            }
            if forall|t: int| 0 <= t < sizes@.len() ==> (#[trigger] sizes@[t]) > 0 {
                assert forall|j: usize| j < k + 1 implies #[trigger] is_used(
                    clusters_induced_network@,
                    j,
                ) by {
                    if j < k {
                        assert(is_used(before@, j));
                        let w = choose|w: int| 0 <= w < before@.len() && before@[w] == j;
                        assert(clusters_induced_network@[w] == j);
                    } else {
                        assert(sizes@[k as int] > 0);
                        assert(clusters_induced_network@[before@.len() as int] == k);
                    }
                }
            }
        }
        k += 1;
    }
    assert(sizes@.take(sizes@.len() as int) =~= sizes@);
    proof {
        if forall|t: int| 0 <= t < sizes@.len() ==> (#[trigger] sizes@[t]) > 0 {
            assert forall|j: usize| j < sizes@.len() implies #[trigger] is_used(
                clusters_induced_network@,
                j,
            ) by {}
        }
    }
    Clustering::as_defined(clusters_induced_network, num_nodes_per_cluster_induced_network.len())
}

/// Some neighbor in `nbrs` sits in cluster `c` of `s`.
pub open spec fn has_neighbor_in(s: Seq<usize>, nbrs: Seq<usize>, c: usize) -> bool {
    exists|j: int| 0 <= j < nbrs.len() && s[nbrs[j] as int] == c
}

/// Node `v` shares its cluster with another node but has no neighbor there.
pub open spec fn is_stranded(s: Seq<usize>, neighbors: Seq<Vec<usize>>, v: int) -> bool {
    count_of(s, s[v]) > 1 && !has_neighbor_in(s, neighbors[v]@, s[v])
}

/// The number of stranded nodes below `k`.
pub open spec fn stranded_below(s: Seq<usize>, neighbors: Seq<Vec<usize>>, k: nat) -> nat
    decreases k,
{
    if k == 0 {
        0
    } else {
        stranded_below(s, neighbors, (k - 1) as nat) + if is_stranded(s, neighbors, k - 1) {
            1nat
        } else {
            0nat
        }
    }
}

proof fn lemma_stranded_below_bound(s: Seq<usize>, neighbors: Seq<Vec<usize>>, k: nat)
    ensures
        stranded_below(s, neighbors, k) <= k,
    decreases k,
{
    if k > 0 {
        lemma_stranded_below_bound(s, neighbors, (k - 1) as nat);
    }
}

/// Makes a clustering fit for the Leiden phases, which expect every
/// cluster of two or more nodes to be connected: each node that shares its
/// cluster with others but has no neighbor in it moves to a fresh cluster of
/// its own. Fresh ids are handed out from `next_cluster_id` upward in
/// ascending node order. `neighbors[v]` lists the neighbors of node `v`.
pub fn guarantee_clustering_sanity(
    neighbors: &Vec<Vec<usize>>,
    clustering: &mut Clustering,
) -> (r: Result<(), CoreError>)
    requires
        old(clustering).wf(),
        old(clustering)@.len() == neighbors@.len(),
        forall|v: int, j: int|
            0 <= v < neighbors@.len() && 0 <= j < neighbors@[v]@.len() ==> (#[trigger] neighbors@[v]@[j])
                < neighbors@.len(),
        old(clustering).next_id() + neighbors@.len() <= usize::MAX,
    ensures
        r == Ok::<(), CoreError>(()),
        final(clustering).wf(),
        final(clustering)@.len() == old(clustering)@.len(),
        forall|v: int|
            0 <= v < old(clustering)@.len() ==> final(clustering)@[v] == if is_stranded(
                old(clustering)@,
                neighbors@,
                v,
            ) {
                old(clustering).next_id() + stranded_below(old(clustering)@, neighbors@, v as nat)
            } else {
                old(clustering)@[v] as nat
            },
        final(clustering).next_id() == old(clustering).next_id() + stranded_below(
            old(clustering)@,
            neighbors@,
            old(clustering)@.len(),
        ),
{
    let s = Ghost(clustering@);
    let next0 = Ghost(clustering.next_id());
    let n = clustering.num_nodes();
    let items: Vec<ClusterItem> = clustering.cluster_items();
    let counts: Vec<u64> = clustering.num_nodes_per_cluster();
    let mut v: usize = 0;
    while v < n
        invariant
            n == s@.len(),
            n == neighbors@.len(),
            items@.len() == n,
            forall|i: int| 0 <= i < n ==> (#[trigger] items@[i]).cluster == s@[i],
            counts@.len() == next0@,
            forall|k: int| 0 <= k < counts@.len() ==> counts@[k] == count_of(s@, k as usize),
            forall|w: int, j: int|
                0 <= w < neighbors@.len() && 0 <= j < neighbors@[w]@.len() ==> (#[trigger] neighbors@[w]@[j])
                    < neighbors@.len(),
            crate::clustering::ids_below(s@, next0@),
            next0@ + n <= usize::MAX,
            v <= n,
            clustering.wf(),
            clustering@.len() == n,
            clustering.next_id() == next0@ + stranded_below(s@, neighbors@, v as nat),
            forall|w: int|
                0 <= w < v ==> clustering@[w] == if is_stranded(s@, neighbors@, w) {
                    next0@ + stranded_below(s@, neighbors@, w as nat)
                } else {
                    s@[w] as nat
                },
            forall|w: int| v <= w < n ==> clustering@[w] == s@[w],
        decreases n - v,
    {
        let c = items[v].cluster;
        let mut stranded = false;
        if counts[c] > 1 {
            let nbrs = &neighbors[v];
            let mut found = false;
            let mut j: usize = 0;
            while j < nbrs.len()
                invariant
                    nbrs@ == neighbors@[v as int]@,
                    items@.len() == n,
                    n == neighbors@.len(),
                    v < n,
                    forall|i: int| 0 <= i < n ==> (#[trigger] items@[i]).cluster == s@[i],
                    forall|w: int, t: int|
                        0 <= w < neighbors@.len() && 0 <= t < neighbors@[w]@.len() ==> (#[trigger] neighbors@[w]@[t])
                            < neighbors@.len(),
                    j <= nbrs@.len(),
                    found <==> exists|t: int| 0 <= t < j && s@[nbrs@[t] as int] == c,
                decreases nbrs@.len() - j,
            {
                let u = nbrs[j];
                assert(u < n);
                if items[u].cluster == c {
                    found = true;
                }
                j += 1;
            }
            stranded = !found;
        }
        proof {
            lemma_stranded_below_bound(s@, neighbors@, v as nat);
            assert(c == s@[v as int]);
            assert(stranded == is_stranded(s@, neighbors@, v as int));
        }
        if stranded {
            let fresh = clustering.next_cluster_id();
            let _ = clustering.update_cluster_at(v, fresh);
        }
        v += 1;
    }
    Ok(())
}

} // verus!
