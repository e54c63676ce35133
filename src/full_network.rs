use vstd::prelude::*;

use crate::clustering::Clustering;
use crate::errors::CoreError;
use crate::work_queue::{after_pushes, FullNetworkWorkQueue};

verus! {

/// The ids in `[lo, hi)` whose count in `counts` is zero, highest first.
pub open spec fn empty_ids(counts: Seq<usize>, lo: int, hi: int) -> Seq<usize>
    decreases hi - lo,
{
    if hi <= lo {
        Seq::empty()
    } else {
        (if counts[hi - 1] == 0 {
            seq![(hi - 1) as usize]
        } else {
            Seq::<usize>::empty()
        }) + empty_ids(counts, lo, hi - 1)
    }
}

proof fn lemma_empty_ids_extend_down(counts: Seq<usize>, lo: int, hi: int)
    requires
        lo <= hi,
    ensures
        empty_ids(counts, lo - 1, hi) == empty_ids(counts, lo, hi) + if counts[lo - 1] == 0 {
            seq![(lo - 1) as usize]
        } else {
            Seq::<usize>::empty()
        },
    decreases hi - lo,
{
    if lo == hi {
        assert(empty_ids(counts, lo, hi) =~= Seq::<usize>::empty());
        assert(empty_ids(counts, lo - 1, hi - 1) =~= Seq::<usize>::empty());
        let tail = if counts[lo - 1] == 0 {
            seq![(lo - 1) as usize]
        } else {
            Seq::<usize>::empty()
        };
        assert(tail + Seq::<usize>::empty() =~= Seq::<usize>::empty() + tail);
    } else if lo < hi - 1 {
        lemma_empty_ids_extend_down(counts, lo, hi - 1);
        let head = if counts[hi - 1] == 0 {
            seq![(hi - 1) as usize]
        } else {
            Seq::<usize>::empty()
        };
        let tail = if counts[lo - 1] == 0 {
            seq![(lo - 1) as usize]
        } else {
            Seq::<usize>::empty()
        };
        assert(head + (empty_ids(counts, lo, hi - 1) + tail) =~= (head + empty_ids(
            counts,
            lo,
            hi - 1,
        )) + tail);
    } else {
        assert(empty_ids(counts, lo, hi - 1) =~= Seq::<usize>::empty());
        assert(empty_ids(counts, lo - 1, hi - 1) == (if counts[lo - 1] == 0 {
            seq![(lo - 1) as usize]
        } else {
            Seq::<usize>::empty()
        }) + empty_ids(counts, lo - 1, lo - 1));
        assert(empty_ids(counts, lo - 1, lo - 1) =~= Seq::<usize>::empty());
    }
}

proof fn lemma_empty_ids_bound(counts: Seq<usize>, lo: int, hi: int, c: int)
    requires
        lo <= hi,
    ensures
        empty_ids(counts, lo, hi).len() <= hi - lo,
        lo <= c < hi && counts[c] != 0 ==> empty_ids(counts, lo, hi).len() <= hi - lo - 1,
    decreases hi - lo,
{
    if lo < hi {
        lemma_empty_ids_bound(counts, lo, hi - 1, c);
    }
}

/// The stack of empty cluster ids for the local-moving phase over
/// `num_nodes` nodes: a vector of `num_nodes - 1` slots whose first entries
/// are the ids below `num_nodes` that hold no node, highest first, and the
/// number of them. The other slots hold 0.
pub fn unused_clusters(num_nodes: usize, num_nodes_per_cluster: &Vec<usize>) -> (r: (
    Vec<usize>,
    usize,
))
    requires
        num_nodes >= 1,
        num_nodes_per_cluster@.len() >= num_nodes,
        exists|c: int| 0 <= c < num_nodes && num_nodes_per_cluster@[c] != 0,
    ensures
        r.0@.len() == num_nodes - 1,
        r.1 == empty_ids(num_nodes_per_cluster@, 0, num_nodes as int).len(),
        r.0@.take(r.1 as int) == empty_ids(num_nodes_per_cluster@, 0, num_nodes as int),
        forall|t: int| r.1 <= t < r.0@.len() ==> r.0@[t] == 0,
{
    let ghost counts = num_nodes_per_cluster@;
    let ghost c = choose|c: int| 0 <= c < num_nodes && counts[c] != 0;
    let size: usize = num_nodes - 1;
    let mut unused_clusters: Vec<usize> = vec![0; size];
    let mut num_unused_clusters: usize = 0;
    let mut k: usize = num_nodes;
    proof {
        assert(empty_ids(counts, num_nodes as int, num_nodes as int) =~= Seq::<usize>::empty());
    }
    while k > 0
        invariant
            counts == num_nodes_per_cluster@,
            counts.len() >= num_nodes,
            0 <= c < num_nodes && counts[c] != 0,
            k <= num_nodes,
            unused_clusters@.len() == size,
            size == num_nodes - 1,
            num_unused_clusters == empty_ids(counts, k as int, num_nodes as int).len(),
            num_unused_clusters <= size,
            unused_clusters@.take(num_unused_clusters as int) == empty_ids(
                counts,
                k as int,
                num_nodes as int,
            ),
            forall|t: int| num_unused_clusters <= t < size ==> unused_clusters@[t] == 0,
        decreases k,
    {
        let i = k - 1;
        proof {
            lemma_empty_ids_extend_down(counts, k as int, num_nodes as int);
            lemma_empty_ids_bound(counts, k as int, num_nodes as int, c);
        }
        if num_nodes_per_cluster[i] == 0 {
            let ghost before = unused_clusters@;
            assert(num_unused_clusters < size);
            unused_clusters.set(num_unused_clusters, i);
            proof {
                assert(unused_clusters@.take(num_unused_clusters + 1) =~= before.take(
                    num_unused_clusters as int,
                ).push(i));
            }
            num_unused_clusters += 1;
        } else {
            proof {
                assert(empty_ids(counts, i as int, num_nodes as int) =~= empty_ids(
                    counts,
                    k as int,
                    num_nodes as int,
                ));
            }
        }
        k -= 1;
    }
    (unused_clusters, num_unused_clusters)
}

/// The entries of `nbrs` whose cluster in `c` is not `best`, in order.
pub open spec fn changed_neighbors(nbrs: Seq<usize>, c: Seq<usize>, best: usize) -> Seq<usize>
    decreases nbrs.len(),
{
    if nbrs.len() == 0 {
        Seq::empty()
    } else {
        changed_neighbors(nbrs.drop_last(), c, best) + if c[nbrs.last() as int] != best {
            seq![nbrs.last()]
        } else {
            Seq::<usize>::empty()
        }
    }
}

/// After a node moves to `best_cluster`, asks for another look at each of
/// its neighbors, listed in `neighbors`, that sits in another cluster;
/// `ClusterIndexingError` where a neighbor has no cluster.
pub fn trigger_cluster_change(
    neighbors: &Vec<usize>,
    clustering: &Clustering,
    work_queue: &mut FullNetworkWorkQueue,
    best_cluster: usize,
) -> (r: Result<(), CoreError>)
    requires
        old(work_queue).wf(),
    ensures
        final(work_queue).wf(),
        (forall|j: int| 0 <= j < neighbors@.len() ==> (#[trigger] neighbors@[j]) < clustering@.len())
            ==> {
            &&& r == Ok::<(), CoreError>(())
            &&& (final(work_queue).queue(), final(work_queue).stability()) == after_pushes(
                old(work_queue).queue(),
                old(work_queue).stability(),
                changed_neighbors(neighbors@, clustering@, best_cluster),
            )
        },
        !(forall|j: int| 0 <= j < neighbors@.len() ==> (#[trigger] neighbors@[j]) < clustering@.len())
            ==> r == Err::<(), CoreError>(CoreError::ClusterIndexingError),
{
    let ghost q0 = work_queue.queue();
    let ghost st0 = work_queue.stability();
    let n = clustering.num_nodes();
    let mut j: usize = 0;
    while j < neighbors.len()
        invariant
            n == clustering@.len(),
            work_queue.wf(),
            j <= neighbors@.len(),
            forall|t: int| 0 <= t < j ==> (#[trigger] neighbors@[t]) < n,
            (work_queue.queue(), work_queue.stability()) == after_pushes(
                q0,
                st0,
                changed_neighbors(neighbors@.take(j as int), clustering@, best_cluster),
            ),
        decreases neighbors@.len() - j,
    {
        let neighbor = neighbors[j];
        let cluster = match clustering.cluster_at(neighbor) {
            Ok(cluster) => cluster,
            Err(e) => {
                return Err(e);
            },
        };
        let ghost done = changed_neighbors(neighbors@.take(j as int), clustering@, best_cluster);
        proof {
            assert(neighbors@.take(j + 1).drop_last() =~= neighbors@.take(j as int));
            assert(neighbors@.take(j + 1).last() == neighbor);
        }
        if cluster != best_cluster {
            work_queue.push_back(neighbor);
            proof {
                assert(changed_neighbors(neighbors@.take(j + 1), clustering@, best_cluster) =~= done.push(
                    neighbor,
                ));
                assert(done.push(neighbor).drop_last() =~= done);
            }
        } else {
            proof {
                assert(changed_neighbors(neighbors@.take(j + 1), clustering@, best_cluster) =~= done);
            }
        }
        j += 1;
    }
    proof {
        assert(neighbors@.take(j as int) =~= neighbors@);
    }
    Ok(())
}

/// Takes a node out of `cluster` in the node counts of the local-moving
/// phase; a cluster left empty goes on top of the stack of unused ids.
/// Returns the stack's new height.
pub fn leave_cluster_count(
    cluster: usize,
    num_nodes_per_cluster: &mut Vec<usize>,
    unused_clusters: &mut Vec<usize>,
    num_unused_clusters: usize,
) -> (r: usize)
    requires
        cluster < old(num_nodes_per_cluster)@.len(),
        old(num_nodes_per_cluster)@[cluster as int] > 0,
        old(num_nodes_per_cluster)@[cluster as int] == 1 ==> num_unused_clusters < old(
            unused_clusters,
        )@.len(),
    ensures
        final(num_nodes_per_cluster)@ == old(num_nodes_per_cluster)@.update(
            cluster as int,
            (old(num_nodes_per_cluster)@[cluster as int] - 1) as usize,
        ),
        old(num_nodes_per_cluster)@[cluster as int] == 1 ==> {
            &&& final(unused_clusters)@ == old(unused_clusters)@.update(num_unused_clusters as int, cluster)
            &&& r == num_unused_clusters + 1
        },
        old(num_nodes_per_cluster)@[cluster as int] > 1 ==> {
            &&& final(unused_clusters)@ == old(unused_clusters)@
            &&& r == num_unused_clusters
        },
{
    // the length of an executable vector bounds the stack height
    let _stack_size = unused_clusters.len();
    let count = num_nodes_per_cluster[cluster] - 1;
    num_nodes_per_cluster.set(cluster, count);
    if count == 0 {
        unused_clusters.set(num_unused_clusters, cluster);
        num_unused_clusters + 1
    } else {
        num_unused_clusters
    }
}

/// Puts a node into `cluster` in the node counts of the local-moving phase;
/// where `cluster` is the top of the stack of unused ids, it leaves the
/// stack.
pub fn join_cluster_count(
    cluster: usize,
    num_nodes_per_cluster: &mut Vec<usize>,
    num_unused_clusters: &mut usize,
    last_unused_cluster: usize,
)
    requires
        cluster < old(num_nodes_per_cluster)@.len(),
        old(num_nodes_per_cluster)@[cluster as int] < usize::MAX,
        cluster == last_unused_cluster ==> *old(num_unused_clusters) > 0,
    ensures
        final(num_nodes_per_cluster)@ == old(num_nodes_per_cluster)@.update(
            cluster as int,
            (old(num_nodes_per_cluster)@[cluster as int] + 1) as usize,
        ),
        *final(num_unused_clusters) == if cluster == last_unused_cluster {
            *old(num_unused_clusters) - 1
        } else {
            *old(num_unused_clusters) as int
        },
{
    let count = num_nodes_per_cluster[cluster] + 1;
    num_nodes_per_cluster.set(cluster, count);
    if cluster == last_unused_cluster {
        *num_unused_clusters = *num_unused_clusters - 1;
    }
}

} // verus!
