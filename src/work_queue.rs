use vstd::prelude::*;

use std::collections::VecDeque;

use rand_xorshift::XorShiftRng;

use crate::clustering::all_distinct;
use crate::errors::CoreError;
use crate::random_vector::{draws_fit, is_permutation, order_after_draws, random_permutation};

verus! {

/// The queue and flags after `push_back(item)` on the queue `q` with flags `st`.
pub open spec fn after_push(q: Seq<usize>, st: Seq<bool>, item: usize) -> (Seq<usize>, Seq<bool>) {
    let flags = if item < st.len() {
        st
    } else {
        st + Seq::new((item + 1 - st.len()) as nat, |i: int| true)
    };
    if flags[item as int] {
        (q.push(item), flags.update(item as int, false))
    } else {
        (q, flags)
    }
}

/// The queue and flags after pushing each of `items` in turn.
pub open spec fn after_pushes(q: Seq<usize>, st: Seq<bool>, items: Seq<usize>) -> (Seq<usize>, Seq<bool>)
    decreases items.len(),
{
    if items.len() == 0 {
        (q, st)
    } else {
        let before = after_pushes(q, st, items.drop_last());
        after_push(before.0, before.1, items.last())
    }
}

/// The work queue of the local-moving phase: a FIFO of node ids and a
/// stability flag per node. A node is on the queue exactly when it is not
/// stable; popping a node marks it stable, and pushing one that is stable
/// marks it unstable and enqueues it.
#[derive(Debug, PartialEq)]
pub struct FullNetworkWorkQueue {
    work_queue: VecDeque<usize>,
    stable: Vec<bool>,
}

impl FullNetworkWorkQueue {
    /// The node ids waiting, front first.
    pub closed spec fn queue(&self) -> Seq<usize> {
        self.work_queue@
    }

    /// The stability flag of each node.
    pub closed spec fn stability(&self) -> Seq<bool> {
        self.stable@
    }

    /// The queue holds each unstable node once and nothing else.
    pub open spec fn wf(&self) -> bool {
        &&& all_distinct(self.queue())
        &&& forall|i: int| 0 <= i < self.queue().len() ==> (#[trigger] self.queue()[i]) < self.stability().len()
        &&& forall|v: int|
            0 <= v < self.stability().len() ==> (!(#[trigger] self.stability()[v]) <==> self.queue().contains(
                v as usize,
            ))
    }

    /// An empty queue over no nodes.
    pub fn new() -> (r: FullNetworkWorkQueue)
        ensures
            r.wf(),
            r.queue() == Seq::<usize>::empty(),
            r.stability() == Seq::<bool>::empty(),
    {
        FullNetworkWorkQueue { work_queue: VecDeque::new(), stable: Vec::new() }
    }

    /// A queue holding every node of `0..len` once, in a random order drawn
    /// from `rng`, with every node unstable.
    pub fn items_in_random_order(len: usize, rng: &mut XorShiftRng) -> (r: FullNetworkWorkQueue)
        ensures
            r.wf(),
            r.queue().len() == len,
            is_permutation(r.queue()),
            exists|draws: Seq<usize>|
                draws_fit(len as nat, draws) && r.queue() == order_after_draws(len as nat, draws, len as nat),
            r.stability() == Seq::new(len as nat, |i: int| false),
    {
        let permutation: Vec<usize> = random_permutation(len, rng);
        let mut work_queue: VecDeque<usize> = VecDeque::with_capacity(len);
        let mut stable: Vec<bool> = Vec::with_capacity(len);
        let mut i: usize = 0;
        while i < len
            invariant
                i <= len,
                permutation@.len() == len,
                work_queue@ == permutation@.take(i as int),
                stable@ == Seq::new(i as nat, |j: int| false),
            decreases len - i,
        {
            work_queue.push_back(permutation[i]);
            stable.push(false);
            proof {
                assert(work_queue@ =~= permutation@.take(i + 1));
                assert(stable@ =~= Seq::new((i + 1) as nat, |j: int| false));
            }
            i += 1;
        }
        proof {
            assert(work_queue@ =~= permutation@);
        }
        FullNetworkWorkQueue { work_queue, stable }
    }

    /// Takes the front node off the queue and marks it stable;
    /// `QueueError`, with nothing changed, on an empty queue.
    pub fn pop_front(&mut self) -> (r: Result<usize, CoreError>)
        requires
            old(self).wf(),
        ensures
            final(self).wf(),
            old(self).queue().len() == 0 ==> {
                &&& r == Err::<usize, CoreError>(CoreError::QueueError)
                &&& final(self).queue() == old(self).queue()
                &&& final(self).stability() == old(self).stability()
            },
            old(self).queue().len() > 0 ==> {
                &&& r == Ok::<usize, CoreError>(old(self).queue()[0])
                &&& final(self).queue() == old(self).queue().drop_first()
                &&& final(self).stability() == old(self).stability().update(
                    old(self).queue()[0] as int,
                    true,
                )
            },
    {
        match self.work_queue.pop_front() {
            Some(front) => {
                // the length of an executable vector bounds the node ids
                let _num_flags = self.stable.len();
                let ghost q = old(self).queue();
                proof {
                    assert(q[0] == front);
                    assert(self.queue() =~= q.drop_first());
                }
                self.stable.set(front, true);
                proof {
                    let nq = self.queue();
                    assert forall|a: int, b: int|
                        0 <= a < nq.len() && 0 <= b < nq.len() && a != b implies nq[a] != nq[b] by {
                        assert(nq[a] == q[a + 1]);
                        assert(nq[b] == q[b + 1]);
                    }
                    assert forall|i: int| 0 <= i < nq.len() implies (#[trigger] nq[i]) < self.stability().len() by {
                        assert(nq[i] == q[i + 1]);
                    }
                    assert forall|v: int|
                        0 <= v < self.stability().len() implies (!(#[trigger] self.stability()[v])
                        <==> self.queue().contains(v as usize)) by {
                        if v == front {
                            if self.queue().contains(v as usize) {
                                let j = choose|j: int| 0 <= j < self.queue().len() && self.queue()[j] == v as usize;
                                assert(q[j + 1] == q[0]);
                            }
                        } else {
                            if q.contains(v as usize) {
                                let j = choose|j: int| 0 <= j < q.len() && q[j] == v as usize;
                                assert(j != 0);
                                assert(self.queue()[j - 1] == v as usize);
                            }
                            if self.queue().contains(v as usize) {
                                let j = choose|j: int| 0 <= j < self.queue().len() && self.queue()[j] == v as usize;
                                assert(q[j + 1] == v as usize);
                            }
                        }
                    }
                }
                Ok(front)
            },
            None => {
                assert(self.stability() == old(self).stability());
                Err(CoreError::QueueError)
            },
        }
    }

    /// Enqueues `item` where it is stable, marking it unstable, and tells
    /// whether it did; an item past the known nodes first extends the flags
    /// with stable nodes up to it.
    pub fn push_back(&mut self, item: usize) -> (r: bool)
        requires
            old(self).wf(),
            item < usize::MAX,
        ensures
            final(self).wf(),
            r == !(item < old(self).stability().len() && !old(self).stability()[item as int]),
            final(self).stability().len() == if item < old(self).stability().len() {
                old(self).stability().len() as int
            } else {
                item + 1
            },
            forall|v: int|
                0 <= v < final(self).stability().len() && v != item ==> final(self).stability()[v]
                    == if v < old(self).stability().len() {
                    old(self).stability()[v]
                } else {
                    true
                },
            !final(self).stability()[item as int],
            item < old(self).stability().len() && !old(self).stability()[item as int]
                ==> final(self).queue() == old(self).queue(),
            !(item < old(self).stability().len() && !old(self).stability()[item as int])
                ==> final(self).queue() == old(self).queue().push(item),
            (final(self).queue(), final(self).stability()) == after_push(
                old(self).queue(),
                old(self).stability(),
                item,
            ),
    {
        let ghost q = self.queue();
        let ghost st = self.stability();
        if self.stable.len() <= item {
            let mut k: usize = self.stable.len();
            while k <= item
                invariant
                    item < usize::MAX,
                    st.len() <= k <= item + 1,
                    self.stable@.len() == k,
                    self.work_queue@ == q,
                    forall|v: int| 0 <= v < st.len() ==> self.stable@[v] == st[v],
                    forall|v: int| st.len() <= v < k ==> self.stable@[v],
                decreases item + 1 - k,
            {
                self.stable.push(true);
                k += 1;
            }
        }
        let ghost st2 = self.stability();
        proof {
            assert forall|v: int|
                0 <= v < st2.len() implies (!(#[trigger] st2[v]) <==> q.contains(v as usize)) by {
                if v < st.len() {
                    assert(st2[v] == st[v]);
                }
                if v >= st.len() && q.contains(v as usize) {
                    let j = choose|j: int| 0 <= j < q.len() && q[j] == v as usize;
                    assert(q[j] < st.len());
                }
            }
        }
        let pushed = self.stable[item];
        if pushed {
            self.stable.set(item, false);
            self.work_queue.push_back(item);
            proof {
                let nq = self.queue();
                assert forall|a: int, b: int|
                    0 <= a < nq.len() && 0 <= b < nq.len() && a != b implies nq[a] != nq[b] by {
                    if a == q.len() && b < q.len() {
                        assert(q.contains(q[b]));
                    } else if b == q.len() && a < q.len() {
                        assert(q.contains(q[a]));
                    }
                }
                assert forall|v: int|
                    0 <= v < self.stability().len() implies (!(#[trigger] self.stability()[v])
                    <==> nq.contains(v as usize)) by {
                    if v == item {
                        assert(nq[q.len() as int] == item);
                    } else {
                        assert(self.stability()[v] == st2[v]);
                        if nq.contains(v as usize) {
                            let j = choose|j: int| 0 <= j < nq.len() && nq[j] == v as usize;
                            assert(j < q.len());
                            assert(q[j] == v as usize);
                        }
                        if q.contains(v as usize) {
                            let j = choose|j: int| 0 <= j < q.len() && q[j] == v as usize;
                            assert(nq[j] == v as usize);
                        }
                    }
                }
            }
        }
        proof {
            let flags = if item < st.len() {
                st
            } else {
                st + Seq::new((item + 1 - st.len()) as nat, |i: int| true)
            };
            assert(st2 =~= flags);
            if flags[item as int] {
                assert(self.stability() =~= flags.update(item as int, false));
            } else {
                assert(self.stability() =~= flags);
            }
        }
        pushed
    }

    /// Whether no node waits.
    pub fn is_empty(&self) -> (r: bool)
        ensures
            r == (self.queue().len() == 0),
    {
        self.work_queue.len() == 0
    }

    /// The number of nodes waiting.
    pub fn len(&self) -> (r: usize)
        ensures
            r == self.queue().len(),
    {
        self.work_queue.len()
    }
}

} // verus!
