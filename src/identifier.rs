use vstd::prelude::*;

use std::collections::HashMap;

use crate::clustering::all_distinct;

verus! {

broadcast use vstd::std_specs::hash::group_hash_axioms;

/// Hands out dense ids `0, 1, 2, ...` to node ids in order of first sight,
/// and remembers the way back.
pub struct Identifier {
    original_to_new: HashMap<usize, usize>,
    new_to_original: Vec<usize>,
}

impl Identifier {
    /// The node ids seen, by dense id.
    pub closed spec fn originals(&self) -> Seq<usize> {
        self.new_to_original@
    }

    /// The dense id of each node id seen.
    pub closed spec fn ids(&self) -> Map<usize, usize> {
        self.original_to_new@
    }

    /// The two directions agree: each node id seen once, and mapped to its
    /// position.
    pub open spec fn wf(&self) -> bool {
        &&& all_distinct(self.originals())
        &&& forall|k: usize| #[trigger] self.ids().contains_key(k) <==> self.originals().contains(k)
        &&& forall|i: int|
            0 <= i < self.originals().len() ==> self.ids()[#[trigger] self.originals()[i]] == i
    }

    /// An identifier that has seen nothing.
    pub fn new() -> (r: Self)
        ensures
            r.wf(),
            r.originals() == Seq::<usize>::empty(),
    {
        Identifier { original_to_new: HashMap::new(), new_to_original: Vec::new() }
    }

    /// The dense id of `original`, handing out the next one on first sight.
    pub fn identify(&mut self, original: usize) -> (r: usize)
        requires
            old(self).wf(),
        ensures
            final(self).wf(),
            old(self).originals().contains(original) ==> final(self).originals() == old(
                self,
            ).originals(),
            !old(self).originals().contains(original) ==> final(self).originals() == old(
                self,
            ).originals().push(original),
            r < final(self).originals().len(),
            final(self).originals()[r as int] == original,
    {
        match self.original_to_new.get(&original) {
            Some(id) => {
                let id = *id;
                proof {
                    let j = choose|j: int|
                        0 <= j < self.originals().len() && self.originals()[j] == original;
                    assert(self.ids()[self.originals()[j]] == j);
                }
                id
            },
            None => {
                let new_id: usize = self.new_to_original.len();
                let ghost before = self.originals();
                let ghost before_ids = self.ids();
                self.original_to_new.insert(original, new_id);
                self.new_to_original.push(original);
                proof {
                    let after = self.originals();
                    assert(!before.contains(original));
                    assert forall|a: int, b: int|
                        0 <= a < after.len() && 0 <= b < after.len() && a != b implies after[a]
                        != after[b] by {
                        if a == before.len() {
                            assert(before.contains(after[b]));
                        } else if b == before.len() {
                            assert(before.contains(after[a]));
                        }
                    }
                    assert forall|k: usize| #[trigger] self.ids().contains_key(k) <==> after.contains(k) by {
                        if k != original {
                            if after.contains(k) {
                                let j = choose|j: int| 0 <= j < after.len() && after[j] == k;
                                assert(before[j] == k);
                            }
                            if before.contains(k) {
                                let j = choose|j: int| 0 <= j < before.len() && before[j] == k;
                                assert(after[j] == k);
                            }
                        } else {
                            assert(after[before.len() as int] == k);
                        }
                    }
                    assert forall|i: int|
                        0 <= i < after.len() implies self.ids()[#[trigger] after[i]] == i by {
                        if i < before.len() {
                            assert(after[i] == before[i]);
                            assert(before_ids[before[i]] == i);
                        }
                    }
                }
                new_id
            },
        }
    }

    /// The node ids seen, by dense id.
    pub fn identity_map(&self) -> (r: Vec<usize>)
        ensures
            r@ == self.originals(),
    {
        let mut copy: Vec<usize> = Vec::with_capacity(self.new_to_original.len());
        let mut i: usize = 0;
        while i < self.new_to_original.len()
            invariant
                i <= self.originals().len(),
                copy@ == self.originals().take(i as int),
            decreases self.originals().len() - i,
        {
            copy.push(self.new_to_original[i]);
            proof {
                assert(copy@ =~= self.originals().take(i + 1));
            }
            i += 1;
        }
        proof {
            assert(copy@ =~= self.originals());
        }
        copy
    }

    /// Forgets every node id seen.
    pub fn clear(&mut self)
        ensures
            final(self).wf(),
            final(self).originals() == Seq::<usize>::empty(),
    {
        self.new_to_original.clear();
        self.original_to_new.clear();
    }

    /// Hands over both directions, the dense id of each node id and the node
    /// ids by dense id, and starts afresh.
    pub fn finish(&mut self) -> (r: (HashMap<usize, usize>, Vec<usize>))
        ensures
            r.0@ == old(self).ids(),
            r.1@ == old(self).originals(),
            final(self).wf(),
            final(self).originals() == Seq::<usize>::empty(),
    {
        let mut id_to_label: HashMap<usize, usize> = HashMap::new();
        let mut label_to_id: Vec<usize> = Vec::new();
        std::mem::swap(&mut id_to_label, &mut self.original_to_new);
        std::mem::swap(&mut label_to_id, &mut self.new_to_original);
        (id_to_label, label_to_id)
    }
}

} // verus!
