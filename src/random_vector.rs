use vstd::prelude::*;

use rand::Rng;
use rand_xorshift::XorShiftRng;

use crate::clustering::all_distinct;

verus! {

#[verifier::external_type_specification]
#[verifier::external_body]
pub struct ExXorShiftRng(XorShiftRng);

/// Relies on rand's `Rng::gen_range` over `XorShiftRng`: the value lies in
/// `[0, len)`. It panics on an empty range, which `requires` rules out.
#[verifier::external_body]
pub(crate) fn draw_index(rng: &mut XorShiftRng, len: usize) -> (r: usize)
    requires
        len > 0,
    ensures
        r < len,
{
    rng.gen_range(0..len)
}

/// `s` holds each of `0..s.len()` exactly once.
pub open spec fn is_permutation(s: Seq<usize>) -> bool {
    &&& all_distinct(s)
    &&& forall|i: int| 0 <= i < s.len() ==> (#[trigger] s[i]) < s.len()
    &&& forall|v: usize| v < s.len() ==> #[trigger] s.contains(v)
}

/// `s` with the values at positions `i` and `j` exchanged.
pub open spec fn swapped(s: Seq<usize>, i: int, j: int) -> Seq<usize> {
    s.update(i, s[j]).update(j, s[i])
}

/// The order of `0..length` after swapping position `i` with `draws[i]`,
/// for each `i < k` in turn, starting from the identity.
pub open spec fn order_after_draws(length: nat, draws: Seq<usize>, k: nat) -> Seq<usize>
    decreases k,
{
    if k == 0 {
        Seq::new(length, |i: int| i as usize)
    } else {
        swapped(order_after_draws(length, draws, (k - 1) as nat), k - 1, draws[k - 1] as int)
    }
}

/// Every draw is a position below `length`.
pub open spec fn draws_fit(length: nat, draws: Seq<usize>) -> bool {
    &&& draws.len() == length
    &&& forall|i: int| 0 <= i < draws.len() ==> (#[trigger] draws[i]) < length
}

/// The order of `0..length` that the draws make: starting from the
/// identity, position `i` is swapped with position `draws[i]`, for each `i`
/// in turn.
pub fn permutation_from_draws(length: usize, draws: &Vec<usize>) -> (r: Vec<usize>)
    requires
        draws_fit(length as nat, draws@),
    ensures
        r@.len() == length,
        r@ == order_after_draws(length as nat, draws@, length as nat),
        is_permutation(r@),
{
    let mut permutation: Vec<usize> = Vec::with_capacity(length);
    let mut i: usize = 0;
    while i < length
        invariant
            i <= length,
            permutation@.len() == i,
            forall|j: int| 0 <= j < i ==> permutation@[j] == j,
        decreases length - i,
    {
        permutation.push(i);
        i += 1;
    }
    proof {
        assert(permutation@ =~= order_after_draws(length as nat, draws@, 0));
        assert forall|v: usize| v < permutation@.len() implies #[trigger] permutation@.contains(v) by {
            assert(permutation@[v as int] == v);
        }
    }
    let mut i: usize = 0;
    while i < length
        invariant
            i <= length,
            draws_fit(length as nat, draws@),
            permutation@.len() == length,
            permutation@ == order_after_draws(length as nat, draws@, i as nat),
            is_permutation(permutation@),
        decreases length - i,
    {
        let random_index: usize = draws[i];
        let ghost before = permutation@;
        let old_value: usize = permutation[i];
        let other_value: usize = permutation[random_index];
        permutation.set(i, other_value);
        permutation.set(random_index, old_value);
        proof {
            let after = permutation@;
            assert(after =~= swapped(before, i as int, random_index as int));
            assert forall|a: int, b: int|
                0 <= a < after.len() && 0 <= b < after.len() && a != b implies after[a]
                != after[b] by {
                let pa = if a == i {
                    random_index as int
                } else if a == random_index {
                    i as int
                } else {
                    a
                };
                let pb = if b == i {
                    random_index as int
                } else if b == random_index {
                    i as int
                } else {
                    b
                };
                assert(after[a] == before[pa]);
                assert(after[b] == before[pb]);
            }
            assert forall|v: usize| v < after.len() implies #[trigger] after.contains(v) by {
                assert(before.contains(v));
                let p = choose|p: int| 0 <= p < before.len() && before[p] == v;
                let q = if p == i {
                    random_index as int
                } else if p == random_index {
                    i as int
                } else {
                    p
                };
                assert(after[q] == v);
            }
            assert forall|j: int| 0 <= j < after.len() implies (#[trigger] after[j]) < after.len() by {
                let pj = if j == i {
                    random_index as int
                } else if j == random_index {
                    i as int
                } else {
                    j
                };
                assert(after[j] == before[pj]);
            }
        }
        i += 1;
    }
    permutation
}

/// A random order of `0..length`: `length` positions are drawn from `rng`,
/// each below `length`, and position `i` is swapped with the `i`-th draw,
/// for each `i` in turn.
pub fn random_permutation(length: usize, rng: &mut XorShiftRng) -> (r: Vec<usize>)
    ensures
        r@.len() == length,
        is_permutation(r@),
        exists|draws: Seq<usize>|
            draws_fit(length as nat, draws) && r@ == order_after_draws(length as nat, draws, length as nat),
{
    let mut draws: Vec<usize> = Vec::with_capacity(length);
    let mut i: usize = 0;
    while i < length
        invariant
            i <= length,
            draws@.len() == i,
            forall|j: int| 0 <= j < i ==> (#[trigger] draws@[j]) < length,
        decreases length - i,
    {
        draws.push(draw_index(rng, length));
        i += 1;
    }
    let permutation = permutation_from_draws(length, &draws);
    proof {
        assert(draws_fit(length as nat, draws@));
    }
    permutation
}

} // verus!
