//! The subsets of a list, enumerated by bit masks.
use vstd::arithmetic::div_mod::lemma_div_denominator;
use vstd::arithmetic::power2::{
    lemma2_to64, lemma_pow2_pos, lemma_pow2_strictly_increases, lemma_pow2_unfold, pow2,
};
use vstd::prelude::*;

verus! {

/// The elements of `set` whose place, counted from zero, is the place of a
/// set bit of `mask`; they keep their order.
pub open spec fn chosen(set: Seq<i32>, mask: nat) -> Seq<i32>
    decreases set.len(),
{
    if set.len() == 0 {
        Seq::empty()
    } else {
        let front = chosen(set.drop_last(), mask);
        if (mask / pow2((set.len() - 1) as nat)) % 2 == 1 {
            front.push(set.last())
        } else {
            front
        }
    }
}

/// All subsets of `set`: the subset at place `mask` holds the elements that
/// the bits of `mask` choose.
pub fn powerset(set: &[i32]) -> (subsets: Vec<Vec<i32>>)
    requires
        set@.len() <= 63,
    ensures
        subsets@.len() == pow2(set@.len()),
        forall|mask: int|
            0 <= mask < subsets@.len() ==> (#[trigger] subsets@[mask])@ == chosen(
                set@,
                mask as nat,
            ),
{
    let mut limit: u64 = 1;
    let mut doubled: usize = 0;
    proof {
        lemma2_to64();
    }
    while doubled < set.len()
        invariant
            doubled <= set@.len() <= 63,
            limit == pow2(doubled as nat),
        decreases set@.len() - doubled,
    {
        proof {
            lemma_pow2_unfold((doubled + 1) as nat);
            lemma_pow2_strictly_increases((doubled + 1) as nat, 64);
            lemma2_to64();
        }
        limit = limit * 2;
        doubled += 1;
    }
    let mut res: Vec<Vec<i32>> = Vec::new();
    let mut i: u64 = 0;
    while i < limit
        invariant
            i <= limit,
            res@.len() == i,
            forall|mask: int|
                0 <= mask < res@.len() ==> (#[trigger] res@[mask])@ == chosen(set@, mask as nat),
        decreases limit - i,
    {
        let mut subset: Vec<i32> = Vec::new();
        let mut quotient = i;
        let mut j: usize = 0;
        proof {
            lemma2_to64();
        }
        while j < set.len()
            invariant
                j <= set@.len(),
                quotient == i as nat / pow2(j as nat),
                subset@ == chosen(set@.take(j as int), i as nat),
            decreases set@.len() - j,
        {
            proof {
                lemma_pow2_pos(j as nat);
                lemma_pow2_unfold((j + 1) as nat);
                lemma_div_denominator(i as int, pow2(j as nat) as int, 2);
                assert(set@.take(j + 1).drop_last() == set@.take(j as int));
            }
            if quotient % 2 == 1 {
                subset.push(set[j]);
            }
            quotient = quotient / 2;
            j += 1;
        }
        assert(set@.take(j as int) == set@);
        res.push(subset);
        i += 1;
    }
    res
}

} // verus!
