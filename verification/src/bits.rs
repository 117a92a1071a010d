//! Addition and multiplication of machine words from bitwise operations
//! alone.
use vstd::arithmetic::div_mod::{lemma_add_mod_noop_right, lemma_mul_mod_noop_right};
use vstd::prelude::*;

verus! {

/// The sum of two words, as far as it fits into a word.
pub open spec fn wrapping_sum(a: u32, b: u32) -> u32 {
    ((a + b) % 0x1_0000_0000) as u32
}

/// The product of two words, as far as it fits into a word.
pub open spec fn wrapping_product(a: u32, b: u32) -> u32 {
    ((a * b) % 0x1_0000_0000) as u32
}

/// One round of carries keeps the sum: the bits that differ, plus the
/// carries moved up by one place, are the two words added.
proof fn lemma_carry_round(a: u32, b: u32)
    ensures
        wrapping_sum(a ^ b, (a & b) << 1) == wrapping_sum(a, b),
{
    assert(((a ^ b) + ((a & b) << 1)) % 0x1_0000_0000 == (a + b) % 0x1_0000_0000)
        by (bit_vector);
}

/// Whether the lowest `zeros` bits of `word` are clear.
pub open spec fn clear_below(word: u32, zeros: u64) -> bool {
    ((word as u64) >> zeros) << zeros == word as u64
}

/// The carries of a word whose lowest `zeros` bits are clear have one more
/// clear bit; with 31 clear bits or more there are no carries.
proof fn lemma_carries_move_up(a: u32, b: u32, zeros: u64)
    requires
        zeros <= 32,
        clear_below(b, zeros),
    ensures
        zeros >= 31 ==> (a & b) << 1 == 0,
        zeros < 31 ==> clear_below((a & b) << 1, (zeros + 1) as u64),
{
    let carry = (a & b) << 1;
    let more = (zeros + 1) as u64;
    assert(zeros >= 31 ==> carry == 0) by (bit_vector)
        requires
            zeros <= 32,
            ((b as u64) >> zeros) << zeros == b as u64,
            carry == (a & b) << 1,
    ;
    assert(zeros < 31 ==> ((carry as u64) >> more) << more == carry as u64) by (bit_vector)
        requires
            zeros <= 32,
            ((b as u64) >> zeros) << zeros == b as u64,
            carry == (a & b) << 1,
            zeros < 31 ==> more == zeros + 1,
    ;
}

/// Adds two words with carries: the bits that differ are kept and the
/// carries are added in turn until none is left.
pub fn adder(mut a: u32, mut b: u32) -> (sum: u32)
    ensures
        sum == wrapping_sum(a, b),
{
    let ghost first = a;
    let ghost second = b;
    let ghost mut zeros: u64 = 0;
    assert(clear_below(b, 0)) by (bit_vector);
    loop
        invariant_except_break
            zeros <= 32,
            clear_below(b, zeros),
            wrapping_sum(a, b) == wrapping_sum(first, second),
        ensures
            a == wrapping_sum(first, second),
        decreases 32 - zeros,
    {
        proof {
            lemma_carry_round(a, b);
            lemma_carries_move_up(a, b, zeros);
        }
        let res = a ^ b;
        let carry = (a & b) << 1;
        a = res;
        b = carry;

        if carry == 0 {
            break ;
        }
        proof {
            zeros = (zeros + 1) as u64;
        }
    }
    a
}

/// Multiplies two words by shifting and adding: the product with half of
/// `b` is doubled, and `a` is added where `b` is odd.
pub fn multiplier(a: u32, b: u32) -> (product: u32)
    ensures
        product == wrapping_product(a, b),
    decreases b,
{
    if b == 0 {
        assert(a * 0 == 0);
        return 0;
    }
    let half = b >> 1;
    assert(half == b / 2 && half < b) by (bit_vector)
        requires
            half == b >> 1,
            b != 0,
    ;
    assert((b & 1 == 0) == (b % 2 == 0)) by (bit_vector);
    let partial = multiplier(a, half);
    let doubled = partial << 1;
    assert(doubled == (2 * partial) % 0x1_0000_0000) by (bit_vector)
        requires
            doubled == partial << 1,
    ;
    proof {
        lemma_mul_mod_noop_right(2, a * half, 0x1_0000_0000);
        assert(doubled == (2 * (a * half)) % 0x1_0000_0000);
        lemma_add_mod_noop_right(a as int, 2 * (a * half), 0x1_0000_0000);
        assert(2 * (a * half) == a * (2 * half)) by (nonlinear_arith);
        assert(a * (2 * half + 1) == a * (2 * half) + a) by (nonlinear_arith);
    }
    if b & 1 == 0 {
        doubled
    } else {
        adder(a, doubled)
    }
}

} // verus!
