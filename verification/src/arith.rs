//! Powers of two and bit lengths, the arithmetic shared by the bit readers and
//! the table builders.

use vstd::prelude::*;
use vstd::arithmetic::power2::*;
use vstd::bits::*;
use vstd::std_specs::bits::*;

verus! {

/// Number of binary digits of `x`: the position of its highest set bit,
/// counted from one. Zero has no digits.
pub open spec fn bit_length(x: nat) -> nat
    decreases x,
{
    if x == 0 {
        0
    } else {
        1 + bit_length(x / 2)
    }
}

/// A positive number lies between the two powers of two that its bit length
/// names.
pub proof fn lemma_bit_length_bounds(x: nat)
    requires
        x > 0,
    ensures
        bit_length(x) >= 1,
        pow2((bit_length(x) - 1) as nat) <= x < pow2(bit_length(x)),
    decreases x,
{
    lemma2_to64();
    if x == 1 {
        assert(bit_length(1) == 1 + bit_length(0));
    } else {
        let h = x / 2;
        lemma_bit_length_bounds(h);
        let k = bit_length(h);
        assert(bit_length(x) == k + 1);
        lemma_pow2_unfold(k);
        lemma_pow2_unfold(k + 1);
    }
}

/// The bit length is the only `k` with `2^(k-1) <= x < 2^k`.
pub proof fn lemma_bit_length_unique(x: nat, k: nat)
    requires
        k >= 1,
        pow2((k - 1) as nat) <= x < pow2(k),
    ensures
        bit_length(x) == k,
{
    lemma_pow2_pos((k - 1) as nat);
    lemma_bit_length_bounds(x);
    let m = bit_length(x);
    if m < k {
        if m < k - 1 {
            lemma_pow2_strictly_increases(m, (k - 1) as nat);
        }
    } else if m > k {
        if k < m - 1 {
            lemma_pow2_strictly_increases(k, (m - 1) as nat);
        }
    }
}

/// `2^a <= 2^b` whenever `a <= b`.
pub proof fn lemma_pow2_monotone(a: nat, b: nat)
    requires
        a <= b,
    ensures
        pow2(a) <= pow2(b),
{
    if a < b {
        lemma_pow2_strictly_increases(a, b);
    }
}

/// `2^k` as a `u32`.
pub fn pow2_u32(k: u32) -> (r: u32)
    requires
        k < 32,
    ensures
        r == pow2(k as nat),
{
    proof {
        lemma_u32_pow2_no_overflow(k as nat);
        lemma_u32_shl_is_mul(1u32, k);
    }
    1u32 << k
}

/// `2^k` as a `usize`.
pub fn pow2_usize(k: u32) -> (r: usize)
    requires
        k < 32,
    ensures
        r == pow2(k as nat),
{
    let r: u32 = pow2_u32(k);
    r as usize
}

/// Position of the highest set bit of `x`, counted from one.
pub fn highest_bit_set(x: u32) -> (r: u32)
    requires
        x > 0,
    ensures
        r == bit_length(x as nat),
        1 <= r <= 32,
{
    let lz: u32 = x.leading_zeros();
    proof {
        axiom_u32_leading_zeros(x);
        let k: u32 = (32 - lz) as u32;
        let j: u32 = (k - 1) as u32;
        assert(1 <= k <= 32);
        assert(x >> k == 0);
        assert((x >> j) & 1u32 != 0u32);
        assert((k == 32 || x < (1u32 << k)) && x >= (1u32 << j)) by (bit_vector)
            requires
                x >> k == 0,
                (x >> j) & 1u32 != 0u32,
                1 <= k <= 32,
                j == k - 1,
        ;
        lemma_u32_pow2_no_overflow((k - 1) as nat);
        lemma_u32_shl_is_mul(1u32, (k - 1) as u32);
        if k < 32 {
            lemma_u32_pow2_no_overflow(k as nat);
            lemma_u32_shl_is_mul(1u32, k);
        } else {
            lemma2_to64();
        }
        lemma_bit_length_unique(x as nat, k as nat);
    }
    u32::BITS - lz
}

} // verus!

verus! {

/// Whether `x` is an exact power of two. Zero is none.
pub open spec fn is_power_of_two(x: nat) -> bool {
    x > 0 && x == pow2((bit_length(x) - 1) as nat)
}

/// Every `2^k` is a power of two, with `k + 1` binary digits.
pub proof fn lemma_pow2_is_power_of_two(k: nat)
    ensures
        is_power_of_two(pow2(k)),
        bit_length(pow2(k)) == k + 1,
{
    lemma_pow2_pos(k);
    lemma_pow2_strictly_increases(k, k + 1);
    lemma_bit_length_unique(pow2(k), k + 1);
}

/// Whether `x` is an exact power of two.
pub fn is_power_of_two_u32(x: u32) -> (r: bool)
    ensures
        r == is_power_of_two(x as nat),
{
    if x == 0 {
        false
    } else {
        let top: u32 = highest_bit_set(x);
        pow2_u32(top - 1) == x
    }
}

} // verus!

verus! {

/// Makes `target` hold what `source` holds.
pub fn refill<T: Copy>(target: &mut Vec<T>, source: &Vec<T>)
    ensures
        final(target)@ == source@,
{
    target.clear();
    let mut i: usize = 0;
    while i < source.len()
        invariant
            i <= source@.len(),
            target@ == source@.take(i as int),
        decreases source@.len() - i,
    {
        target.push(source[i]);
        i = i + 1;
        assert(target@ =~= source@.take(i as int));
    }
    assert(target@ =~= source@);
}

} // verus!
