//! Small arithmetic facts about halving and powers of two that the level
//! bookkeeping of the accumulator rests on: each level is half as long as the
//! one below it, so level lengths are quotients by powers of two.

use vstd::prelude::*;

use vstd::arithmetic::div_mod::{
    lemma_div_denominator, lemma_fundamental_div_mod, lemma_mod_bound,
};
use vstd::arithmetic::mul::lemma_mul_inequality;
use vstd::arithmetic::power2::{
    lemma_pow2_pos, lemma_pow2_strictly_increases, lemma_pow2_unfold, pow2,
};

verus! {

/// Powers of two do not decrease with the exponent.
pub proof fn lemma_pow2_mono(a: nat, b: nat)
    requires
        a <= b,
    ensures
        pow2(a) <= pow2(b),
{
    if a < b {
        lemma_pow2_strictly_increases(a, b);
    }
}

/// Halving the quotient by `2^k` gives the quotient by `2^(k + 1)`.
pub proof fn lemma_halve_quotient(n: nat, k: nat)
    ensures
        n / pow2(k) / 2 == n / pow2(k + 1),
{
    lemma_pow2_pos(k);
    lemma_pow2_unfold(k + 1);
    lemma_div_denominator(n as int, pow2(k) as int, 2);
}

/// A level that still holds a full pair lies strictly below the capacity
/// height, and the level above it is not empty.
pub proof fn lemma_full_pair_below_height(n: nat, k: nat, h: nat)
    requires
        n / pow2(k) >= 2,
        n < pow2(h),
    ensures
        k + 1 < h,
        n / pow2(k + 1) >= 1,
{
    lemma_pow2_pos(k);
    let q = n as int / pow2(k) as int;
    lemma_fundamental_div_mod(n as int, pow2(k) as int);
    lemma_mod_bound(n as int, pow2(k) as int);
    assert(n as int >= pow2(k) as int * q);
    assert(pow2(k) as int * 2 <= pow2(k) as int * q) by {
        lemma_mul_inequality(2, q, pow2(k) as int);
        vstd::arithmetic::mul::lemma_mul_is_commutative(2, pow2(k) as int);
        vstd::arithmetic::mul::lemma_mul_is_commutative(q, pow2(k) as int);
    }
    lemma_pow2_unfold(k + 1);
    assert(n >= pow2(k + 1));
    if h <= k + 1 {
        lemma_pow2_mono(h, k + 1);
        assert(false);
    }
    lemma_halve_quotient(n, k);
}

/// A level that holds any node at all lies strictly below the capacity
/// height.
pub proof fn lemma_nonempty_level_below_height(n: nat, k: nat, h: nat)
    requires
        n / pow2(k) >= 1,
        n < pow2(h),
    ensures
        k < h,
        pow2(k) <= n,
{
    lemma_pow2_pos(k);
    lemma_fundamental_div_mod(n as int, pow2(k) as int);
    lemma_mod_bound(n as int, pow2(k) as int);
    let q = n as int / pow2(k) as int;
    assert(pow2(k) as int * 1 <= pow2(k) as int * q) by {
        lemma_mul_inequality(1, q, pow2(k) as int);
        vstd::arithmetic::mul::lemma_mul_is_commutative(1, pow2(k) as int);
        vstd::arithmetic::mul::lemma_mul_is_commutative(q, pow2(k) as int);
    }
    if h <= k {
        lemma_pow2_mono(h, k);
        assert(false);
    }
}

/// A quotient of exactly one brackets the dividend between the divisor and
/// its double.
pub proof fn lemma_quotient_one(n: nat, d: nat)
    requires
        d >= 1,
        n / d == 1,
    ensures
        d <= n < 2 * d,
{
    lemma_fundamental_div_mod(n as int, d as int);
    lemma_mod_bound(n as int, d as int);
}

/// Halving a position inside a level keeps it inside the halved level,
/// unless the position is the unpaired last node; and its sibling is in
/// bounds.
pub proof fn lemma_half_lt(idx: int, len: int)
    requires
        0 <= idx < len,
        !(idx % 2 == 0 && idx + 1 == len),
    ensures
        idx / 2 < len / 2,
        idx % 2 == 0 ==> idx + 1 < len,
        idx % 2 == 1 ==> 0 <= idx - 1 < len,
{
    lemma_fundamental_div_mod(idx, 2);
    lemma_mod_bound(idx, 2);
    lemma_fundamental_div_mod(len, 2);
    lemma_mod_bound(len, 2);
}

} // verus!
