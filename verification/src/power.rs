//! Powers of two and binary digit counts, the ground the significand
//! arithmetic stands on.

use vstd::arithmetic::div_mod::*;
use vstd::arithmetic::mul::*;
use vstd::arithmetic::power2::*;
use vstd::bits::lemma_u128_shr_is_div;
use vstd::prelude::*;

verus! {

/// The number of binary digits of `m`: 0 for 0, and for a positive `m` the
/// one `k` with `2^(k-1) <= m < 2^k`.
pub open spec fn bit_length(m: nat) -> nat
    decreases m,
{
    if m == 0 {
        0
    } else {
        1 + bit_length(m / 2)
    }
}

/// `pow2` never decreases.
pub proof fn lemma_pow2_monotonic(a: nat, b: nat)
    requires
        a <= b,
    ensures
        pow2(a) <= pow2(b),
{
    if a < b {
        lemma_pow2_strictly_increases(a, b);
    }
}

/// A positive number lies between the two powers of two that its digit count names.
pub proof fn lemma_bit_length_bounds(m: nat)
    requires
        m > 0,
    ensures
        bit_length(m) >= 1,
        pow2((bit_length(m) - 1) as nat) <= m < pow2(bit_length(m)),
    decreases m,
{
    lemma2_to64();
    if m == 1 {
        assert(bit_length(0) == 0);
        assert(bit_length(1) == 1);
    } else {
        lemma_bit_length_bounds(m / 2);
        let k: nat = bit_length(m / 2);
        assert(bit_length(m) == k + 1);
        lemma_pow2_unfold(k + 1);
        lemma_pow2_unfold(k);
    }
}

/// The digit count is the only `k` whose powers of two enclose `m`.
pub proof fn lemma_bit_length_unique(m: nat, k: nat)
    requires
        k >= 1,
        pow2((k - 1) as nat) <= m < pow2(k),
    ensures
        bit_length(m) == k,
{
    lemma_pow2_pos((k - 1) as nat);
    lemma_bit_length_bounds(m);
    let l: nat = bit_length(m);
    if l < k {
        lemma_pow2_monotonic(l, (k - 1) as nat);
    } else if l > k {
        lemma_pow2_monotonic(k, (l - 1) as nat);
    }
}

/// Dropping `k` low digits of a number that has more than `k` digits takes
/// `k` off its digit count.
pub proof fn lemma_bit_length_shift(x: nat, k: nat)
    requires
        x >= pow2(k),
    ensures
        bit_length(x) == k + bit_length(x / pow2(k)),
        x / pow2(k) >= 1,
{
    let p: nat = pow2(k);
    lemma_pow2_pos(k);
    let y: nat = x / p;
    lemma_fundamental_div_mod(x as int, p as int);
    lemma_mod_bound(x as int, p as int);
    assert(y >= 1) by {
        if y == 0 {
            assert(p * 0 == 0);
        }
    }
    lemma_bit_length_bounds(y);
    let l: nat = bit_length(y);
    lemma_pow2_adds((l - 1) as nat, k);
    lemma_pow2_adds(l, k);
    assert(pow2((l - 1) as nat) * p <= y * p) by {
        lemma_mul_inequality(pow2((l - 1) as nat) as int, y as int, p as int);
    }
    assert((y + 1) * p <= pow2(l) * p) by {
        lemma_mul_inequality((y + 1) as int, pow2(l) as int, p as int);
    }
    assert((y + 1) * p == y * p + p) by {
        lemma_mul_is_distributive_add_other_way(p as int, y as int, 1);
    }
    assert(p * y == y * p) by {
        lemma_mul_is_commutative(p as int, y as int);
    }
    lemma_bit_length_unique(x, l + k);
}

/// `1 << d` is `2^d`.
pub proof fn lemma_shl_one(d: u32)
    requires
        d < 128,
    ensures
        (1u128 << d) == pow2(d as nat),
    decreases d,
{
    lemma2_to64();
    if d == 0 {
        assert((1u128 << 0u32) == 1u128) by (bit_vector);
    } else {
        let c: u32 = (d - 1) as u32;
        lemma_shl_one(c);
        assert((1u128 << d) == 2 * (1u128 << c)) by (bit_vector)
            requires
                0 < d < 128,
                c == d - 1,
        ;
        lemma_pow2_unfold(d as nat);
    }
}

/// `2^d` as a machine integer.
pub fn pow2_u128(d: u32) -> (p: u128)
    requires
        d < 128,
    ensures
        p == pow2(d as nat),
        p > 0,
{
    proof {
        lemma_shl_one(d);
        lemma_pow2_pos(d as nat);
    }
    1u128 << d
}

/// The number of binary digits of `m`.
pub fn bit_len(m: u128) -> (r: u32)
    ensures
        r == bit_length(m as nat),
        r <= 128,
{
    let mut x: u128 = m;
    let mut r: u32 = 0;
    proof {
        lemma2_to64();
        lemma2_to64_rest();
    }
    if x >= 0x1_0000_0000_0000_0000 {
        proof {
            lemma_bit_length_shift(x as nat, 64);
            lemma_u128_shr_is_div(x, 64);
        }
        x = x >> 64;
        r = r + 64;
    }
    assert(bit_length(m as nat) == r + bit_length(x as nat));
    assert(x < 0x1_0000_0000_0000_0000) by {
        lemma_pow2_adds(64, 64);
        lemma_u128_shr_is_div(m, 64);
        if m >= 0x1_0000_0000_0000_0000 {
            lemma_div_strictly_bounded_by_pow(m as int);
        }
    }
    if x >= 0x1_0000_0000 {
        proof {
            lemma_bit_length_shift(x as nat, 32);
            lemma_u128_shr_is_div(x, 32);
        }
        x = x >> 32;
        r = r + 32;
    }
    if x >= 0x1_0000 {
        proof {
            lemma_bit_length_shift(x as nat, 16);
            lemma_u128_shr_is_div(x, 16);
        }
        x = x >> 16;
        r = r + 16;
    }
    if x >= 0x100 {
        proof {
            lemma_bit_length_shift(x as nat, 8);
            lemma_u128_shr_is_div(x, 8);
        }
        x = x >> 8;
        r = r + 8;
    }
    if x >= 0x10 {
        proof {
            lemma_bit_length_shift(x as nat, 4);
            lemma_u128_shr_is_div(x, 4);
        }
        x = x >> 4;
        r = r + 4;
    }
    if x >= 4 {
        proof {
            lemma_bit_length_shift(x as nat, 2);
            lemma_u128_shr_is_div(x, 2);
        }
        x = x >> 2;
        r = r + 2;
    }
    if x >= 2 {
        proof {
            lemma_bit_length_shift(x as nat, 1);
            lemma_u128_shr_is_div(x, 1);
        }
        x = x >> 1;
        r = r + 1;
    }
    assert(x <= 1);
    assert(bit_length(0) == 0);
    assert(bit_length(1) == 1);
    if x >= 1 {
        r = r + 1;
    }
    r
}

/// A number below `2^128` has fewer than `2^64` left once 64 digits are dropped.
proof fn lemma_div_strictly_bounded_by_pow(m: int)
    requires
        0 <= m < 0x1_0000_0000_0000_0000_0000_0000_0000_0000,
    ensures
        m / 0x1_0000_0000_0000_0000 < 0x1_0000_0000_0000_0000,
{
}

/// The powers of two beyond 64 digits that the arithmetic names.
pub proof fn lemma_pow2_wide()
    ensures
        pow2(52) == 0x10_0000_0000_0000,
        pow2(53) == 0x20_0000_0000_0000,
        pow2(63) == 0x8000_0000_0000_0000,
        pow2(64) == 0x1_0000_0000_0000_0000,
        pow2(106) == 0x400_0000_0000_0000_0000_0000_0000,
        pow2(120) == 0x100_0000_0000_0000_0000_0000_0000_0000,
        pow2(127) == 0x8000_0000_0000_0000_0000_0000_0000_0000,
        pow2(128) == 0x1_0000_0000_0000_0000_0000_0000_0000_0000,
{
    lemma2_to64();
    lemma2_to64_rest();
    lemma_pow2_adds(64, 42);
    lemma_pow2_adds(64, 56);
    lemma_pow2_adds(64, 63);
    lemma_pow2_adds(64, 64);
}

/// Scaling a number of at most `len` digits by `2^s` gives one of at most
/// `len + s` digits.
pub proof fn lemma_scaled_below(m: nat, len: nat, s: nat)
    requires
        m < pow2(len),
    ensures
        m * pow2(s) < pow2(len + s),
{
    lemma_pow2_pos(s);
    lemma_pow2_adds(len, s);
    lemma_mul_strict_inequality(m as int, pow2(len) as int, pow2(s) as int);
}

/// Dropping `d` digits of a number of at most `len` digits leaves at most
/// `len - d`.
pub proof fn lemma_div_below(m: nat, len: nat, d: nat, k: nat)
    requires
        m < pow2(len),
        len <= d + k,
    ensures
        m / pow2(d) < pow2(k),
{
    lemma_pow2_pos(d);
    lemma_pow2_adds(d, k);
    lemma_pow2_monotonic(len, d + k);
    lemma_multiply_divide_lt(m as int, pow2(d) as int, pow2(k) as int);
}

} // verus!
