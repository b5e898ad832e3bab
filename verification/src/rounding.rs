//! Rounding to nearest, ties to even: the one place where an exact value
//! becomes a double.

use crate::format::{signed, Binary64, HIDDEN_BIT, INFINITY_BITS};
use crate::power::{
    bit_len, bit_length, lemma_bit_length_bounds, lemma_div_below, lemma_pow2_monotonic,
    lemma_pow2_wide, lemma_scaled_below, pow2_u128,
};
use vstd::arithmetic::div_mod::*;
use vstd::arithmetic::mul::*;
use vstd::arithmetic::power2::*;
use vstd::bits::lemma_u128_shr_is_div;
use vstd::prelude::*;

verus! {

/// `m / d` rounded to the nearest integer, a tie going to the even one.
pub open spec fn nearest_even(m: nat, d: nat) -> nat {
    let floor = m / d;
    let rest = m % d;
    if 2 * rest > d || (2 * rest == d && floor % 2 == 1) {
        floor + 1
    } else {
        floor
    }
}

/// The exponent of the last digit that a double keeps of `m * 2^e`: 53
/// digits down from the leading one, but never below the subnormal spacing
/// `2^-1074`.
pub open spec fn last_place(m: nat, e: int) -> int {
    if e + bit_length(m) - 53 >= -1074 {
        e + bit_length(m) - 53
    } else {
        -1074
    }
}

/// `m * 2^e` in units of its last place, rounded to nearest even.
pub open spec fn kept_digits(m: nat, e: int) -> nat {
    let q = last_place(m, e);
    if q <= e {
        m * pow2((e - q) as nat)
    } else {
        nearest_even(m, pow2((q - e) as nat))
    }
}

/// The double nearest to `(-1)^negative * m * 2^e`, a tie going to the one
/// whose significand is even, and a value that rounds beyond the largest
/// finite double going to infinity.
///
/// The exponent field and the kept digits are added rather than joined: a
/// round-up that carries out of the significand then lands in the exponent,
/// which is exactly the next power of two.
pub open spec fn rounded(negative: bool, m: nat, e: int) -> Binary64 {
    if m == 0 {
        signed(negative, 0)
    } else {
        let code = (last_place(m, e) + 1074) * HIDDEN_BIT + kept_digits(m, e);
        if code >= INFINITY_BITS {
            signed(negative, INFINITY_BITS as nat)
        } else {
            signed(negative, code as nat)
        }
    }
}

/// `nearest_even(m, d)` is an integer nearest to `m / d`: it is off by at
/// most a half, and where it is off by exactly a half it is even.
pub proof fn nearest_even_is_nearest(m: nat, d: nat)
    requires
        d > 0,
    ensures
        2 * (nearest_even(m, d) * d - m) <= d,
        2 * (m - nearest_even(m, d) * d) <= d,
        2 * (nearest_even(m, d) * d - m) == d || 2 * (m - nearest_even(m, d) * d) == d
            ==> nearest_even(m, d) % 2 == 0,
{
    let floor: nat = m / d;
    let rest: nat = m % d;
    lemma_fundamental_div_mod(m as int, d as int);
    lemma_mod_bound(m as int, d as int);
    lemma_mul_is_commutative(floor as int, d as int);
    lemma_mul_is_distributive_add_other_way(d as int, floor as int, 1);
}

/// The digits kept of a positive `m * 2^e` come to at most `2^53`, and to at
/// least `2^52` wherever the last place lies above the subnormal spacing.
pub proof fn lemma_kept_digits_bounds(m: nat, e: int)
    requires
        m > 0,
    ensures
        kept_digits(m, e) <= pow2(53),
        last_place(m, e) > -1074 ==> kept_digits(m, e) >= pow2(52),
{
    let len: nat = bit_length(m);
    let q: int = last_place(m, e);
    lemma_bit_length_bounds(m);
    if q <= e {
        let s: nat = (e - q) as nat;
        lemma_scaled_below(m, len, s);
        lemma_pow2_monotonic(len + s, 53);
        if q > -1074 {
            lemma_pow2_adds((len - 1) as nat, s);
            lemma_mul_inequality(pow2((len - 1) as nat) as int, m as int, pow2(s) as int);
        }
    } else {
        let d: nat = (q - e) as nat;
        let p: nat = pow2(d);
        lemma_pow2_pos(d);
        lemma_div_below(m, len, d, 53);
        if q > -1074 {
            lemma_pow2_adds(52, d);
            lemma_div_is_ordered((pow2(52) * p) as int, m as int, p as int);
            lemma_div_by_multiple(pow2(52) as int, p as int);
        }
    }
}

/// A rounded value that is finite reads back as the digits kept, at the
/// last place kept, with the sign given.
pub proof fn rounded_reads_back(negative: bool, m: nat, e: int)
    requires
        m > 0,
        rounded(negative, m, e).is_finite(),
    ensures
        rounded(negative, m, e).negative() == negative,
        rounded(negative, m, e).units() == kept_digits(m, e) * pow2(
            (last_place(m, e) + 1074) as nat,
        ),
{
    let q: int = last_place(m, e);
    let k: nat = kept_digits(m, e);
    let r: Binary64 = rounded(negative, m, e);
    lemma_kept_digits_bounds(m, e);
    lemma_pow2_wide();
    lemma2_to64();
    let code: int = (q + 1074) * HIDDEN_BIT + k;
    assert(0 <= code < INFINITY_BITS);
    assert(r.magnitude() == code);
    if k < HIDDEN_BIT {
        assert(q == -1074);
        assert(r.significand() == k);
        assert(r.exponent() == -1074);
    } else if k < 2 * HIDDEN_BIT {
        assert(code == (q + 1075) * HIDDEN_BIT + (k - HIDDEN_BIT));
        assert(r.biased_exponent() == q + 1075);
        assert(r.significand() == k);
        assert(r.exponent() == q);
    } else {
        assert(code == (q + 1076) * HIDDEN_BIT);
        assert(r.biased_exponent() == q + 1076);
        assert(r.significand() == HIDDEN_BIT);
        assert(r.exponent() == q + 1);
        lemma_pow2_unfold((q + 1075) as nat);
        assert(HIDDEN_BIT * (2 * pow2((q + 1074) as nat)) == (2 * HIDDEN_BIT) * pow2(
            (q + 1074) as nat,
        )) by {
            lemma_mul_is_associative(HIDDEN_BIT as int, 2, pow2((q + 1074) as nat) as int);
        }
    }
}

/// Rounding is to a nearest double. Where the last place kept is not above
/// `e`, the digits kept are `m` itself, shifted; where it is, they are `m`
/// in units of the last place, off by at most a half.
pub proof fn rounded_is_nearest(m: nat, e: int)
    requires
        m > 0,
    ensures
        last_place(m, e) <= e ==> kept_digits(m, e) == m * pow2((e - last_place(m, e)) as nat),
        last_place(m, e) > e ==> {
            let unit = pow2((last_place(m, e) - e) as nat);
            &&& 2 * (kept_digits(m, e) * unit - m) <= unit
            &&& 2 * (m - kept_digits(m, e) * unit) <= unit
        },
{
    let q: int = last_place(m, e);
    if q > e {
        lemma_pow2_pos((q - e) as nat);
        nearest_even_is_nearest(m, pow2((q - e) as nat));
    }
}

/// A value that a double can hold is rounded to itself: for a significand
/// below `2^53` at an exponent within the format's range, the result is
/// finite and reads back as `m * 2^e`.
pub proof fn rounded_exact(negative: bool, m: nat, e: int)
    requires
        0 < m < pow2(53),
        -1074 <= e <= 971,
    ensures
        rounded(negative, m, e).is_finite(),
        rounded(negative, m, e).negative() == negative,
        rounded(negative, m, e).units() == m * pow2((e + 1074) as nat),
{
    let len: nat = bit_length(m);
    let q: int = last_place(m, e);
    lemma_pow2_wide();
    lemma_bit_length_bounds(m);
    if len > 53 {
        lemma_pow2_monotonic(53, (len - 1) as nat);
    }
    assert(q <= e);
    let k: nat = kept_digits(m, e);
    lemma_kept_digits_bounds(m, e);
    let s: nat = (e - q) as nat;
    lemma_scaled_below(m, len, s);
    lemma_pow2_monotonic(len + s, 53);
    assert(k < pow2(53));
    assert(rounded(negative, m, e).is_finite());
    rounded_reads_back(negative, m, e);
    lemma_pow2_adds(s, (q + 1074) as nat);
    lemma_mul_is_associative(m as int, pow2(s) as int, pow2((q + 1074) as nat) as int);
}

/// Rounds `(-1)^negative * m * 2^e` to a double.
pub fn round_pack(negative: bool, m: u128, e: i32) -> (r: Binary64)
    requires
        m < 0x100_0000_0000_0000_0000_0000_0000_0000,
        -4000 <= e <= 4000,
    ensures
        r == rounded(negative, m as nat, e as int),
{
    if m == 0 {
        return Binary64::with_sign(negative, 0);
    }
    let len: u32 = bit_len(m);
    proof {
        lemma_pow2_wide();
        lemma_bit_length_bounds(m as nat);
        if len > 120 {
            lemma_pow2_monotonic(120, (len - 1) as nat);
        }
    }
    let q0: i32 = e + (len as i32) - 53;
    let q: i32 = if q0 >= -1074 {
        q0
    } else {
        -1074
    };
    assert(q == last_place(m as nat, e as int));
    if q >= 973 {
        assert((q + 1074) * HIDDEN_BIT + kept_digits(m as nat, e as int) >= INFINITY_BITS);
        return Binary64::with_sign(negative, INFINITY_BITS);
    }
    let digits: u64 = if q <= e {
        let s: u32 = (e - q) as u32;
        let p: u128 = pow2_u128(s);
        proof {
            lemma_scaled_below(m as nat, len as nat, s as nat);
            lemma_pow2_monotonic((len + s) as nat, 53);
        }
        (m * p) as u64
    } else {
        let d: u32 = (q - e) as u32;
        if d >= 128 {
            proof {
                lemma_pow2_monotonic(128, d as nat);
                lemma_basic_div(m as int, pow2(d as nat) as int);
                lemma_small_mod(m as nat, pow2(d as nat));
            }
            0
        } else {
            let p: u128 = pow2_u128(d);
            let floor: u128 = m >> (d as u128);
            proof {
                lemma_u128_shr_is_div(m, d as u128);
                lemma_fundamental_div_mod(m as int, p as int);
                lemma_mod_bound(m as int, p as int);
                lemma_div_below(m as nat, len as nat, d as nat, 53);
                lemma_pow2_monotonic(d as nat, 127);
                lemma_mul_is_commutative(floor as int, p as int);
            }
            let rest: u128 = m - floor * p;
            assert(rest == (m as nat) % pow2(d as nat));
            if 2 * rest > p || (2 * rest == p && floor % 2 == 1) {
                (floor + 1) as u64
            } else {
                floor as u64
            }
        }
    };
    assert(digits == kept_digits(m as nat, e as int));
    assert(digits <= 0x20_0000_0000_0000);
    let code: u64 = ((q + 1074) as u64) * HIDDEN_BIT + digits;
    if code >= INFINITY_BITS {
        Binary64::with_sign(negative, INFINITY_BITS)
    } else {
        Binary64::with_sign(negative, code)
    }
}

} // verus!
