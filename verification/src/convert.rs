//! Doubles and integers: conversion both ways, rounding down to a whole
//! number, and numeric order.

use crate::format::{Binary64, HIDDEN_BIT, INFINITY_BITS};
use crate::power::{lemma_pow2_monotonic, lemma_pow2_wide, pow2_u128};
use crate::rounding::{round_pack, rounded, rounded_exact};
use vstd::arithmetic::div_mod::*;
use vstd::arithmetic::mul::*;
use vstd::arithmetic::power2::*;
use vstd::bits::lemma_u128_shr_is_div;
use vstd::prelude::*;

verus! {

/// The double nearest to the natural number `n`; exact below `2^53`.
pub open spec fn from_nat(n: nat) -> Binary64 {
    rounded(false, n, 0)
}

/// Where a double stands on the number line among the doubles: its
/// magnitude bits, negated under a sign. The two zeros share the place 0,
/// and above it the places ascend as the values do.
pub open spec fn order_key(a: Binary64) -> int {
    if a.negative() {
        -(a.magnitude() as int)
    } else {
        a.magnitude() as int
    }
}

/// `a <= b` as numbers: false when either is a NaN.
pub open spec fn at_most(a: Binary64, b: Binary64) -> bool {
    !a.is_nan() && !b.is_nan() && order_key(a) <= order_key(b)
}

/// `a < b` as numbers: false when either is a NaN.
pub open spec fn less(a: Binary64, b: Binary64) -> bool {
    !a.is_nan() && !b.is_nan() && order_key(a) < order_key(b)
}

/// The largest whole number that is not above `a`, as a double. A NaN, an
/// infinity and a number that is whole already are returned as they are;
/// `-0` stays `-0`.
pub open spec fn floor(a: Binary64) -> Binary64 {
    if !a.is_finite() || a.exponent() >= 0 {
        a
    } else {
        let unit = pow2((-a.exponent()) as nat);
        let more: nat = if a.negative() && a.significand() % unit != 0 {
            1
        } else {
            0
        };
        rounded(a.negative(), a.significand() / unit + more, 0)
    }
}

/// `a` cut to a whole number towards zero and kept within `0..=max`: what a
/// cast of a double to an unsigned integer type gives. A NaN gives 0, and so
/// does every negative number.
pub open spec fn saturated(a: Binary64, max: nat) -> nat {
    if a.is_nan() || a.negative() {
        0
    } else if a.is_infinite() {
        max
    } else {
        let whole = if a.exponent() >= 0 {
            a.significand() * pow2(a.exponent() as nat)
        } else {
            a.significand() / pow2((-a.exponent()) as nat)
        };
        if whole > max {
            max
        } else {
            whole
        }
    }
}

/// A natural number below `2^53` converts without rounding.
pub proof fn from_nat_exact(n: nat)
    requires
        n < pow2(53),
    ensures
        from_nat(n).is_finite(),
        !from_nat(n).negative(),
        from_nat(n).units() == n * pow2(1074),
{
    if n > 0 {
        rounded_exact(false, n, 0);
    } else {
        assert(from_nat(0).significand() == 0);
    }
}

/// A significand with its `shift` lowest digits split off: what is left, and
/// whether anything nonzero was split off.
fn split_low(m: u64, shift: u32) -> (r: (u64, bool))
    requires
        m < 2 * HIDDEN_BIT,
        shift >= 1,
    ensures
        r.0 == (m as nat) / pow2(shift as nat),
        r.1 == ((m as nat) % pow2(shift as nat) != 0),
        r.0 <= m,
{
    proof {
        lemma_pow2_wide();
    }
    if shift >= 64 {
        proof {
            lemma_pow2_monotonic(64, shift as nat);
            lemma_basic_div(m as int, pow2(shift as nat) as int);
            lemma_small_mod(m as nat, pow2(shift as nat));
        }
        (0, m != 0)
    } else {
        let p: u128 = pow2_u128(shift);
        let wide: u128 = m as u128;
        let whole: u128 = wide >> (shift as u128);
        proof {
            lemma_u128_shr_is_div(wide, shift as u128);
            lemma_fundamental_div_mod(m as int, p as int);
            lemma_mod_bound(m as int, p as int);
            lemma_mul_is_commutative(whole as int, p as int);
            lemma_div_is_ordered_by_denominator(m as int, 1, p as int);
            assert(m as int / 1 == m);
        }
        (whole as u64, wide - whole * p != 0)
    }
}

impl Binary64 {
    /// The double equal to `n`.
    pub fn from_u32(n: u32) -> (r: Binary64)
        ensures
            r == from_nat(n as nat),
    {
        round_pack(false, n as u128, 0)
    }

    /// The double nearest to `n`.
    pub fn from_u64(n: u64) -> (r: Binary64)
        ensures
            r == from_nat(n as nat),
    {
        round_pack(false, n as u128, 0)
    }

    /// `self <= other` as numbers.
    pub fn le(self, other: Binary64) -> (r: bool)
        ensures
            r == at_most(self, other),
    {
        let ma: u64 = self.abs_bits();
        let mb: u64 = other.abs_bits();
        if ma > INFINITY_BITS || mb > INFINITY_BITS {
            return false;
        }
        let ka: i128 = if self.is_negative() {
            -(ma as i128)
        } else {
            ma as i128
        };
        let kb: i128 = if other.is_negative() {
            -(mb as i128)
        } else {
            mb as i128
        };
        ka <= kb
    }

    /// `self < other` as numbers.
    pub fn lt(self, other: Binary64) -> (r: bool)
        ensures
            r == less(self, other),
    {
        let ma: u64 = self.abs_bits();
        let mb: u64 = other.abs_bits();
        if ma > INFINITY_BITS || mb > INFINITY_BITS {
            return false;
        }
        let ka: i128 = if self.is_negative() {
            -(ma as i128)
        } else {
            ma as i128
        };
        let kb: i128 = if other.is_negative() {
            -(mb as i128)
        } else {
            mb as i128
        };
        ka < kb
    }

    /// The largest whole number not above `self`.
    pub fn floor(self) -> (r: Binary64)
        ensures
            r == floor(self),
    {
        let mag: u64 = self.abs_bits();
        if mag >= INFINITY_BITS {
            return self;
        }
        let (m, e) = self.unpack();
        if e >= 0 {
            return self;
        }
        let negative: bool = self.is_negative();
        let (whole, rest) = split_low(m, (-e) as u32);
        let more: u64 = if negative && rest {
            1
        } else {
            0
        };
        round_pack(negative, (whole + more) as u128, 0)
    }

    /// `self` cut towards zero and kept within `0..=max`.
    pub fn saturating_to(self, max: u64) -> (r: u64)
        ensures
            r == saturated(self, max as nat),
            r <= max,
    {
        let mag: u64 = self.abs_bits();
        if mag > INFINITY_BITS || self.is_negative() {
            return 0;
        }
        if mag == INFINITY_BITS {
            return max;
        }
        let (m, e) = self.unpack();
        proof {
            lemma_pow2_wide();
        }
        if e >= 64 {
            proof {
                lemma_pow2_monotonic(64, e as nat);
                lemma_mul_upper_bound(
                    HIDDEN_BIT as int,
                    m as int,
                    pow2(64) as int,
                    pow2(e as nat) as int,
                );
            }
            max
        } else if e >= 0 {
            let p: u128 = pow2_u128(e as u32);
            proof {
                lemma_pow2_monotonic(e as nat, 63);
                lemma_mul_upper_bound(
                    m as int,
                    0x20_0000_0000_0000,
                    p as int,
                    pow2(63) as int,
                );
            }
            let whole: u128 = (m as u128) * p;
            if whole > max as u128 {
                max
            } else {
                whole as u64
            }
        } else {
            let (whole, _rest) = split_low(m, (-e) as u32);
            if whole > max {
                max
            } else {
                whole
            }
        }
    }

    /// `self` as a `u8`: cut towards zero, and kept within the type's range.
    pub fn to_u8(self) -> (r: u8)
        ensures
            r == saturated(self, 255),
    {
        self.saturating_to(255) as u8
    }

    /// `self` as a `usize`: cut towards zero, and kept within the type's
    /// range.
    pub fn to_usize(self) -> (r: usize)
        ensures
            r == saturated(self, usize::MAX as nat),
    {
        self.saturating_to(usize::MAX as u64) as usize
    }
}

} // verus!
