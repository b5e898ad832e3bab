//! Sums, products and quotients of doubles, each the exact result rounded
//! once.

use crate::format::{nan, signed, Binary64, HIDDEN_BIT, INFINITY_BITS, NAN_BITS};
use crate::power::{
    bit_len, bit_length, lemma_bit_length_bounds, lemma_bit_length_unique, lemma_pow2_monotonic,
    lemma_pow2_wide, lemma_scaled_below, pow2_u128,
};
use crate::rounding::{kept_digits, last_place, nearest_even, round_pack, rounded};
use vstd::arithmetic::div_mod::*;
use vstd::arithmetic::mul::*;
use vstd::arithmetic::power2::*;
use vstd::prelude::*;

verus! {

/// The value of the finite `a` in units of `2^e`, for an `e` at or below
/// its exponent.
pub open spec fn scaled(a: Binary64, e: int) -> int {
    let m = a.significand() * pow2((a.exponent() - e) as nat);
    if a.negative() {
        -m
    } else {
        m as int
    }
}

/// The integer `total`, in units of `2^e`, rounded; a zero takes the sign
/// given for it.
pub open spec fn rounded_total(total: int, e: int, zero_negative: bool) -> Binary64 {
    if total == 0 {
        signed(zero_negative, 0)
    } else if total < 0 {
        rounded(true, (-total) as nat, e)
    } else {
        rounded(false, total as nat, e)
    }
}

/// `a + b`: the exact sum of the two values, rounded.
///
/// Both values are written in units of the smaller of the two exponents and
/// added as integers. A sum that is exactly zero is `-0` only when both
/// operands are negative. A NaN operand gives NaN, and so do two infinities
/// of opposite sign; otherwise an infinite operand is the result.
pub open spec fn sum(a: Binary64, b: Binary64) -> Binary64 {
    if a.is_nan() || b.is_nan() {
        nan()
    } else if a.is_infinite() {
        if b.is_infinite() && a.negative() != b.negative() {
            nan()
        } else {
            a
        }
    } else if b.is_infinite() {
        b
    } else {
        let e = if a.exponent() <= b.exponent() {
            a.exponent()
        } else {
            b.exponent()
        };
        rounded_total(scaled(a, e) + scaled(b, e), e, a.negative() && b.negative())
    }
}

/// `a - b`, which is `a + (-b)`.
pub open spec fn difference(a: Binary64, b: Binary64) -> Binary64 {
    sum(a, b.negated())
}

/// `a * b`: the exact product of the two values, rounded.
///
/// A NaN operand gives NaN, and so does zero times infinity; any other
/// product with an infinity is an infinity. The sign is the exclusive or of
/// the operands' signs, on zeros too.
pub open spec fn product(a: Binary64, b: Binary64) -> Binary64 {
    let negative = a.negative() != b.negative();
    if a.is_nan() || b.is_nan() {
        nan()
    } else if a.is_infinite() || b.is_infinite() {
        if a.is_zero() || b.is_zero() {
            nan()
        } else {
            signed(negative, INFINITY_BITS as nat)
        }
    } else {
        rounded(negative, a.significand() * b.significand(), a.exponent() + b.exponent())
    }
}

/// How far the significand `m` of a nonzero finite double is shifted left
/// to bring its leading digit to the 53rd place.
pub open spec fn normal_shift(m: nat) -> nat {
    (53 - bit_length(m)) as nat
}

/// `a / b`: the exact quotient of the two values, rounded.
///
/// With both significands brought to 53 digits, the quotient is taken to 62
/// further binary places, and one digit more records whether the division
/// left a remainder. Rounding to 53 digits needs no more than that: the
/// remainder can only break what would otherwise look like a tie.
///
/// A NaN operand gives NaN, and so do `0/0` and `inf/inf`. A nonzero number
/// over zero is an infinity, a finite number over an infinity is a zero, and
/// the sign is the exclusive or of the operands' signs.
pub open spec fn quotient(a: Binary64, b: Binary64) -> Binary64 {
    let negative = a.negative() != b.negative();
    if a.is_nan() || b.is_nan() {
        nan()
    } else if a.is_infinite() {
        if b.is_infinite() {
            nan()
        } else {
            signed(negative, INFINITY_BITS as nat)
        }
    } else if b.is_infinite() {
        signed(negative, 0)
    } else if b.is_zero() {
        if a.is_zero() {
            nan()
        } else {
            signed(negative, INFINITY_BITS as nat)
        }
    } else if a.is_zero() {
        signed(negative, 0)
    } else {
        let sa = normal_shift(a.significand());
        let sb = normal_shift(b.significand());
        let n = a.significand() * pow2(sa) * pow2(62);
        let d = b.significand() * pow2(sb);
        let sticky: nat = if n % d == 0 {
            0
        } else {
            1
        };
        rounded(negative, 2 * (n / d) + sticky, (a.exponent() - sa) - (b.exponent() - sb) - 63)
    }
}

/// Addition does not depend on the order of its operands.
pub proof fn sum_commutes(a: Binary64, b: Binary64)
    ensures
        sum(a, b) == sum(b, a),
{
}

/// Multiplication does not depend on the order of its operands.
pub proof fn product_commutes(a: Binary64, b: Binary64)
    ensures
        product(a, b) == product(b, a),
{
    lemma_mul_is_commutative(a.significand() as int, b.significand() as int);
}

/// The significand of a nonzero finite double shifted to 53 digits, and the
/// shift.
fn normalize(m: u64) -> (r: (u64, u32))
    requires
        0 < m < 2 * HIDDEN_BIT,
    ensures
        r.1 == normal_shift(m as nat),
        r.1 <= 52,
        r.0 == m * pow2(r.1 as nat),
        HIDDEN_BIT <= r.0 < 2 * HIDDEN_BIT,
{
    let len: u32 = bit_len(m as u128);
    proof {
        lemma_pow2_wide();
        lemma_bit_length_bounds(m as nat);
        if len > 53 {
            lemma_pow2_monotonic(53, (len - 1) as nat);
        }
    }
    let s: u32 = 53 - len;
    let p: u128 = pow2_u128(s);
    proof {
        lemma_scaled_below(m as nat, len as nat, s as nat);
        lemma_pow2_adds((len - 1) as nat, s as nat);
        lemma_mul_inequality(pow2((len - 1) as nat) as int, m as int, p as int);
    }
    (((m as u128) * p) as u64, s)
}

/// Rounds the sum of two signed integers in units of `2^e`.
fn round_total(na: bool, xa: u128, nb: bool, xb: u128, e: i32) -> (r: Binary64)
    requires
        xa < 0x80_0000_0000_0000_0000_0000_0000_0000,
        xb < 0x80_0000_0000_0000_0000_0000_0000_0000,
        -4000 <= e <= 4000,
    ensures
        r == rounded_total(
            (if na {
                -(xa as int)
            } else {
                xa as int
            }) + (if nb {
                -(xb as int)
            } else {
                xb as int
            }),
            e as int,
            na && nb,
        ),
{
    if na == nb {
        round_pack(na, xa + xb, e)
    } else if xa == xb {
        Binary64::with_sign(false, 0)
    } else if xa > xb {
        round_pack(na, xa - xb, e)
    } else {
        round_pack(nb, xb - xa, e)
    }
}

/// A normal significand `sa` that has `sb` added or taken away at least 56
/// places below its last digit rounds back to itself.
proof fn lemma_absorbed(negative: bool, sa: nat, ea: int, sb: nat, d: nat, s: nat)
    requires
        HIDDEN_BIT <= sa < 2 * HIDDEN_BIT,
        -1073 <= ea <= 971,
        sb < 2 * HIDDEN_BIT,
        d >= 56,
        s == sa * pow2(d) + sb || s == sa * pow2(d) - sb,
    ensures
        rounded(negative, s, ea - d) == signed(negative, ((ea + 1074) * HIDDEN_BIT + sa) as nat),
{
    let p: nat = pow2(d);
    let e: int = ea - d;
    lemma_pow2_wide();
    lemma2_to64_rest();
    lemma_pow2_monotonic(56, d);
    lemma_pow2_adds(52, d);
    lemma_pow2_adds(53, d);
    assert(pow2(52) * p <= sa * p) by {
        lemma_mul_inequality(pow2(52) as int, sa as int, p as int);
    }
    assert((sa + 1) * p <= pow2(53) * p) by {
        lemma_mul_inequality((sa + 1) as int, pow2(53) as int, p as int);
    }
    assert((sa + 1) * p == sa * p + p) by {
        lemma_mul_is_distributive_add_other_way(p as int, sa as int, 1);
    }
    assert((sa - 1) * p == sa * p - p) by {
        lemma_mul_is_distributive_add_other_way(p as int, (sa - 1) as int, 1);
    }
    if s == sa * p + sb || sb == 0 {
        lemma_bit_length_unique(s, 53 + d);
        assert(last_place(s, e) == ea);
        lemma_fundamental_div_mod_converse(s as int, p as int, sa as int, sb as int);
        assert(nearest_even(s, p) == sa);
        assert(kept_digits(s, e) == sa);
    } else if sa > HIDDEN_BIT {
        assert(pow2(52) * p <= (sa - 1) * p) by {
            lemma_mul_inequality(pow2(52) as int, (sa - 1) as int, p as int);
        }
        lemma_bit_length_unique(s, 53 + d);
        assert(last_place(s, e) == ea);
        lemma_fundamental_div_mod_converse(s as int, p as int, (sa - 1) as int, (p - sb) as int);
        assert(nearest_even(s, p) == sa);
        assert(kept_digits(s, e) == sa);
    } else {
        let h: nat = pow2((d - 1) as nat);
        lemma_pow2_unfold(d);
        lemma_pow2_monotonic(55, (d - 1) as nat);
        lemma_pow2_adds(52, (d - 1) as nat);
        lemma_pow2_adds(55, 0);
        assert(pow2(55) == 0x80_0000_0000_0000) by {
            lemma_pow2_adds(52, 3);
            lemma2_to64();
        }
        assert(sa * p == pow2(53) * h) by {
            lemma_mul_is_associative(pow2(52) as int, 2, h as int);
        }
        assert((pow2(53) - 1) * h == pow2(53) * h - h) by {
            lemma_mul_is_distributive_add_other_way(h as int, (pow2(53) - 1) as int, 1);
        }
        assert(pow2(52) * h <= (pow2(53) - 1) * h) by {
            lemma_mul_inequality(pow2(52) as int, (pow2(53) - 1) as int, h as int);
        }
        assert(53 + d - 1 == 52 + d);
        lemma_bit_length_unique(s, 52 + d);
        assert(last_place(s, e) == ea - 1);
        lemma_fundamental_div_mod_converse(
            s as int,
            h as int,
            (pow2(53) - 1) as int,
            (h - sb) as int,
        );
        assert(nearest_even(s, h) == pow2(53));
        assert(kept_digits(s, e) == pow2(53));
    }
}

/// A finite double whose exponent lies more than 64 above that of another
/// is their rounded sum.
proof fn lemma_sum_far_apart(a: Binary64, b: Binary64)
    requires
        a.is_finite(),
        b.is_finite(),
        a.exponent() - b.exponent() > 64,
    ensures
        sum(a, b) == a,
        sum(b, a) == a,
{
    let d: nat = (a.exponent() - b.exponent()) as nat;
    let e: int = b.exponent();
    let p: nat = pow2(d);
    lemma2_to64();
    lemma_pow2_wide();
    lemma_pow2_monotonic(56, d);
    assert(a.significand() * p >= pow2(52) * p) by {
        lemma_mul_inequality(pow2(52) as int, a.significand() as int, p as int);
    }
    assert(pow2(52) * p >= pow2(52) * pow2(56)) by {
        lemma_mul_left_inequality(pow2(52) as int, pow2(56) as int, p as int);
    }
    lemma_pow2_adds(52, 56);
    lemma_pow2_monotonic(53, 108);
    let big: nat = a.significand() * p;
    let small: nat = b.significand();
    assert(b.significand() * pow2(0) == small);
    assert(big > small);
    let s: nat = if a.negative() == b.negative() {
        big + small
    } else {
        (big - small) as nat
    };
    lemma_absorbed(a.negative(), a.significand(), a.exponent(), small, d, s);
    let total: int = scaled(a, e) + scaled(b, e);
    assert(total == if a.negative() {
        -(s as int)
    } else {
        s as int
    });
    assert(sum(a, b) == rounded_total(total, e, a.negative() && b.negative()));
    assert(sum(b, a) == rounded_total(scaled(b, e) + scaled(a, e), e, b.negative() && a.negative()));
}

impl Binary64 {
    /// `self + other`.
    pub fn plus(self, other: Binary64) -> (r: Binary64)
        ensures
            r == sum(self, other),
    {
        let na: bool = self.is_negative();
        let nb: bool = other.is_negative();
        let ma: u64 = self.abs_bits();
        let mb: u64 = other.abs_bits();
        if ma > INFINITY_BITS || mb > INFINITY_BITS {
            return Binary64 { bits: NAN_BITS };
        }
        if ma == INFINITY_BITS {
            if mb == INFINITY_BITS && na != nb {
                return Binary64 { bits: NAN_BITS };
            }
            return self;
        }
        if mb == INFINITY_BITS {
            return other;
        }
        let (sa, ea) = self.unpack();
        let (sb, eb) = other.unpack();
        proof {
            lemma2_to64();
            lemma_pow2_wide();
        }
        if ea >= eb {
            if ea - eb > 64 {
                proof {
                    lemma_sum_far_apart(self, other);
                }
                return self;
            }
            let p: u128 = pow2_u128((ea - eb) as u32);
            proof {
                lemma_pow2_monotonic((ea - eb) as nat, 64);
                lemma_mul_upper_bound(sa as int, 0x20_0000_0000_0000, p as int, pow2(64) as int);
                assert(sb * pow2(0) == sb);
                assert(scaled(self, eb as int) == if na {
                    -(sa * p)
                } else {
                    sa * p
                });
                assert(scaled(other, eb as int) == if nb {
                    -(sb as int)
                } else {
                    sb as int
                });
            }
            round_total(na, (sa as u128) * p, nb, sb as u128, eb)
        } else {
            if eb - ea > 64 {
                proof {
                    lemma_sum_far_apart(other, self);
                }
                return other;
            }
            let p: u128 = pow2_u128((eb - ea) as u32);
            proof {
                lemma_pow2_monotonic((eb - ea) as nat, 64);
                lemma_mul_upper_bound(sb as int, 0x20_0000_0000_0000, p as int, pow2(64) as int);
                assert(sa * pow2(0) == sa);
                assert(scaled(self, ea as int) == if na {
                    -(sa as int)
                } else {
                    sa as int
                });
                assert(scaled(other, ea as int) == if nb {
                    -(sb * p)
                } else {
                    sb * p
                });
            }
            round_total(na, sa as u128, nb, (sb as u128) * p, ea)
        }
    }

    /// `self - other`.
    pub fn minus(self, other: Binary64) -> (r: Binary64)
        ensures
            r == difference(self, other),
    {
        self.plus(other.neg())
    }

    /// `self * other`.
    pub fn times(self, other: Binary64) -> (r: Binary64)
        ensures
            r == product(self, other),
    {
        let negative: bool = self.is_negative() != other.is_negative();
        let ma: u64 = self.abs_bits();
        let mb: u64 = other.abs_bits();
        if ma > INFINITY_BITS || mb > INFINITY_BITS {
            return Binary64 { bits: NAN_BITS };
        }
        if ma == INFINITY_BITS || mb == INFINITY_BITS {
            if ma == 0 || mb == 0 {
                return Binary64 { bits: NAN_BITS };
            }
            return Binary64::with_sign(negative, INFINITY_BITS);
        }
        let (sa, ea) = self.unpack();
        let (sb, eb) = other.unpack();
        assert(sa * sb < 0x400_0000_0000_0000_0000_0000_0000) by (nonlinear_arith)
            requires
                sa < 0x20_0000_0000_0000,
                sb < 0x20_0000_0000_0000,
        ;
        round_pack(negative, (sa as u128) * (sb as u128), ea + eb)
    }

    /// `self / other`.
    pub fn over(self, other: Binary64) -> (r: Binary64)
        ensures
            r == quotient(self, other),
    {
        let negative: bool = self.is_negative() != other.is_negative();
        let ma: u64 = self.abs_bits();
        let mb: u64 = other.abs_bits();
        if ma > INFINITY_BITS || mb > INFINITY_BITS {
            return Binary64 { bits: NAN_BITS };
        }
        if ma == INFINITY_BITS {
            if mb == INFINITY_BITS {
                return Binary64 { bits: NAN_BITS };
            }
            return Binary64::with_sign(negative, INFINITY_BITS);
        }
        if mb == INFINITY_BITS {
            return Binary64::with_sign(negative, 0);
        }
        if mb == 0 {
            if ma == 0 {
                return Binary64 { bits: NAN_BITS };
            }
            return Binary64::with_sign(negative, INFINITY_BITS);
        }
        if ma == 0 {
            return Binary64::with_sign(negative, 0);
        }
        let (sa, ea) = self.unpack();
        let (sb, eb) = other.unpack();
        let (na, shift_a) = normalize(sa);
        let (nb, shift_b) = normalize(sb);
        proof {
            lemma_pow2_wide();
            lemma2_to64_rest();
        }
        let n: u128 = (na as u128) * 0x4000_0000_0000_0000;
        let d: u128 = nb as u128;
        let q: u128 = n / d;
        let rest: u128 = n % d;
        proof {
            lemma_multiply_divide_lt(n as int, d as int, 0x8000_0000_0000_0000);
        }
        let sticky: u128 = if rest == 0 {
            0
        } else {
            1
        };
        round_pack(
            negative,
            2 * q + sticky,
            (ea - (shift_a as i32)) - (eb - (shift_b as i32)) - 63,
        )
    }
}

} // verus!
