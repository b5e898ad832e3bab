//! The binary64 interchange format: how 64 bits are read as a sign, an
//! exponent and a significand.

use vstd::arithmetic::power2::pow2;
use vstd::prelude::*;

verus! {

/// The sign bit.
pub const SIGN_BIT: u64 = 0x8000_0000_0000_0000;

/// `2^52`: the hidden digit of a normal number, and the weight of the
/// exponent field.
pub const HIDDEN_BIT: u64 = 0x0010_0000_0000_0000;

/// The magnitude bits of an infinity; every larger magnitude is a NaN.
pub const INFINITY_BITS: u64 = 0x7ff0_0000_0000_0000;

/// The one NaN that this arithmetic produces.
pub const NAN_BITS: u64 = 0x7ff8_0000_0000_0000;

/// A double-precision number, held as its 64 bits.
///
/// A finite number is `(-1)^sign * significand * 2^exponent`. Two values are
/// equal under `==` when their bits are: `+0` and `-0` differ, and a NaN
/// equals itself. Numeric comparison is `le` and `lt`.
#[derive(Clone, Copy, Debug, PartialEq, Eq, Structural)]
pub struct Binary64 {
    pub bits: u64,
}

/// The number with the given sign and magnitude bits.
pub open spec fn signed(negative: bool, magnitude: nat) -> Binary64 {
    Binary64 {
        bits: (if negative {
            magnitude + SIGN_BIT
        } else {
            magnitude as int
        }) as u64,
    }
}

/// The NaN that operations return.
pub open spec fn nan() -> Binary64 {
    Binary64 { bits: NAN_BITS }
}

impl Binary64 {
    /// Whether the sign bit is set (it may be, on a zero or a NaN too).
    pub open spec fn negative(self) -> bool {
        self.bits >= SIGN_BIT
    }

    /// The 63 bits below the sign.
    pub open spec fn magnitude(self) -> nat {
        if self.bits >= SIGN_BIT {
            (self.bits - SIGN_BIT) as nat
        } else {
            self.bits as nat
        }
    }

    /// The exponent field, 0 to 2047.
    pub open spec fn biased_exponent(self) -> nat {
        self.magnitude() / (HIDDEN_BIT as nat)
    }

    /// The 52 stored digits of the significand.
    pub open spec fn fraction(self) -> nat {
        self.magnitude() % (HIDDEN_BIT as nat)
    }

    pub open spec fn is_nan(self) -> bool {
        self.magnitude() > INFINITY_BITS
    }

    pub open spec fn is_infinite(self) -> bool {
        self.magnitude() == INFINITY_BITS
    }

    /// Zero, subnormal or normal.
    pub open spec fn is_finite(self) -> bool {
        self.magnitude() < INFINITY_BITS
    }

    pub open spec fn is_zero(self) -> bool {
        self.magnitude() == 0
    }

    /// The significand of a finite number as an integer below `2^53`.
    pub open spec fn significand(self) -> nat {
        if self.biased_exponent() == 0 {
            self.fraction()
        } else {
            (self.fraction() + HIDDEN_BIT) as nat
        }
    }

    /// The power of two that the integer significand of a finite number is
    /// scaled by.
    pub open spec fn exponent(self) -> int {
        if self.biased_exponent() == 0 {
            -1074
        } else {
            self.biased_exponent() - 1075
        }
    }

    /// The magnitude of a finite number counted in units of `2^-1074`, the
    /// spacing of the smallest doubles: every finite double is a whole
    /// number of them.
    pub open spec fn units(self) -> nat {
        self.significand() * pow2((self.exponent() + 1074) as nat)
    }

    /// The same number with the sign bit flipped.
    pub open spec fn negated(self) -> Binary64 {
        signed(!self.negative(), self.magnitude())
    }

    pub fn from_bits(bits: u64) -> (r: Binary64)
        ensures
            r.bits == bits,
    {
        Binary64 { bits }
    }

    pub fn to_bits(self) -> (bits: u64)
        ensures
            bits == self.bits,
    {
        self.bits
    }

    pub fn is_negative(self) -> (r: bool)
        ensures
            r == self.negative(),
    {
        self.bits >= SIGN_BIT
    }

    /// The magnitude bits.
    pub fn abs_bits(self) -> (r: u64)
        ensures
            r == self.magnitude(),
            r < SIGN_BIT,
    {
        if self.bits >= SIGN_BIT {
            self.bits - SIGN_BIT
        } else {
            self.bits
        }
    }

    /// The significand and exponent of a finite number.
    pub fn unpack(self) -> (r: (u64, i32))
        requires
            self.is_finite(),
        ensures
            r.0 == self.significand(),
            r.1 == self.exponent(),
            r.0 < 2 * HIDDEN_BIT,
            -1074 <= r.1 <= 971,
            self.biased_exponent() > 0 ==> r.0 >= HIDDEN_BIT,
            self.biased_exponent() == 0 ==> r.1 == -1074 && r.0 < HIDDEN_BIT,
            r.0 == 0 <==> self.is_zero(),
    {
        let mag: u64 = self.abs_bits();
        let biased: u64 = mag >> 52;
        let fraction: u64 = mag & 0x000f_ffff_ffff_ffff;
        assert(biased == mag / 0x0010_0000_0000_0000) by (bit_vector)
            requires
                biased == mag >> 52,
        ;
        assert(fraction == mag % 0x0010_0000_0000_0000) by (bit_vector)
            requires
                fraction == mag & 0x000f_ffff_ffff_ffff,
        ;
        if biased == 0 {
            (fraction, -1074)
        } else {
            (fraction + HIDDEN_BIT, (biased as i32) - 1075)
        }
    }

    /// The number with the given sign and magnitude bits.
    pub fn with_sign(negative: bool, magnitude: u64) -> (r: Binary64)
        requires
            magnitude < SIGN_BIT,
        ensures
            r == signed(negative, magnitude as nat),
            r.negative() == negative,
            r.magnitude() == magnitude,
    {
        if negative {
            Binary64 { bits: magnitude + SIGN_BIT }
        } else {
            Binary64 { bits: magnitude }
        }
    }

    /// The number with the sign bit flipped.
    pub fn neg(self) -> (r: Binary64)
        ensures
            r == self.negated(),
    {
        Binary64::with_sign(!self.is_negative(), self.abs_bits())
    }
}

} // verus!
