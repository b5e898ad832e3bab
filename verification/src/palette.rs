//! The sixteen colours of the gradient, and blending between two of them.

use crate::arith::{difference, product, sum};
use crate::convert::{from_nat, saturated};
use crate::format::Binary64;
use vstd::prelude::*;

verus! {

/// The number of palette entries.
pub const PALETTE_LEN: usize = 16;

/// The bits of the double `1`.
pub const ONE_BITS: u64 = 0x3ff0_0000_0000_0000;

/// An RGBA colour with 8-bit channels.
#[derive(Clone, Copy, Debug, PartialEq, Eq, Structural)]
pub struct Color {
    pub r: u8,
    pub g: u8,
    pub b: u8,
    pub a: u8,
}

/// The double `1`.
pub open spec fn one() -> Binary64 {
    Binary64 { bits: ONE_BITS }
}

/// The palette entry at `index`, for an index below 16: from dark brown
/// through blues and white to orange and back.
pub open spec fn palette_entry(index: int) -> Color {
    if index == 0 {
        Color { r: 66, g: 30, b: 15, a: 255 }
    } else if index == 1 {
        Color { r: 25, g: 7, b: 26, a: 255 }
    } else if index == 2 {
        Color { r: 9, g: 1, b: 47, a: 255 }
    } else if index == 3 {
        Color { r: 4, g: 4, b: 73, a: 255 }
    } else if index == 4 {
        Color { r: 0, g: 7, b: 100, a: 255 }
    } else if index == 5 {
        Color { r: 12, g: 44, b: 138, a: 255 }
    } else if index == 6 {
        Color { r: 24, g: 82, b: 177, a: 255 }
    } else if index == 7 {
        Color { r: 57, g: 125, b: 209, a: 255 }
    } else if index == 8 {
        Color { r: 134, g: 181, b: 229, a: 255 }
    } else if index == 9 {
        Color { r: 211, g: 236, b: 248, a: 255 }
    } else if index == 10 {
        Color { r: 241, g: 233, b: 191, a: 255 }
    } else if index == 11 {
        Color { r: 248, g: 201, b: 95, a: 255 }
    } else if index == 12 {
        Color { r: 255, g: 170, b: 0, a: 255 }
    } else if index == 13 {
        Color { r: 204, g: 128, b: 0, a: 255 }
    } else if index == 14 {
        Color { r: 153, g: 87, b: 0, a: 255 }
    } else {
        Color { r: 106, g: 52, b: 3, a: 255 }
    }
}

/// The palette read cyclically: the entry at `index` modulo 16.
pub open spec fn palette_cycle(index: nat) -> Color {
    palette_entry((index % 16) as int)
}

/// One channel of a blend: `(1 - t) * a + t * b` in double precision, cut
/// towards zero to 8 bits.
pub open spec fn blend_channel(a: u8, b: u8, t: Binary64) -> u8 {
    saturated(
        sum(product(difference(one(), t), from_nat(a as nat)), product(t, from_nat(b as nat))),
        255,
    ) as u8
}

/// The blend of two colours at `t`, channel by channel.
pub open spec fn blend(a: Color, b: Color, t: Binary64) -> Color {
    Color {
        r: blend_channel(a.r, b.r, t),
        g: blend_channel(a.g, b.g, t),
        b: blend_channel(a.b, b.b, t),
        a: blend_channel(a.a, b.a, t),
    }
}

/// Reading the palette sixteen entries further on gives the same colour.
pub proof fn palette_wraps(index: nat)
    ensures
        palette_cycle(index + 16) == palette_cycle(index),
        palette_cycle(index) == palette_entry((index % 16) as int),
        0 <= index % 16 < 16,
{
}

/// The entry after `index` can be found from `index` modulo 16.
pub proof fn lemma_next_entry(index: nat)
    ensures
        palette_cycle((index % 16 + 1) as nat) == palette_cycle(index + 1),
{
    assert((index % 16 + 1) % 16 == (index + 1) % 16);
}

/// The palette entry at `index` modulo 16.
pub fn palette_color(index: usize) -> (c: Color)
    ensures
        c == palette_cycle(index as nat),
{
    let k: usize = index % PALETTE_LEN;
    if k == 0 {
        Color { r: 66, g: 30, b: 15, a: 255 }
    } else if k == 1 {
        Color { r: 25, g: 7, b: 26, a: 255 }
    } else if k == 2 {
        Color { r: 9, g: 1, b: 47, a: 255 }
    } else if k == 3 {
        Color { r: 4, g: 4, b: 73, a: 255 }
    } else if k == 4 {
        Color { r: 0, g: 7, b: 100, a: 255 }
    } else if k == 5 {
        Color { r: 12, g: 44, b: 138, a: 255 }
    } else if k == 6 {
        Color { r: 24, g: 82, b: 177, a: 255 }
    } else if k == 7 {
        Color { r: 57, g: 125, b: 209, a: 255 }
    } else if k == 8 {
        Color { r: 134, g: 181, b: 229, a: 255 }
    } else if k == 9 {
        Color { r: 211, g: 236, b: 248, a: 255 }
    } else if k == 10 {
        Color { r: 241, g: 233, b: 191, a: 255 }
    } else if k == 11 {
        Color { r: 248, g: 201, b: 95, a: 255 }
    } else if k == 12 {
        Color { r: 255, g: 170, b: 0, a: 255 }
    } else if k == 13 {
        Color { r: 204, g: 128, b: 0, a: 255 }
    } else if k == 14 {
        Color { r: 153, g: 87, b: 0, a: 255 }
    } else {
        Color { r: 106, g: 52, b: 3, a: 255 }
    }
}

/// One channel of a blend.
fn lerp_channel(a: u8, b: u8, t: Binary64, one_minus_t: Binary64) -> (r: u8)
    requires
        one_minus_t == difference(one(), t),
    ensures
        r == blend_channel(a, b, t),
{
    one_minus_t.times(Binary64::from_u32(a as u32)).plus(t.times(Binary64::from_u32(b as u32))).to_u8()
}

/// The blend of `a` and `b` at `t`: `a` at 0, towards `b` as `t` nears 1.
pub fn color_lerp(a: &Color, b: &Color, t: Binary64) -> (c: Color)
    ensures
        c == blend(*a, *b, t),
{
    let one_minus_t: Binary64 = Binary64::from_bits(ONE_BITS).minus(t);
    Color {
        r: lerp_channel(a.r, b.r, t, one_minus_t),
        g: lerp_channel(a.g, b.g, t, one_minus_t),
        b: lerp_channel(a.b, b.b, t, one_minus_t),
        a: lerp_channel(a.a, b.a, t, one_minus_t),
    }
}

} // verus!
