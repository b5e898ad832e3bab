//! Smooth colouring: from an escape iteration and the logarithms of the
//! squared modulus to a colour between two palette entries.

use crate::arith::{difference, quotient};
use crate::convert::{floor, from_nat, saturated};
use crate::escape::{two, Escape, TWO_BITS};
use crate::format::Binary64;
use crate::palette::{
    blend, color_lerp, lemma_next_entry, palette_color, palette_cycle, Color,
};
use vstd::prelude::*;

verus! {

/// The bits of the double nearest to the natural logarithm of 2.
pub const LN_2_BITS: u64 = 0x3fe6_2e42_fefa_39ef;

/// The double nearest to the natural logarithm of 2.
pub open spec fn ln_2() -> Binary64 {
    Binary64 { bits: LN_2_BITS }
}

/// Opaque black, the colour of a point that never escaped.
pub open spec fn black() -> Color {
    Color { r: 0, g: 0, b: 0, a: 255 }
}

/// What the second logarithm is taken of: `(l / 2) / ln 2`, where `l` is the
/// logarithm of the squared modulus at escape.
pub open spec fn second_argument(first_log: Binary64) -> Binary64 {
    quotient(quotient(first_log, two()), ln_2())
}

/// The smooth iteration count `(i + 1) - l / ln 2`, where `l` is the second
/// logarithm.
pub open spec fn smooth_count(iterations: u32, second_log: Binary64) -> Binary64 {
    difference(from_nat((iterations + 1) as nat), quotient(second_log, ln_2()))
}

/// The colour at a smooth iteration count: the palette entries at its whole
/// part and the one after, both read cyclically, blended at its fractional
/// part.
pub open spec fn gradient(count: Binary64) -> Color {
    let whole = floor(count);
    let index = saturated(whole, usize::MAX as nat);
    blend(palette_cycle(index), palette_cycle(index + 1), difference(count, whole))
}

/// Whether `first` and `second` are what `ln` may return for the squared
/// modulus of `escape` and for the second argument that follows from
/// `first`, and `color` is the gradient at the smooth count they give.
pub open spec fn shaded_through<L: Fn(Binary64) -> Binary64>(
    escape: Escape,
    ln: L,
    first: Binary64,
    second: Binary64,
    color: Color,
) -> bool {
    &&& ln.ensures((escape.magnitude,), first)
    &&& ln.ensures((second_argument(first),), second)
    &&& color == gradient(smooth_count(escape.iterations, second))
}

/// Whether `color` is a colour of the escape `escape` under the logarithm
/// `ln`: black where the iteration ran to `max_iter`, and otherwise the
/// gradient at the smooth count that two results of `ln` give.
pub open spec fn shaded<L: Fn(Binary64) -> Binary64>(
    escape: Escape,
    max_iter: u32,
    ln: L,
    color: Color,
) -> bool {
    if escape.iterations == max_iter {
        color == black()
    } else {
        exists|first: Binary64, second: Binary64| #[trigger]
            shaded_through(escape, ln, first, second, color)
    }
}

/// Under a logarithm that gives one result for each argument, an escape has
/// one colour.
pub proof fn lemma_shade_is_deterministic<L: Fn(Binary64) -> Binary64>(
    escape: Escape,
    max_iter: u32,
    ln: L,
    a: Color,
    b: Color,
)
    requires
        shaded(escape, max_iter, ln, a),
        shaded(escape, max_iter, ln, b),
        forall|x: Binary64, y: Binary64, z: Binary64|
            #![trigger ln.ensures((x,), y), ln.ensures((x,), z)]
            ln.ensures((x,), y) && ln.ensures((x,), z) ==> y == z,
    ensures
        a == b,
{
    if escape.iterations != max_iter {
        let (a1, a2) = choose|first: Binary64, second: Binary64| #[trigger]
            shaded_through(escape, ln, first, second, a);
        let (b1, b2) = choose|first: Binary64, second: Binary64| #[trigger]
            shaded_through(escape, ln, first, second, b);
        assert(a1 == b1);
        assert(a2 == b2);
    }
}

/// The colour at a smooth iteration count.
pub fn gradient_color(count: Binary64) -> (c: Color)
    ensures
        c == gradient(count),
{
    let whole: Binary64 = count.floor();
    let index: usize = whole.to_usize();
    let a: Color = palette_color(index);
    let b: Color = palette_color((index % 16) + 1);
    proof {
        lemma_next_entry(index as nat);
    }
    color_lerp(&a, &b, count.minus(whole))
}

/// The colour of an escape, with `ln` called for the two logarithms of a
/// point that escaped.
pub fn shade<L: Fn(Binary64) -> Binary64>(escape: Escape, max_iter: u32, ln: &L) -> (c: Color)
    requires
        forall|x: Binary64| #[trigger] ln.requires((x,)),
    ensures
        shaded(escape, max_iter, *ln, c),
{
    if escape.iterations == max_iter {
        Color { r: 0, g: 0, b: 0, a: 255 }
    } else {
        let ln_2: Binary64 = Binary64::from_bits(LN_2_BITS);
        let first: Binary64 = ln(escape.magnitude);
        let second: Binary64 = ln(first.over(Binary64::from_bits(TWO_BITS)).over(ln_2));
        let count: Binary64 = Binary64::from_u64(escape.iterations as u64 + 1).minus(
            second.over(ln_2),
        );
        let c: Color = gradient_color(count);
        assert(shaded_through(escape, *ln, first, second, c));
        c
    }
}

} // verus!
