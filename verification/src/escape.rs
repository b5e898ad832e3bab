//! The escape-time iteration `z -> z^2 + c` from `z = 0`, counted until the
//! squared modulus passes the bailout.

use crate::arith::{difference, product, scaled, sum};
use crate::convert::{at_most, order_key};
use crate::format::Binary64;
use vstd::prelude::*;

verus! {

/// The bits of the double `2`.
pub const TWO_BITS: u64 = 0x4000_0000_0000_0000;

/// The double `+0`.
pub open spec fn zero() -> Binary64 {
    Binary64 { bits: 0 }
}

/// The double `2`.
pub open spec fn two() -> Binary64 {
    Binary64 { bits: TWO_BITS }
}

/// A point `x + iy` of the orbit together with the squares `x^2` and `y^2`.
#[derive(Clone, Copy, Debug, PartialEq, Eq, Structural)]
pub struct Orbit {
    pub x: Binary64,
    pub y: Binary64,
    pub xx: Binary64,
    pub yy: Binary64,
}

/// What the iteration at one point came to: the number of steps taken, and
/// the squared modulus it stopped at.
#[derive(Clone, Copy, Debug, PartialEq, Eq, Structural)]
pub struct Escape {
    pub iterations: u32,
    pub magnitude: Binary64,
}

/// The orbit's start, `z = 0`.
pub open spec fn orbit_start() -> Orbit {
    Orbit { x: zero(), y: zero(), xx: zero(), yy: zero() }
}

/// One step `z -> z^2 + c` for `c = x0 + i*y0`.
///
/// The new imaginary part is `2*x*y + y0`, from the old `x` and `y`; the new
/// real part is `xx - yy + x0`, from the squares kept at the step before;
/// the squares are then taken anew. Each operation rounds, in this order.
pub open spec fn orbit_step(z: Orbit, x0: Binary64, y0: Binary64) -> Orbit {
    let y = sum(product(product(two(), z.x), z.y), y0);
    let x = sum(difference(z.xx, z.yy), x0);
    Orbit { x, y, xx: product(x, x), yy: product(y, y) }
}

/// The orbit after `n` steps.
pub open spec fn orbit(n: nat, x0: Binary64, y0: Binary64) -> Orbit
    decreases n,
{
    if n == 0 {
        orbit_start()
    } else {
        orbit_step(orbit((n - 1) as nat, x0, y0), x0, y0)
    }
}

/// The squared modulus `xx + yy` of an orbit point.
pub open spec fn squared_modulus(z: Orbit) -> Binary64 {
    sum(z.xx, z.yy)
}

/// Whether the orbit point is still within the bailout: `xx + yy <= bailout`.
/// A NaN on either side counts as escaped.
pub open spec fn within(z: Orbit, bailout: Binary64) -> bool {
    at_most(squared_modulus(z), bailout)
}

/// The number of the first step from `n` on at which the orbit is no longer
/// within the bailout, and `max_iter` if there is none below it.
pub open spec fn escape_from(
    n: nat,
    x0: Binary64,
    y0: Binary64,
    bailout: Binary64,
    max_iter: nat,
) -> nat
    decreases max_iter - n,
{
    if n >= max_iter || !within(orbit(n, x0, y0), bailout) {
        n
    } else {
        escape_from(n + 1, x0, y0, bailout, max_iter)
    }
}

/// The escape iteration of the point `x0 + i*y0`: the least `n` whose orbit
/// point is not within the bailout, capped at `max_iter`.
pub open spec fn escape_count(x0: Binary64, y0: Binary64, bailout: Binary64, max_iter: nat) -> nat {
    escape_from(0, x0, y0, bailout, max_iter)
}

/// `escape_from` stops at the first step that is out of the bailout or at
/// the cap, and every step it passed over was within.
pub proof fn lemma_escape_from(n: nat, x0: Binary64, y0: Binary64, bailout: Binary64, max_iter: nat)
    requires
        n <= max_iter,
    ensures
        n <= escape_from(n, x0, y0, bailout, max_iter) <= max_iter,
        forall|k: nat|
            n <= k < escape_from(n, x0, y0, bailout, max_iter) ==> within(
                #[trigger] orbit(k, x0, y0),
                bailout,
            ),
        escape_from(n, x0, y0, bailout, max_iter) < max_iter ==> !within(
            orbit(escape_from(n, x0, y0, bailout, max_iter), x0, y0),
            bailout,
        ),
    decreases max_iter - n,
{
    if n < max_iter && within(orbit(n, x0, y0), bailout) {
        lemma_escape_from(n + 1, x0, y0, bailout, max_iter);
    }
}

/// The escape iteration is the least step that is out of the bailout, capped
/// at `max_iter`.
pub proof fn escape_count_is_least(x0: Binary64, y0: Binary64, bailout: Binary64, max_iter: nat)
    ensures
        escape_count(x0, y0, bailout, max_iter) <= max_iter,
        forall|k: nat|
            k < escape_count(x0, y0, bailout, max_iter) ==> within(
                #[trigger] orbit(k, x0, y0),
                bailout,
            ),
        escape_count(x0, y0, bailout, max_iter) < max_iter ==> !within(
            orbit(escape_count(x0, y0, bailout, max_iter), x0, y0),
            bailout,
        ),
{
    lemma_escape_from(0, x0, y0, bailout, max_iter);
}

/// Raising the bailout never lowers the escape iteration: a squared modulus
/// that is within the smaller bailout is within the larger one.
pub proof fn escape_count_monotonic(
    x0: Binary64,
    y0: Binary64,
    smaller: Binary64,
    larger: Binary64,
    max_iter: nat,
)
    requires
        at_most(smaller, larger),
    ensures
        escape_count(x0, y0, smaller, max_iter) <= escape_count(x0, y0, larger, max_iter),
{
    let low: nat = escape_count(x0, y0, smaller, max_iter);
    let high: nat = escape_count(x0, y0, larger, max_iter);
    escape_count_is_least(x0, y0, smaller, max_iter);
    escape_count_is_least(x0, y0, larger, max_iter);
    if high < low {
        let z: Orbit = orbit(high, x0, y0);
        assert(within(z, smaller));
        assert(!within(z, larger));
        assert(order_key(squared_modulus(z)) <= order_key(smaller));
    }
}

/// Sums, differences and products of `+0` with itself, and twice `+0`, are
/// `+0`.
pub proof fn lemma_zero_arithmetic()
    ensures
        sum(zero(), zero()) == zero(),
        difference(zero(), zero()) == zero(),
        product(zero(), zero()) == zero(),
        product(two(), zero()) == zero(),
{
    assert(zero().significand() == 0);
    assert(zero().exponent() == -1074);
    assert(zero().negated().significand() == 0);
    assert(zero().negated().exponent() == -1074);
    assert(scaled(zero(), -1074) == 0);
    assert(scaled(zero().negated(), -1074) == 0);
}

/// The orbit of `c = 0` stays at `0`.
pub proof fn lemma_origin_orbit(n: nat)
    ensures
        orbit(n, zero(), zero()) == orbit_start(),
    decreases n,
{
    if n > 0 {
        lemma_origin_orbit((n - 1) as nat);
        lemma_zero_arithmetic();
        assert(orbit_step(orbit_start(), zero(), zero()) == orbit_start());
    }
}

/// The point `c = 0` never escapes a bailout that is not negative: its
/// iteration always runs to the cap.
pub proof fn origin_never_escapes(bailout: Binary64, max_iter: nat)
    requires
        at_most(zero(), bailout),
    ensures
        escape_count(zero(), zero(), bailout, max_iter) == max_iter,
{
    escape_count_is_least(zero(), zero(), bailout, max_iter);
    let n: nat = escape_count(zero(), zero(), bailout, max_iter);
    if n < max_iter {
        lemma_origin_orbit(n);
        lemma_zero_arithmetic();
    }
}

/// Runs the iteration for `c = x0 + i*y0` until the squared modulus is no
/// longer within `bailout` or `max_iter` steps are done.
pub fn escape_time(x0: Binary64, y0: Binary64, bailout: Binary64, max_iter: u32) -> (r: Escape)
    ensures
        r.iterations == escape_count(x0, y0, bailout, max_iter as nat),
        r.magnitude == squared_modulus(orbit(r.iterations as nat, x0, y0)),
{
    let double: Binary64 = Binary64::from_bits(TWO_BITS);
    let mut i: u32 = 0;
    let mut x: Binary64 = Binary64::from_bits(0);
    let mut y: Binary64 = Binary64::from_bits(0);
    let mut xx: Binary64 = Binary64::from_bits(0);
    let mut yy: Binary64 = Binary64::from_bits(0);
    let mut magnitude: Binary64 = xx.plus(yy);
    while magnitude.le(bailout) && i < max_iter
        invariant
            i <= max_iter,
            double == two(),
            (Orbit { x, y, xx, yy }) == orbit(i as nat, x0, y0),
            magnitude == sum(xx, yy),
            escape_count(x0, y0, bailout, max_iter as nat) == escape_from(
                i as nat,
                x0,
                y0,
                bailout,
                max_iter as nat,
            ),
        decreases max_iter - i,
    {
        y = double.times(x).times(y).plus(y0);
        x = xx.minus(yy).plus(x0);
        xx = x.times(x);
        yy = y.times(y);
        i = i + 1;
        magnitude = xx.plus(yy);
    }
    Escape { iterations: i, magnitude }
}

} // verus!
