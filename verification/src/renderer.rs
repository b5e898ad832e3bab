//! The viewport onto the complex plane and the renderer that owns it.

use crate::arith::{difference, product, quotient, sum};
use crate::convert::{from_nat, less};
use crate::escape::{
    escape_count, escape_count_is_least, escape_time, orbit, squared_modulus, two, zero, Escape,
    TWO_BITS,
};
use crate::format::Binary64;
use crate::palette::Color;
use crate::shading::{lemma_shade_is_deterministic, shade, shaded};
use vstd::arithmetic::div_mod::*;
use vstd::arithmetic::mul::*;
use vstd::prelude::*;

verus! {

/// The bits of the double `400`, the zoom of a new viewport.
pub const INITIAL_ZOOM_BITS: u64 = 0x4079_0000_0000_0000;

/// The bits of the double `1000`, the bailout of a new renderer.
pub const DEFAULT_BAILOUT_BITS: u64 = 0x408f_4000_0000_0000;

/// The iteration cap of a new renderer.
pub const DEFAULT_MAX_ITER: u32 = 1000;

/// Why a renderer could not be made or moved.
#[derive(Clone, Copy, Debug, PartialEq, Eq, Structural)]
pub enum RenderError {
    /// The width or the height is zero.
    InvalidDimensions,
    /// The zoom is not a number above zero.
    InvalidZoom,
}

/// The state of a renderer: the viewport with its derived bounds, and the
/// iteration settings.
pub struct Frame {
    pub width: u32,
    pub height: u32,
    pub center_x: Binary64,
    pub center_y: Binary64,
    pub x_min: Binary64,
    pub x_max: Binary64,
    pub y_min: Binary64,
    pub y_max: Binary64,
    pub zoom: Binary64,
    pub max_iter: u32,
    pub bailout: Binary64,
}

/// The double `400`.
pub open spec fn initial_zoom() -> Binary64 {
    Binary64 { bits: INITIAL_ZOOM_BITS }
}

/// The double `1000`.
pub open spec fn default_bailout() -> Binary64 {
    Binary64 { bits: DEFAULT_BAILOUT_BITS }
}

/// Half of what `pixels` pixels span in the plane at `zoom` pixels per unit:
/// `pixels / 2 / zoom`.
pub open spec fn half_extent(pixels: u32, zoom: Binary64) -> Binary64 {
    quotient(quotient(from_nat(pixels as nat), two()), zoom)
}

/// The frame centred on `(center_x, center_y)` at `zoom`, its four bounds
/// half an extent to either side of the centre.
pub open spec fn framed(
    width: u32,
    height: u32,
    center_x: Binary64,
    center_y: Binary64,
    zoom: Binary64,
    max_iter: u32,
    bailout: Binary64,
) -> Frame {
    Frame {
        width,
        height,
        center_x,
        center_y,
        x_min: difference(center_x, half_extent(width, zoom)),
        x_max: sum(center_x, half_extent(width, zoom)),
        y_min: difference(center_y, half_extent(height, zoom)),
        y_max: sum(center_y, half_extent(height, zoom)),
        zoom,
        max_iter,
        bailout,
    }
}

/// The frame of a new renderer: zoom 400, at most 1000 iterations, bailout
/// 1000.
pub open spec fn initial_frame(width: u32, height: u32, center_x: Binary64, center_y: Binary64) -> Frame {
    framed(
        width,
        height,
        center_x,
        center_y,
        initial_zoom(),
        DEFAULT_MAX_ITER,
        default_bailout(),
    )
}

/// The colour that the four bytes of pixel number `n` of `buf` hold.
pub open spec fn pixel(buf: Seq<u8>, n: int) -> Color {
    Color { r: buf[4 * n], g: buf[4 * n + 1], b: buf[4 * n + 2], a: buf[4 * n + 3] }
}

impl Frame {
    /// The four bounds lie half an extent to either side of the centre.
    pub open spec fn centered(self) -> bool {
        self == framed(
            self.width,
            self.height,
            self.center_x,
            self.center_y,
            self.zoom,
            self.max_iter,
            self.bailout,
        )
    }

    /// Both dimensions and the zoom are above zero, and the bounds are those
    /// of the centre and the zoom.
    pub open spec fn valid(self) -> bool {
        self.width > 0 && self.height > 0 && less(zero(), self.zoom) && self.centered()
    }

    /// The real coordinate of pixel column `px`:
    /// `px / width * (x_max - x_min) + x_min`.
    pub open spec fn real_at(self, px: int) -> Binary64 {
        sum(
            product(
                quotient(from_nat(px as nat), from_nat(self.width as nat)),
                difference(self.x_max, self.x_min),
            ),
            self.x_min,
        )
    }

    /// The imaginary coordinate of pixel row `py`:
    /// `py / height * (y_max - y_min) + y_min`.
    pub open spec fn imaginary_at(self, py: int) -> Binary64 {
        sum(
            product(
                quotient(from_nat(py as nat), from_nat(self.height as nat)),
                difference(self.y_max, self.y_min),
            ),
            self.y_min,
        )
    }

    /// What the iteration comes to at pixel `(px, py)`.
    pub open spec fn escape_at(self, px: int, py: int) -> Escape {
        let x0 = self.real_at(px);
        let y0 = self.imaginary_at(py);
        let n = escape_count(x0, y0, self.bailout, self.max_iter as nat);
        Escape { iterations: n as u32, magnitude: squared_modulus(orbit(n, x0, y0)) }
    }

    /// The frame after the camera is moved to the point under pixel
    /// `(px, py)` of this frame, at the zoom `zoom`.
    pub open spec fn moved(self, px: u32, py: u32, zoom: Binary64) -> Frame {
        framed(
            self.width,
            self.height,
            self.real_at(px as int),
            self.imaginary_at(py as int),
            zoom,
            self.max_iter,
            self.bailout,
        )
    }
}

/// Whether `buf` is a rendering of `frame` under the logarithm `ln`:
/// `width * height * 4` bytes, row after row from the top and pixel after
/// pixel from the left, four bytes R, G, B, A to a pixel, each pixel a colour
/// of what the iteration comes to there.
pub open spec fn rendered<L: Fn(Binary64) -> Binary64>(frame: Frame, ln: L, buf: Seq<u8>) -> bool {
    &&& buf.len() == frame.width * frame.height * 4
    &&& forall|px: int, py: int|
        0 <= px < frame.width && 0 <= py < frame.height ==> shaded(
            #[trigger] frame.escape_at(px, py),
            frame.max_iter,
            ln,
            pixel(buf, py * frame.width + px),
        )
}

/// A renderer of the Mandelbrot set: a viewport of `width` by `height`
/// pixels centred on a point of the plane at some zoom, an iteration cap
/// and a bailout.
pub struct Mandelbrot {
    width: u32,
    height: u32,
    look_at_x: Binary64,
    look_at_y: Binary64,
    x_min: Binary64,
    x_max: Binary64,
    y_min: Binary64,
    y_max: Binary64,
    zoom: Binary64,
    max_iter: u32,
    bailout: Binary64,
}

impl View for Mandelbrot {
    type V = Frame;

    closed spec fn view(&self) -> Frame {
        Frame {
            width: self.width,
            height: self.height,
            center_x: self.look_at_x,
            center_y: self.look_at_y,
            x_min: self.x_min,
            x_max: self.x_max,
            y_min: self.y_min,
            y_max: self.y_max,
            zoom: self.zoom,
            max_iter: self.max_iter,
            bailout: self.bailout,
        }
    }
}

/// `pixels / 2 / zoom`.
fn half_span(pixels: u32, zoom: Binary64) -> (r: Binary64)
    ensures
        r == half_extent(pixels, zoom),
{
    Binary64::from_u32(pixels).over(Binary64::from_bits(TWO_BITS)).over(zoom)
}

/// `index / count * span + low`.
fn pixel_coordinate(index: u32, count: u32, span: Binary64, low: Binary64) -> (r: Binary64)
    ensures
        r == sum(
            product(quotient(from_nat(index as nat), from_nat(count as nat)), span),
            low,
        ),
{
    Binary64::from_u32(index).over(Binary64::from_u32(count)).times(span).plus(low)
}

impl Mandelbrot {
    /// A renderer of `w` by `h` pixels centred on `(x, y)`, at zoom 400, with
    /// at most 1000 iterations and bailout 1000. A width or height of zero
    /// is refused.
    pub fn new(w: u32, h: u32, x: Binary64, y: Binary64) -> (r: Result<Mandelbrot, RenderError>)
        ensures
            match r {
                Ok(m) => w > 0 && h > 0 && m@ == initial_frame(w, h, x, y) && m@.valid(),
                Err(e) => (w == 0 || h == 0) && e == RenderError::InvalidDimensions,
            },
    {
        if w == 0 || h == 0 {
            return Err(RenderError::InvalidDimensions);
        }
        let zoom: Binary64 = Binary64::from_bits(INITIAL_ZOOM_BITS);
        let half_w: Binary64 = half_span(w, zoom);
        let half_h: Binary64 = half_span(h, zoom);
        Ok(
            Mandelbrot {
                width: w,
                height: h,
                look_at_x: x,
                look_at_y: y,
                x_min: x.minus(half_w),
                x_max: x.plus(half_w),
                y_min: y.minus(half_h),
                y_max: y.plus(half_h),
                zoom,
                max_iter: DEFAULT_MAX_ITER,
                bailout: Binary64::from_bits(DEFAULT_BAILOUT_BITS),
            },
        )
    }

    /// The width in pixels.
    pub fn width(&self) -> (w: u32)
        ensures
            w == self@.width,
    {
        self.width
    }

    /// The height in pixels.
    pub fn height(&self) -> (h: u32)
        ensures
            h == self@.height,
    {
        self.height
    }

    /// The zoom, in pixels per unit of the plane.
    pub fn get_zoom(&self) -> (zoom: Binary64)
        ensures
            zoom == self@.zoom,
    {
        self.zoom
    }

    /// The point of the plane that the viewport is centred on.
    pub fn center(&self) -> (c: (Binary64, Binary64))
        ensures
            c == (self@.center_x, self@.center_y),
    {
        (self.look_at_x, self.look_at_y)
    }

    /// The bounds of the viewport: `x_min`, `x_max`, `y_min`, `y_max`.
    pub fn bounds(&self) -> (b: (Binary64, Binary64, Binary64, Binary64))
        ensures
            b == (self@.x_min, self@.x_max, self@.y_min, self@.y_max),
    {
        (self.x_min, self.x_max, self.y_min, self.y_max)
    }

    /// Sets the iteration cap. Any value is taken; with 0 every pixel counts
    /// as not escaped.
    pub fn set_max_iter(&mut self, iter: u32)
        ensures
            final(self)@ == (Frame { max_iter: iter, ..old(self)@ }),
            old(self)@.valid() ==> final(self)@.valid(),
    {
        self.max_iter = iter;
    }

    /// Sets the bailout, the squared modulus beyond which a point counts as
    /// escaped. Any value is taken; below zero, or a NaN, every point
    /// escapes at once.
    pub fn set_bailout(&mut self, bailout: Binary64)
        ensures
            final(self)@ == (Frame { bailout, ..old(self)@ }),
            old(self)@.valid() ==> final(self)@.valid(),
    {
        self.bailout = bailout;
    }

    /// Moves the camera: the point under pixel `(client_x, client_y)` of the
    /// viewport as it is becomes the centre, and `zoom` the zoom; the four
    /// bounds follow. A zoom that is not above zero (a NaN is not) is
    /// refused, and the renderer stays as it was.
    pub fn set_camera(&mut self, client_x: u32, client_y: u32, zoom: Binary64) -> (r: Result<
        (),
        RenderError,
    >)
        ensures
            match r {
                Ok(_) => less(zero(), zoom) && final(self)@ == old(self)@.moved(
                    client_x,
                    client_y,
                    zoom,
                ),
                Err(e) => !less(zero(), zoom) && e == RenderError::InvalidZoom && final(self)@
                    == old(self)@,
            },
            old(self)@.valid() ==> final(self)@.valid(),
    {
        if !Binary64::from_bits(0).lt(zoom) {
            return Err(RenderError::InvalidZoom);
        }
        let x: Binary64 = pixel_coordinate(
            client_x,
            self.width,
            self.x_max.minus(self.x_min),
            self.x_min,
        );
        let y: Binary64 = pixel_coordinate(
            client_y,
            self.height,
            self.y_max.minus(self.y_min),
            self.y_min,
        );
        let half_w: Binary64 = half_span(self.width, zoom);
        let half_h: Binary64 = half_span(self.height, zoom);
        self.zoom = zoom;
        self.look_at_x = x;
        self.look_at_y = y;
        self.x_min = x.minus(half_w);
        self.x_max = x.plus(half_w);
        self.y_min = y.minus(half_h);
        self.y_max = y.plus(half_h);
        Ok(())
    }

    /// Renders the viewport: for every pixel, row after row from the top,
    /// the point it maps to is iterated and coloured, and its four bytes
    /// R, G, B, A are appended to a fresh buffer.
    ///
    /// `ln` is the natural logarithm that smooth colouring takes twice for
    /// every pixel that escapes; it is not called for the others.
    pub fn render<L: Fn(Binary64) -> Binary64>(&self, ln: L) -> (buf: Vec<u8>)
        requires
            forall|x: Binary64| #[trigger] ln.requires((x,)),
            self@.width * self@.height * 4 <= usize::MAX,
        ensures
            rendered(self@, ln, buf@),
    {
        let mut data: Vec<u8> = Vec::new();
        let x_diff: Binary64 = self.x_max.minus(self.x_min);
        let y_diff: Binary64 = self.y_max.minus(self.y_min);
        let ghost frame: Frame = self@;
        let ghost w: int = self.width as int;
        let mut py: u32 = 0;
        while py < self.height
            invariant
                frame == self@,
                w == self.width,
                py <= self.height,
                x_diff == difference(frame.x_max, frame.x_min),
                y_diff == difference(frame.y_max, frame.y_min),
                forall|x: Binary64| #[trigger] ln.requires((x,)),
                data@.len() == 4 * (py * w),
                forall|qx: int, qy: int|
                    0 <= qx < w && 0 <= qy < py ==> shaded(
                        #[trigger] frame.escape_at(qx, qy),
                        frame.max_iter,
                        ln,
                        pixel(data@, qy * w + qx),
                    ),
            decreases self.height - py,
        {
            let mut px: u32 = 0;
            while px < self.width
                invariant
                    frame == self@,
                    w == self.width,
                    py < self.height,
                    px <= self.width,
                    x_diff == difference(frame.x_max, frame.x_min),
                    y_diff == difference(frame.y_max, frame.y_min),
                    forall|x: Binary64| #[trigger] ln.requires((x,)),
                    data@.len() == 4 * (py * w + px),
                    forall|qx: int, qy: int|
                        0 <= qx < w && (0 <= qy < py || (qy == py && qx < px)) ==> shaded(
                            #[trigger] frame.escape_at(qx, qy),
                            frame.max_iter,
                            ln,
                            pixel(data@, qy * w + qx),
                        ),
                decreases self.width - px,
            {
                let x0: Binary64 = pixel_coordinate(px, self.width, x_diff, self.x_min);
                let y0: Binary64 = pixel_coordinate(py, self.height, y_diff, self.y_min);
                let escape: Escape = escape_time(x0, y0, self.bailout, self.max_iter);
                let c: Color = shade(escape, self.max_iter, &ln);
                let ghost before: Seq<u8> = data@;
                data.push(c.r);
                data.push(c.g);
                data.push(c.b);
                data.push(c.a);
                proof {
                    escape_count_is_least(x0, y0, self.bailout, self.max_iter as nat);
                    assert(escape == frame.escape_at(px as int, py as int));
                    assert(pixel(data@, py * w + px) == c);
                    assert forall|qx: int, qy: int|
                        0 <= qx < w && (0 <= qy < py || (qy == py && qx < px + 1)) implies shaded(
                        #[trigger] frame.escape_at(qx, qy),
                        frame.max_iter,
                        ln,
                        pixel(data@, qy * w + qx),
                    ) by {
                        if !(qy == py && qx == px) {
                            lemma_row_major(qx, qy, px as int, py as int, w);
                            assert(pixel(data@, qy * w + qx) == pixel(before, qy * w + qx));
                        }
                    }
                }
                px = px + 1;
            }
            proof {
                lemma_mul_is_distributive_add_other_way(w, py as int, 1);
            }
            py = py + 1;
        }
        proof {
            lemma_mul_is_commutative(self.width as int, self.height as int);
        }
        data
    }
}

/// In row-major order, a pixel of an earlier row, or to the left in the same
/// row, has the lower number.
proof fn lemma_row_major(qx: int, qy: int, px: int, py: int, w: int)
    requires
        0 <= qx < w,
        0 <= px < w,
        0 <= qy,
        qy < py || (qy == py && qx < px),
    ensures
        0 <= qy * w + qx < py * w + px,
{
    lemma_mul_nonnegative(qy, w);
    if qy < py {
        lemma_mul_inequality(qy + 1, py, w);
        lemma_mul_is_distributive_add_other_way(w, qy, 1);
    }
}

/// Byte `k` of a buffer of `w * h` pixels belongs to pixel `k / 4`, which
/// stands in row `(k / 4) / w` at column `(k / 4) % w`.
proof fn lemma_pixel_of_byte(k: int, w: int, h: int)
    requires
        0 <= w,
        0 <= h,
        0 <= k < w * h * 4,
    ensures
        w > 0,
        0 <= (k / 4) % w < w,
        0 <= (k / 4) / w < h,
        ((k / 4) / w) * w + (k / 4) % w == k / 4,
{
    let n: int = k / 4;
    let t: int = w * h;
    assert(n < t);
    assert(w > 0) by (nonlinear_arith)
        requires
            0 <= w,
            w * h > 0,
    ;
    lemma_fundamental_div_mod(n, w);
    lemma_mod_bound(n, w);
    lemma_mul_is_commutative(w, n / w);
    lemma_div_pos_is_pos(n, w);
    lemma_multiply_divide_lt(n, w, h);
}

/// Two renderings of one frame, under one logarithm that gives one result
/// for each argument, hold the same colour at every pixel.
proof fn lemma_same_pixel<L: Fn(Binary64) -> Binary64>(
    frame: Frame,
    ln: L,
    first: Seq<u8>,
    second: Seq<u8>,
    px: int,
    py: int,
)
    requires
        rendered(frame, ln, first),
        rendered(frame, ln, second),
        forall|x: Binary64, y: Binary64, z: Binary64|
            #![trigger ln.ensures((x,), y), ln.ensures((x,), z)]
            ln.ensures((x,), y) && ln.ensures((x,), z) ==> y == z,
        0 <= px < frame.width,
        0 <= py < frame.height,
    ensures
        pixel(first, py * frame.width + px) == pixel(second, py * frame.width + px),
{
    let escape: Escape = frame.escape_at(px, py);
    let a: Color = pixel(first, py * frame.width + px);
    let b: Color = pixel(second, py * frame.width + px);
    assert(shaded(escape, frame.max_iter, ln, a));
    assert(shaded(escape, frame.max_iter, ln, b));
    lemma_shade_is_deterministic(escape, frame.max_iter, ln, a, b);
}

/// Rendering is a function of the frame and the logarithm: two renderings of
/// one frame, under one logarithm that gives one result for each argument,
/// are the same bytes.
pub proof fn render_is_deterministic<L: Fn(Binary64) -> Binary64>(
    frame: Frame,
    ln: L,
    first: Seq<u8>,
    second: Seq<u8>,
)
    requires
        rendered(frame, ln, first),
        rendered(frame, ln, second),
        forall|x: Binary64, y: Binary64, z: Binary64|
            #![trigger ln.ensures((x,), y), ln.ensures((x,), z)]
            ln.ensures((x,), y) && ln.ensures((x,), z) ==> y == z,
    ensures
        first == second,
{
    let w: int = frame.width as int;
    let h: int = frame.height as int;
    assert(first.len() == w * h * 4);
    assert(second.len() == w * h * 4);
    assert forall|k: int| 0 <= k < first.len() implies first[k] == second[k] by {
        lemma_pixel_of_byte(k, w, h);
        let n: int = k / 4;
        lemma_same_pixel(frame, ln, first, second, n % w, n / w);
        let a: Color = pixel(first, n);
        let b: Color = pixel(second, n);
        assert(a == b);
        assert(a.r == b.r && a.g == b.g && a.b == b.b && a.a == b.a);
        assert(k == 4 * n || k == 4 * n + 1 || k == 4 * n + 2 || k == 4 * n + 3);
    }
    assert(first =~= second);
}

} // verus!
