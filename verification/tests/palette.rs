use mandelbrot::format::Binary64;
use mandelbrot::palette::{color_lerp, palette_color, Color, PALETTE_LEN};
use mandelbrot::shading::gradient_color;

fn d(x: f64) -> Binary64 {
    Binary64::from_bits(x.to_bits())
}

fn table() -> [Color; 16] {
    [
        Color { r: 66, g: 30, b: 15, a: 255 },
        Color { r: 25, g: 7, b: 26, a: 255 },
        Color { r: 9, g: 1, b: 47, a: 255 },
        Color { r: 4, g: 4, b: 73, a: 255 },
        Color { r: 0, g: 7, b: 100, a: 255 },
        Color { r: 12, g: 44, b: 138, a: 255 },
        Color { r: 24, g: 82, b: 177, a: 255 },
        Color { r: 57, g: 125, b: 209, a: 255 },
        Color { r: 134, g: 181, b: 229, a: 255 },
        Color { r: 211, g: 236, b: 248, a: 255 },
        Color { r: 241, g: 233, b: 191, a: 255 },
        Color { r: 248, g: 201, b: 95, a: 255 },
        Color { r: 255, g: 170, b: 0, a: 255 },
        Color { r: 204, g: 128, b: 0, a: 255 },
        Color { r: 153, g: 87, b: 0, a: 255 },
        Color { r: 106, g: 52, b: 3, a: 255 },
    ]
}

fn lerp_reference(a: &Color, b: &Color, t: f64) -> Color {
    let one_minus_t = 1.0 - t;
    Color {
        r: (one_minus_t * a.r as f64 + t * b.r as f64) as u8,
        g: (one_minus_t * a.g as f64 + t * b.g as f64) as u8,
        b: (one_minus_t * a.b as f64 + t * b.b as f64) as u8,
        a: (one_minus_t * a.a as f64 + t * b.a as f64) as u8,
    }
}

fn fractions() -> Vec<f64> {
    let mut v = vec![0.0, 0.1, 0.25, 1.0 / 3.0, 0.5, 0.75, 0.9, 0.999999999999, 1.0 - f64::EPSILON / 2.0];
    let mut state: u64 = 0x853c49e6748fea9b;
    for _ in 0..500 {
        state ^= state << 13;
        state ^= state >> 7;
        state ^= state << 17;
        v.push((state >> 11) as f64 / (1u64 << 53) as f64);
    }
    v
}

#[test]
fn palette_holds_the_sixteen_entries() {
    assert_eq!(PALETTE_LEN, 16);
    let t = table();
    for i in 0..16usize {
        assert_eq!(palette_color(i), t[i]);
    }
}

#[test]
fn palette_index_wraps_modulo_sixteen() {
    let t = table();
    for i in 0..100usize {
        assert_eq!(palette_color(i), t[i % 16]);
        assert_eq!(palette_color(i + 16), palette_color(i));
    }
    assert_eq!(palette_color(usize::MAX), t[15]);
    assert_eq!(palette_color(16), t[0]);
    assert_eq!(palette_color(35), t[3]);
}

#[test]
fn lerp_matches_hardware() {
    let t = table();
    for i in 0..16usize {
        let a = t[i];
        let b = t[(i + 1) % 16];
        for &x in &fractions() {
            assert_eq!(color_lerp(&a, &b, d(x)), lerp_reference(&a, &b, x), "{} at {:e}", i, x);
        }
    }
}

#[test]
fn lerp_exact_values() {
    let a = Color { r: 0, g: 100, b: 200, a: 255 };
    let b = Color { r: 100, g: 200, b: 0, a: 255 };
    assert_eq!(color_lerp(&a, &b, d(0.0)), a);
    assert_eq!(color_lerp(&a, &b, d(1.0)), b);
    assert_eq!(color_lerp(&a, &b, d(0.5)), Color { r: 50, g: 150, b: 100, a: 255 });
    assert_eq!(color_lerp(&a, &b, d(0.25)), Color { r: 25, g: 125, b: 150, a: 255 });
    // 0.75 * 66 + 0.25 * 25 = 55.75, cut to 55
    let t = table();
    assert_eq!(color_lerp(&t[0], &t[1], d(0.25)).r, 55);
    // a NaN parameter gives zero in every channel, and so does one far out of range
    assert_eq!(color_lerp(&a, &b, d(f64::NAN)), Color { r: 0, g: 0, b: 0, a: 0 });
    assert_eq!(color_lerp(&a, &b, d(-5.0)), Color { r: 0, g: 0, b: 255, a: 255 });
}

#[test]
fn lerp_stays_between_the_two_colours() {
    let t = table();
    for i in 0..40usize {
        let a = palette_color(i);
        let b = palette_color(i + 1);
        assert_eq!(a, t[i % 16]);
        assert_eq!(b, t[(i + 1) % 16]);
        for &x in &fractions() {
            let c = color_lerp(&a, &b, d(x));
            assert!(a.r.min(b.r) <= c.r && c.r <= a.r.max(b.r));
            assert!(a.g.min(b.g) <= c.g && c.g <= a.g.max(b.g));
            assert!(a.b.min(b.b) <= c.b && c.b <= a.b.max(b.b));
            assert_eq!(c.a, 255);
        }
    }
}

#[test]
fn gradient_picks_neighbouring_entries() {
    let t = table();
    for k in 0..60u32 {
        // a whole count is the entry itself
        assert_eq!(gradient_color(d(k as f64)), t[(k % 16) as usize]);
        // halfway to the next
        let a = t[(k % 16) as usize];
        let b = t[((k + 1) % 16) as usize];
        assert_eq!(gradient_color(d(k as f64 + 0.5)), lerp_reference(&a, &b, 0.5));
    }
    // 17.25 wraps to entries 1 and 2
    assert_eq!(gradient_color(d(17.25)), lerp_reference(&t[1], &t[2], 0.25));
    // a negative count saturates to index 0; its fractional part is still count - floor(count)
    assert_eq!(gradient_color(d(-0.75)), lerp_reference(&t[0], &t[1], 0.25));
    // NaN: index 0, and a NaN blend is zero in every channel
    assert_eq!(gradient_color(d(f64::NAN)), Color { r: 0, g: 0, b: 0, a: 0 });
    // infinity: the index saturates, the fraction is NaN
    assert_eq!(gradient_color(d(f64::INFINITY)), Color { r: 0, g: 0, b: 0, a: 0 });
}
