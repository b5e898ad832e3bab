use mandelbrot::escape::{escape_time, Escape};
use mandelbrot::format::Binary64;

fn d(x: f64) -> Binary64 {
    Binary64::from_bits(x.to_bits())
}

fn reference(x0: f64, y0: f64, bailout: f64, max_iter: u32) -> (u32, f64) {
    let mut i = 0;
    let mut x = 0.0;
    let mut y = 0.0;
    let mut xx = 0.0;
    let mut yy = 0.0;
    while xx + yy <= bailout && i < max_iter {
        y = 2.0 * x * y + y0;
        x = xx - yy + x0;
        xx = x * x;
        yy = y * y;
        i += 1;
    }
    (i, xx + yy)
}

fn points() -> Vec<(f64, f64)> {
    let mut v = vec![
        (0.0, 0.0),
        (2.0, 2.0),
        (-0.5, 0.0),
        (-0.75, 0.1),
        (0.3, 0.5),
        (-1.25, 0.0),
        (0.25, 0.0),
        (0.26, 0.0),
        (-2.0, 0.0),
        (-2.01, 0.0),
        (1e200, 1e200),
        (-0.1, 0.651),
        (0.001643721971153, -0.822467633298876),
    ];
    for i in 0..25 {
        for j in 0..25 {
            v.push((-2.2 + i as f64 * 0.13, -1.3 + j as f64 * 0.11));
        }
    }
    v
}

#[test]
fn origin_never_escapes() {
    for max_iter in [0u32, 1, 5, 1000, 5000] {
        let e = escape_time(d(0.0), d(0.0), d(1000.0), max_iter);
        assert_eq!(e.iterations, max_iter);
        assert_eq!(e.magnitude.to_bits(), 0);
    }
    assert_eq!(escape_time(d(0.0), d(0.0), d(0.0), 1000).iterations, 1000);
}

#[test]
fn far_point_escapes_within_five_iterations() {
    for max_iter in [5u32, 10, 1000, 100000, u32::MAX] {
        let e = escape_time(d(2.0), d(2.0), d(1000.0), max_iter);
        assert!(e.iterations <= 5);
        assert_eq!(e.iterations, 3);
        assert_eq!(e.magnitude.to_bits(), 10600.0f64.to_bits());
    }
    // a cap below the escape iteration is where it stops
    assert_eq!(escape_time(d(2.0), d(2.0), d(1000.0), 2).iterations, 2);
    assert_eq!(escape_time(d(2.0), d(2.0), d(1000.0), 0).iterations, 0);
}

#[test]
fn orbit_keeps_the_order_of_updates() {
    // c = 1 + i: after one step z = 1 + i with squares 1 and 1; after two,
    // y = 2*1*1 + 1 = 3 and x = 1 - 1 + 1 = 1, so the squared modulus is 10.
    let e = escape_time(d(1.0), d(1.0), d(5.0), 1000);
    assert_eq!(e, Escape { iterations: 2, magnitude: d(10.0) });
    let e = escape_time(d(1.0), d(1.0), d(1.0), 1000);
    assert_eq!(e, Escape { iterations: 1, magnitude: d(2.0) });
}

#[test]
fn escape_matches_hardware() {
    for &(x0, y0) in &points() {
        for &(bailout, max_iter) in &[(1000.0, 300u32), (4.0, 100), (0.5, 50), (1e6, 64)] {
            let e = escape_time(d(x0), d(y0), d(bailout), max_iter);
            let (i, m) = reference(x0, y0, bailout, max_iter);
            assert_eq!(e.iterations, i, "c = {:e} + {:e}i", x0, y0);
            if m.is_nan() {
                assert!(f64::from_bits(e.magnitude.to_bits()).is_nan());
            } else {
                assert_eq!(e.magnitude.to_bits(), m.to_bits(), "c = {:e} + {:e}i", x0, y0);
            }
        }
    }
}

#[test]
fn larger_bailout_never_escapes_sooner() {
    let bailouts = [-1.0, 0.0, 0.5, 1.0, 4.0, 16.0, 1000.0, 1e6, 1e300, f64::INFINITY];
    for &(x0, y0) in &points() {
        let mut last = 0;
        for &b in &bailouts {
            let e = escape_time(d(x0), d(y0), d(b), 200);
            assert!(e.iterations >= last, "c = {:e} + {:e}i at bailout {:e}", x0, y0, b);
            last = e.iterations;
        }
    }
}

#[test]
fn degenerate_bailouts_escape_at_once() {
    for b in [-1.0, f64::NEG_INFINITY, f64::NAN] {
        let e = escape_time(d(0.3), d(0.5), d(b), 1000);
        assert_eq!(e.iterations, 0);
        assert_eq!(e.magnitude.to_bits(), 0);
    }
}
