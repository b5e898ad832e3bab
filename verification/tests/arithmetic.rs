use mandelbrot::format::Binary64;

fn d(x: f64) -> Binary64 {
    Binary64::from_bits(x.to_bits())
}

fn same(got: Binary64, want: f64) -> bool {
    if want.is_nan() {
        f64::from_bits(got.to_bits()).is_nan()
    } else {
        got.to_bits() == want.to_bits()
    }
}

fn samples() -> Vec<f64> {
    let mut v = vec![
        0.0,
        -0.0,
        1.0,
        -1.0,
        2.0,
        0.5,
        3.0,
        0.1,
        -0.1,
        1.0 / 3.0,
        400.0,
        1000.0,
        std::f64::consts::LN_2,
        std::f64::consts::PI,
        1e-300,
        1e300,
        -1e300,
        1e-320,
        5e-324,
        -5e-324,
        f64::MIN_POSITIVE,
        f64::MAX,
        f64::MIN,
        f64::EPSILON,
        1.0 + f64::EPSILON,
        1.0 - f64::EPSILON / 2.0,
        f64::INFINITY,
        f64::NEG_INFINITY,
        f64::NAN,
        9007199254740992.0,
        9007199254740993.0,
        4503599627370496.5,
        1.5e-154,
        1.5e154,
        2.2250738585072009e-308,
        4.4501477170144023e-308,
    ];
    let mut state: u64 = 0x9e3779b97f4a7c15;
    for _ in 0..200 {
        state ^= state << 13;
        state ^= state >> 7;
        state ^= state << 17;
        v.push(f64::from_bits(state));
        let near_one = 0x3ff0_0000_0000_0000u64 ^ (state >> 12) ^ ((state & 7) << 52);
        v.push(f64::from_bits(near_one));
    }
    v
}

#[test]
fn product_matches_hardware() {
    let v = samples();
    for &a in &v {
        for &b in &v {
            assert!(same(d(a).times(d(b)), a * b), "{:e} * {:e}", a, b);
        }
    }
}

#[test]
fn quotient_matches_hardware() {
    let v = samples();
    for &a in &v {
        for &b in &v {
            assert!(same(d(a).over(d(b)), a / b), "{:e} / {:e}", a, b);
        }
    }
}

#[test]
fn sum_matches_hardware() {
    let v = samples();
    for &a in &v {
        for &b in &v {
            assert!(same(d(a).plus(d(b)), a + b), "{:e} + {:e}", a, b);
        }
    }
}

#[test]
fn difference_matches_hardware() {
    let v = samples();
    for &a in &v {
        for &b in &v {
            assert!(same(d(a).minus(d(b)), a - b), "{:e} - {:e}", a, b);
        }
    }
}
