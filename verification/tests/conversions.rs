use mandelbrot::format::Binary64;

fn d(x: f64) -> Binary64 {
    Binary64::from_bits(x.to_bits())
}

fn f(x: Binary64) -> f64 {
    f64::from_bits(x.to_bits())
}

fn same(got: Binary64, want: f64) -> bool {
    if want.is_nan() {
        f(got).is_nan()
    } else {
        got.to_bits() == want.to_bits()
    }
}

fn samples() -> Vec<f64> {
    let mut v = vec![
        0.0,
        -0.0,
        0.25,
        -0.25,
        0.5,
        -0.5,
        0.999999999999,
        1.0,
        -1.0,
        1.5,
        -1.5,
        2.5,
        -2.5,
        15.99,
        16.0,
        17.3,
        254.999,
        255.0,
        255.5,
        256.0,
        -3.7,
        1e10,
        4294967295.0,
        4294967296.0,
        4294967296.5,
        4503599627370495.5,
        4503599627370496.0,
        9007199254740992.0,
        1.8446744073709552e19,
        1.8446744073709550e19,
        3.0e19,
        1e300,
        -1e300,
        5e-324,
        -5e-324,
        f64::MIN_POSITIVE,
        f64::MAX,
        f64::INFINITY,
        f64::NEG_INFINITY,
        f64::NAN,
    ];
    let mut state: u64 = 0x2545f4914f6cdd1d;
    for _ in 0..400 {
        state ^= state << 13;
        state ^= state >> 7;
        state ^= state << 17;
        v.push(f64::from_bits(state));
        let exponent = 1023 - 4 + (state % 72);
        v.push(f64::from_bits((exponent << 52) | (state >> 12)));
        v.push(-f64::from_bits((exponent << 52) | (state >> 12)));
    }
    v
}

#[test]
fn bits_round_trip() {
    assert_eq!(Binary64::from_bits(0x4000_0000_0000_0000).to_bits(), 2.0f64.to_bits());
    assert_eq!(d(1.0).to_bits(), 0x3ff0_0000_0000_0000);
    assert_eq!(d(-0.0).to_bits(), 0x8000_0000_0000_0000);
}

#[test]
fn negation_flips_the_sign() {
    for &a in &samples() {
        assert_eq!(d(a).neg().to_bits(), (-a).to_bits(), "{:e}", a);
    }
    assert!(d(-2.0).is_negative());
    assert!(!d(2.0).is_negative());
    assert!(d(-0.0).is_negative());
    assert_eq!(d(-2.0).abs_bits(), 2.0f64.to_bits());
}

#[test]
fn unpack_gives_significand_and_exponent() {
    assert_eq!(d(1.0).unpack(), (1u64 << 52, -52));
    assert_eq!(d(3.0).unpack(), (3u64 << 51, -51));
    assert_eq!(d(5e-324).unpack(), (1, -1074));
    assert_eq!(d(0.0).unpack(), (0, -1074));
    assert_eq!(d(f64::MAX).unpack(), ((1u64 << 53) - 1, 971));
    assert_eq!(Binary64::with_sign(true, 2.0f64.to_bits()).to_bits(), (-2.0f64).to_bits());
}

#[test]
fn from_integers_matches_hardware() {
    for n in [0u32, 1, 2, 3, 15, 16, 100, 255, 999, 1000, 65535, 16777217, u32::MAX] {
        assert_eq!(Binary64::from_u32(n).to_bits(), (n as f64).to_bits(), "{}", n);
    }
    for n in [
        0u64,
        1,
        4294967296,
        9007199254740991,
        9007199254740992,
        9007199254740993,
        9007199254740995,
        18014398509481985,
        u64::MAX - 1,
        u64::MAX,
    ] {
        assert_eq!(Binary64::from_u64(n).to_bits(), (n as f64).to_bits(), "{}", n);
    }
}

#[test]
fn floor_matches_hardware() {
    for &a in &samples() {
        assert!(same(d(a).floor(), a.floor()), "floor {:e}", a);
    }
    assert_eq!(d(-0.5).floor().to_bits(), (-1.0f64).to_bits());
    assert_eq!(d(-0.0).floor().to_bits(), (-0.0f64).to_bits());
    assert_eq!(d(0.5).floor().to_bits(), 0.0f64.to_bits());
    assert_eq!(d(17.3).floor().to_bits(), 17.0f64.to_bits());
}

#[test]
fn casts_match_hardware() {
    for &a in &samples() {
        assert_eq!(d(a).to_u8(), a as u8, "{:e} as u8", a);
        assert_eq!(d(a).to_usize(), a as usize, "{:e} as usize", a);
        assert_eq!(d(a).saturating_to(1000), (a as u64).min(1000), "{:e} to 1000", a);
    }
    assert_eq!(d(255.999).to_u8(), 255);
    assert_eq!(d(256.0).to_u8(), 255);
    assert_eq!(d(-1.0).to_u8(), 0);
    assert_eq!(d(f64::NAN).to_u8(), 0);
    assert_eq!(d(f64::NAN).to_usize(), 0);
    assert_eq!(d(f64::INFINITY).to_usize(), usize::MAX);
    assert_eq!(d(17.9).to_usize(), 17);
}

#[test]
fn order_matches_hardware() {
    let v = samples();
    for &a in &v {
        for &b in &v {
            assert_eq!(d(a).le(d(b)), a <= b, "{:e} <= {:e}", a, b);
            assert_eq!(d(a).lt(d(b)), a < b, "{:e} < {:e}", a, b);
        }
    }
    assert!(d(-0.0).le(d(0.0)));
    assert!(d(0.0).le(d(-0.0)));
    assert!(!d(0.0).lt(d(-0.0)));
    assert!(!d(f64::NAN).le(d(f64::NAN)));
}
