use mandelbrot::power::{bit_len, pow2_u128};
use mandelbrot::rounding::round_pack;

#[test]
fn digit_counts() {
    assert_eq!(bit_len(0), 0);
    assert_eq!(bit_len(1), 1);
    assert_eq!(bit_len(2), 2);
    assert_eq!(bit_len(3), 2);
    assert_eq!(bit_len(255), 8);
    assert_eq!(bit_len(256), 9);
    assert_eq!(bit_len((1u128 << 64) - 1), 64);
    assert_eq!(bit_len(1u128 << 64), 65);
    assert_eq!(bit_len(u128::MAX), 128);
    for k in 0..128u32 {
        assert_eq!(bit_len(1u128 << k), k + 1);
        assert_eq!(128 - (1u128 << k).leading_zeros(), bit_len(1u128 << k));
    }
}

#[test]
fn powers_of_two() {
    assert_eq!(pow2_u128(0), 1);
    assert_eq!(pow2_u128(10), 1024);
    assert_eq!(pow2_u128(127), 1u128 << 127);
}

#[test]
fn rounding_is_to_nearest_even() {
    // exact values come back as they are
    assert_eq!(round_pack(false, 1, 0).to_bits(), 1.0f64.to_bits());
    assert_eq!(round_pack(true, 3, -1).to_bits(), (-1.5f64).to_bits());
    assert_eq!(round_pack(false, 0, 5).to_bits(), 0.0f64.to_bits());
    assert_eq!(round_pack(true, 0, 5).to_bits(), (-0.0f64).to_bits());
    assert_eq!(round_pack(false, 1, -1074).to_bits(), 1);
    // 2^53 + 1 is a tie between 2^53 and 2^53 + 2: the even significand wins
    assert_eq!(round_pack(false, (1u128 << 53) + 1, 0).to_bits(), 9007199254740992.0f64.to_bits());
    // 2^53 + 3 is a tie between 2^53 + 2 and 2^53 + 4
    assert_eq!(round_pack(false, (1u128 << 53) + 3, 0).to_bits(), 9007199254740996.0f64.to_bits());
    // just above a tie rounds up, just below it down
    assert_eq!(
        round_pack(false, (1u128 << 63) + (1u128 << 10) + 1, -10).to_bits(),
        9007199254740994.0f64.to_bits()
    );
    assert_eq!(
        round_pack(false, (1u128 << 63) + (1u128 << 10) - 1, -10).to_bits(),
        9007199254740992.0f64.to_bits()
    );
    // a carry out of the significand goes to the next power of two
    assert_eq!(round_pack(false, (1u128 << 54) - 1, 0).to_bits(), 18014398509481984.0f64.to_bits());
    // half of the smallest subnormal is a tie with zero, and zero is even
    assert_eq!(round_pack(false, 1, -1075).to_bits(), 0);
    assert_eq!(round_pack(false, 3, -1076).to_bits(), 1);
    assert_eq!(round_pack(false, 1, -3000).to_bits(), 0);
    // beyond the largest finite double lies infinity
    assert_eq!(round_pack(false, 1, 1024).to_bits(), f64::INFINITY.to_bits());
    assert_eq!(round_pack(true, 1, 3000).to_bits(), f64::NEG_INFINITY.to_bits());
    assert_eq!(round_pack(false, (1u128 << 53) - 1, 971).to_bits(), f64::MAX.to_bits());
    assert_eq!(round_pack(false, (1u128 << 54) - 1, 970).to_bits(), f64::INFINITY.to_bits());
}
