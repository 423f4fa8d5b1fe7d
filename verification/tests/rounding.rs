//! Rounding of quotients, on small numbers that can be checked by hand.
use mandelbrot::rounding::{count_bits, divide_half_even, power_of_two, round, Precision};

#[test]
fn digits_are_counted() {
    assert_eq!(count_bits(0), 0);
    assert_eq!(count_bits(1), 1);
    assert_eq!(count_bits(2), 2);
    assert_eq!(count_bits(3), 2);
    assert_eq!(count_bits(255), 8);
    assert_eq!(count_bits(256), 9);
    assert_eq!(count_bits(u128::MAX), 128);
    for k in 0..128u32 {
        assert_eq!(count_bits(1u128 << k), k + 1);
        assert_eq!(power_of_two(k), 1u128 << k);
    }
}

#[test]
fn ties_go_to_the_even_neighbour() {
    assert_eq!(divide_half_even(0, 7), 0);
    assert_eq!(divide_half_even(7, 2), 4);
    assert_eq!(divide_half_even(5, 2), 2);
    assert_eq!(divide_half_even(9, 2), 4);
    assert_eq!(divide_half_even(10, 4), 2);
    assert_eq!(divide_half_even(14, 4), 4);
    assert_eq!(divide_half_even(11, 4), 3);
    assert_eq!(divide_half_even(13, 4), 3);
    assert_eq!(divide_half_even(1, 3), 0);
    assert_eq!(divide_half_even(2, 3), 1);
    assert_eq!(divide_half_even(u128::MAX, 1), u128::MAX);
    assert_eq!(divide_half_even(u128::MAX, u128::MAX), 1);
    assert_eq!(divide_half_even(u128::MAX / 2, u128::MAX), 0);
    assert_eq!(divide_half_even(u128::MAX / 2 + 1, u128::MAX), 1);
}

#[test]
fn quotients_round_to_the_nearest_value() {
    assert_eq!(round(Precision::Double, 1, 1, 0), 1.0f64.to_bits());
    assert_eq!(round(Precision::Double, 1, 3, 0), (1.0f64 / 3.0).to_bits());
    assert_eq!(round(Precision::Double, 2, 3, 0), (2.0f64 / 3.0).to_bits());
    assert_eq!(round(Precision::Double, 1, 10, 0), 0.1f64.to_bits());
    assert_eq!(round(Precision::Double, 1, 100, 0), 0.01f64.to_bits());
    assert_eq!(round(Precision::Double, 105, 100, 0), 1.05f64.to_bits());
    assert_eq!(round(Precision::Double, 3, 1, -1), 1.5f64.to_bits());
    assert_eq!(round(Precision::Double, 3, 8, 4), 6.0f64.to_bits());
    assert_eq!(round(Precision::Single, 1, 3, 0), (1.0f32 / 3.0).to_bits() as u64);
    assert_eq!(round(Precision::Single, 1, 10, 0), 0.1f32.to_bits() as u64);
    assert_eq!(round(Precision::Single, 16_777_217, 1, 0), 16_777_216.0f32.to_bits() as u64);
}

#[test]
fn the_ends_of_the_range() {
    // The smallest positive values, and half of them.
    assert_eq!(round(Precision::Double, 1, 1, -1074), 1);
    assert_eq!(round(Precision::Double, 1, 1, -1075), 0);
    assert_eq!(round(Precision::Double, 3, 1, -1075), 2);
    assert_eq!(round(Precision::Double, 1, 1, -8000), 0);
    assert_eq!(round(Precision::Single, 1, 1, -149), 1);
    assert_eq!(round(Precision::Single, 1, 1, -150), 0);
    assert_eq!(round(Precision::Single, 3, 2, -149), 2);
    // The largest finite values, and what lies beyond.
    assert_eq!(round(Precision::Double, (1 << 53) - 1, 1, 971), f64::MAX.to_bits());
    assert_eq!(round(Precision::Double, (1 << 54) - 1, 1, 970), f64::INFINITY.to_bits());
    assert_eq!(round(Precision::Double, 1, 1, 1024), f64::INFINITY.to_bits());
    assert_eq!(round(Precision::Double, 1, 1, 8000), f64::INFINITY.to_bits());
    assert_eq!(round(Precision::Single, (1 << 24) - 1, 1, 104), f32::MAX.to_bits() as u64);
    assert_eq!(round(Precision::Single, 1, 1, 128), f32::INFINITY.to_bits() as u64);
    // Numerators and denominators as long as they may be.
    assert_eq!(round(Precision::Double, 1 << 62, u64::MAX, 0), 0.25f64.to_bits());
    assert_eq!(round(Precision::Double, (1 << 126) - 1, 1, -126), 1.0f64.to_bits());
}
