//! The arithmetic on encodings against the floating-point unit of the machine.
use mandelbrot::ieee::{Binary32, Binary64};

fn value(x: f64) -> Binary64 {
    Binary64 { bits: x.to_bits() }
}

/// Equal as results of an operation: the same encoding, or both NaN.
fn agree(ours: Binary64, theirs: f64) -> bool {
    if theirs.is_nan() {
        f64::from_bits(ours.bits).is_nan()
    } else {
        ours.bits == theirs.to_bits()
    }
}

struct Random(u64);

impl Random {
    fn next(&mut self) -> u64 {
        self.0 ^= self.0 << 13;
        self.0 ^= self.0 >> 7;
        self.0 ^= self.0 << 17;
        self.0
    }

    /// An encoding, with the edges of the format well represented.
    fn encoding(&mut self) -> u64 {
        let special = [
            0u64,
            1 << 63,
            0x7ff0_0000_0000_0000,
            0xfff0_0000_0000_0000,
            0x7ff8_0000_0000_0000,
            0x7ff0_0000_0000_0001,
            1,
            (1 << 63) | 1,
            0x000f_ffff_ffff_ffff,
            0x0010_0000_0000_0000,
            0x7fef_ffff_ffff_ffff,
            1.0f64.to_bits(),
            2.0f64.to_bits(),
            1.05f64.to_bits(),
            0.01f64.to_bits(),
            (-0.5f64).to_bits(),
        ];
        let r = self.next();
        match r % 8 {
            0 => special[(self.next() % 16) as usize],
            1 => self.next(),
            2 => self.next() & 0x800f_ffff_ffff_ffff,
            3 => (self.next() & 0x800f_ffff_ffff_ffff) | ((1000 + self.next() % 50) << 52),
            4 => (self.next() & 0x800f_ffff_ffff_ffff) | ((1 + self.next() % 60) << 52),
            5 => (self.next() & 0x800f_ffff_ffff_ffff) | ((1990 + self.next() % 57) << 52),
            6 => (self.next() & 0x8000_0000_0000_0000) | ((1 + self.next() % 2046) << 52),
            _ => (self.next() & 0x800f_ffff_ffff_ffff) | ((1 + self.next() % 2046) << 52),
        }
    }
}

#[test]
fn product_is_the_machines() {
    let mut random = Random(0x9e37_79b9_7f4a_7c15);
    for _ in 0..200_000 {
        let (a, b) = (random.encoding(), random.encoding());
        let (x, y) = (f64::from_bits(a), f64::from_bits(b));
        let ours = Binary64 { bits: a }.times(Binary64 { bits: b });
        assert!(agree(ours, x * y), "{:#x} * {:#x} gave {:#x}", a, b, ours.bits);
    }
}

#[test]
fn quotient_is_the_machines() {
    let mut random = Random(0x1234_5678_9abc_def1);
    for _ in 0..200_000 {
        let (a, b) = (random.encoding(), random.encoding());
        let (x, y) = (f64::from_bits(a), f64::from_bits(b));
        let ours = Binary64 { bits: a }.over(Binary64 { bits: b });
        assert!(agree(ours, x / y), "{:#x} / {:#x} gave {:#x}", a, b, ours.bits);
    }
}

#[test]
fn sum_and_difference_are_the_machines() {
    let mut random = Random(0x0fed_cba9_8765_4321);
    for round in 0..200_000 {
        let a = random.encoding();
        let mut b = random.encoding();
        if round % 4 == 0 {
            // Exponents close to each other, so that digits cancel.
            let near = ((a >> 52) & 0x7ff).wrapping_add(random.next() % 5).wrapping_sub(2) & 0x7ff;
            b = (b & 0x800f_ffff_ffff_ffff) | (near << 52);
        }
        let (x, y) = (f64::from_bits(a), f64::from_bits(b));
        let sum = Binary64 { bits: a }.plus(Binary64 { bits: b });
        assert!(agree(sum, x + y), "{:#x} + {:#x} gave {:#x}", a, b, sum.bits);
        let difference = Binary64 { bits: a }.minus(Binary64 { bits: b });
        assert!(agree(difference, x - y), "{:#x} - {:#x} gave {:#x}", a, b, difference.bits);
    }
}

#[test]
fn sum_of_far_apart_values_is_the_larger() {
    let big = value(1.0e30);
    let small = value(1.0e-30);
    assert_eq!(big.plus(small), big);
    assert_eq!(small.plus(big), big);
    assert_eq!(big.minus(small), big);
    assert_eq!(small.minus(big), value(-1.0e30));
    // Just below a power of two the unit in the last place halves.
    let power = value(4.0);
    assert_eq!(power.minus(value(1.0e-40)), power);
}

#[test]
fn zeros_keep_their_signs() {
    let (plus, minus) = (value(0.0), value(-0.0));
    assert_eq!(plus.plus(minus), plus);
    assert_eq!(minus.plus(minus), minus);
    assert_eq!(value(1.5).minus(value(1.5)), plus);
    assert_eq!(minus.times(value(3.0)), minus);
    assert_eq!(minus.over(value(-3.0)), plus);
    assert_eq!(value(1.0).over(minus), value(f64::NEG_INFINITY));
}

#[test]
fn nan_results_are_canonical() {
    let nan = 0x7ff8_0000_0000_0000u64;
    assert_eq!(value(0.0).over(value(0.0)).bits, nan);
    assert_eq!(value(f64::INFINITY).minus(value(f64::INFINITY)).bits, nan);
    assert_eq!(value(f64::INFINITY).times(value(0.0)).bits, nan);
    assert_eq!(Binary64 { bits: 0xfff0_0000_dead_beef }.plus(value(1.0)).bits, nan);
    assert_eq!(Binary64 { bits: 0xfff0_0000_dead_beef }.narrowed().bits, 0x7fc0_0000);
}

#[test]
fn subnormal_results_round_to_even() {
    let tiny = Binary64 { bits: 1 };
    // Half of the smallest value is a tie between 0 and that value: 0 is even.
    assert_eq!(tiny.times(value(0.5)).bits, 0);
    assert_eq!(Binary64 { bits: 3 }.times(value(0.5)).bits, 2);
    assert_eq!(tiny.over(value(1.05)).bits, 1);
    assert_eq!(value(f64::MAX).times(value(2.0)), value(f64::INFINITY));
}

#[test]
fn narrowing_is_the_machines() {
    let mut random = Random(0x5555_aaaa_3333_cccc);
    for round in 0..200_000 {
        let mut a = random.encoding();
        if round % 2 == 0 {
            // Within and around the range of single precision.
            a = (a & 0x800f_ffff_ffff_ffff) | ((1023 - 160 + random.next() % 300) << 52);
        }
        let x = f64::from_bits(a);
        let ours = Binary64 { bits: a }.narrowed();
        let theirs = x as f32;
        if theirs.is_nan() {
            assert_eq!(ours.bits, 0x7fc0_0000);
        } else {
            assert_eq!(ours.bits, theirs.to_bits(), "narrowing {:#x}", a);
        }
    }
}

#[test]
fn counts_are_the_machines() {
    let mut random = Random(0x0bad_cafe_f00d_d00d);
    for round in 0..200_000u32 {
        let n = match round % 5 {
            0 => round,
            1 => u32::MAX - round,
            2 => (1 << 24) + round % 64,
            3 => (random.next() >> 32) as u32,
            _ => (random.next() >> (32 + random.next() % 32)) as u32,
        };
        assert_eq!(Binary64::from_count(n).bits, (n as f64).to_bits());
        assert_eq!(Binary32::from_count(n).bits, (n as f32).to_bits());
    }
    assert_eq!(Binary32::from_count(16_777_217).bits, 16_777_216.0f32.to_bits());
    assert_eq!(Binary32::from_count(16_777_219).bits, 16_777_220.0f32.to_bits());
    assert_eq!(Binary64::from_count(0).bits, 0);
    assert_eq!(Binary64::from_count(800).bits, 800.0f64.to_bits());
}

#[test]
fn one_is_neutral_and_order_does_not_matter() {
    let mut random = Random(0x7f4a_7c15_9e37_79b9);
    let one = value(1.0);
    for _ in 0..50_000 {
        let (a, b) = (Binary64 { bits: random.encoding() }, Binary64 { bits: random.encoding() });
        if !f64::from_bits(a.bits).is_nan() {
            assert_eq!(a.times(one), a);
            assert_eq!(a.over(one), a);
        }
        assert_eq!(a.plus(b), b.plus(a));
        assert_eq!(a.times(b), b.times(a));
    }
}

#[test]
fn parts_give_the_value_back() {
    for x in [1.0f64, -2.5, 0.1, 1.0e-320, 5.0e-324, f64::MAX, f64::MIN_POSITIVE] {
        let (significand, exponent) = value(x).parts();
        assert!(significand >= 1 << 52 && significand < 1 << 53);
        let mut back = significand as f64;
        for _ in 0..exponent.unsigned_abs() {
            back = if exponent < 0 { back / 2.0 } else { back * 2.0 };
        }
        assert_eq!(back, x.abs());
        assert_eq!(value(x).is_negative(), x < 0.0);
        assert_eq!(value(x).negated(), value(-x));
        assert_eq!(value(x).abs_bits(), x.abs().to_bits());
    }
}
