//! IEEE-754 binary64 and binary32 values, held by their encodings.
//!
//! The arithmetic here is the one the standard prescribes for round to
//! nearest, ties to even. Each operation is defined on the mathematical
//! value of its operands, and computed on machine integers by code that is
//! proved to give just that. A NaN result is always the canonical quiet NaN,
//! whatever payload the operands carried.
use crate::rounding::{
    bit_length, count_bits, lemma_bit_length_at_most, lemma_bit_length_bounds,
    lemma_bit_length_unique, lemma_pow2_127, lemma_pow2_monotone, lemma_product_below,
    lemma_ratio_exponent_whole, lemma_rounded_cancels, lemma_rounded_rescaled,
    lemma_units_range, power_of_two, ratio_exponent, round, round_half_even, rounded,
    unit_exponent, units, Precision,
};
use vstd::arithmetic::div_mod::*;
use vstd::arithmetic::mul::*;
use vstd::arithmetic::power2::*;
use vstd::prelude::*;

verus! {

/// The sign bit of a binary64 encoding.
pub const SIGN: u64 = 0x8000_0000_0000_0000;

/// Encoding of positive infinity.
pub const INFINITY: u64 = 0x7ff0_0000_0000_0000;

/// Encoding of the canonical quiet NaN.
pub const NAN: u64 = 0x7ff8_0000_0000_0000;

/// Encoding of `1.0`.
pub const ONE: u64 = 0x3ff0_0000_0000_0000;

/// Encoding of `2.0`.
pub const TWO: u64 = 0x4000_0000_0000_0000;

/// `2^52`: the hidden bit of a normal significand, and the weight of the
/// exponent field in an encoding.
pub const HIDDEN: u64 = 0x0010_0000_0000_0000;

/// The sign bit of a binary32 encoding.
pub const SIGN_SINGLE: u32 = 0x8000_0000;

/// Encoding of positive infinity in binary32.
pub const INFINITY_SINGLE: u32 = 0x7f80_0000;

/// Encoding of the canonical quiet NaN of binary32.
pub const NAN_SINGLE: u32 = 0x7fc0_0000;

/// A binary64 value, by its encoding.
///
/// Two values are equal when their encodings are: `+0` and `-0` differ, and a
/// NaN equals itself.
#[derive(Clone, Copy, PartialEq, Eq, Structural, Debug)]
pub struct Binary64 {
    pub bits: u64,
}

impl Binary64 {
    /// The sign bit is set.
    pub open spec fn negative(self) -> bool {
        self.bits >= SIGN
    }

    /// The encoding without its sign bit.
    pub open spec fn magnitude(self) -> nat {
        if self.bits >= SIGN {
            (self.bits - SIGN) as nat
        } else {
            self.bits as nat
        }
    }

    /// Not a number.
    pub open spec fn is_nan(self) -> bool {
        self.magnitude() > INFINITY
    }

    /// Positive or negative infinity.
    pub open spec fn is_infinite(self) -> bool {
        self.magnitude() == INFINITY
    }

    /// A number, zero included, and not an infinity.
    pub open spec fn is_finite(self) -> bool {
        self.magnitude() < INFINITY
    }

    /// Positive or negative zero.
    pub open spec fn is_zero(self) -> bool {
        self.magnitude() == 0
    }

    /// Finite, not zero, and with the full 53 digits of precision.
    pub open spec fn is_normal(self) -> bool {
        HIDDEN <= self.magnitude() < INFINITY
    }

    /// The value with the given sign and sign-less encoding.
    pub open spec fn with_sign(negative: bool, magnitude: nat) -> Binary64
        recommends
            magnitude < SIGN,
    {
        Binary64 {
            bits: if negative {
                (SIGN + magnitude) as u64
            } else {
                magnitude as u64
            },
        }
    }

    /// The 53-digit significand of a finite value other than zero: its
    /// absolute value is `significand * 2^exponent`, and
    /// `2^52 <= significand < 2^53`. A subnormal value is scaled up to that
    /// range.
    pub open spec fn significand(self) -> nat
        recommends
            self.is_finite(),
            !self.is_zero(),
    {
        let m = self.magnitude();
        if m < HIDDEN {
            m * pow2((53 - bit_length(m)) as nat)
        } else {
            (HIDDEN + m % (HIDDEN as nat)) as nat
        }
    }

    /// The exponent that goes with [`Self::significand`].
    pub open spec fn exponent(self) -> int
        recommends
            self.is_finite(),
            !self.is_zero(),
    {
        let m = self.magnitude();
        if m < HIDDEN {
            -1074 - (53 - bit_length(m))
        } else {
            m / (HIDDEN as nat) - 1075
        }
    }

    /// The absolute value of a finite value in units of its last place.
    pub open spec fn ulps(self) -> nat
        recommends
            self.is_finite(),
    {
        let m = self.magnitude();
        if m < HIDDEN {
            m
        } else {
            (HIDDEN + m % (HIDDEN as nat)) as nat
        }
    }

    /// The exponent of the unit in the last place of a finite value: its
    /// absolute value is `ulps * 2^ulp_exponent`.
    pub open spec fn ulp_exponent(self) -> int
        recommends
            self.is_finite(),
    {
        let m = self.magnitude();
        if m < HIDDEN {
            -1074
        } else {
            m / (HIDDEN as nat) - 1075
        }
    }

    /// The value of a finite `self` other than zero in units of `2^unit`,
    /// where `unit` is at most its exponent.
    pub open spec fn in_units_of(self, unit: int) -> int
        recommends
            self.is_finite(),
            !self.is_zero(),
            unit <= self.exponent(),
    {
        let size = self.significand() * pow2((self.exponent() - unit) as nat);
        if self.negative() {
            -size
        } else {
            size as int
        }
    }

    /// `self * rhs`, correctly rounded.
    pub open spec fn product(self, rhs: Binary64) -> Binary64 {
        let negative = self.negative() != rhs.negative();
        if self.is_nan() || rhs.is_nan() {
            Binary64 { bits: NAN }
        } else if self.is_infinite() || rhs.is_infinite() {
            if self.is_zero() || rhs.is_zero() {
                Binary64 { bits: NAN }
            } else {
                Self::with_sign(negative, INFINITY as nat)
            }
        } else if self.is_zero() || rhs.is_zero() {
            Self::with_sign(negative, 0)
        } else {
            Self::with_sign(
                negative,
                rounded(
                    Precision::Double,
                    self.significand() * rhs.significand(),
                    1,
                    self.exponent() + rhs.exponent(),
                ),
            )
        }
    }

    /// `self / rhs`, correctly rounded.
    pub open spec fn quotient(self, rhs: Binary64) -> Binary64 {
        let negative = self.negative() != rhs.negative();
        if self.is_nan() || rhs.is_nan() {
            Binary64 { bits: NAN }
        } else if self.is_infinite() {
            if rhs.is_infinite() {
                Binary64 { bits: NAN }
            } else {
                Self::with_sign(negative, INFINITY as nat)
            }
        } else if rhs.is_infinite() {
            Self::with_sign(negative, 0)
        } else if rhs.is_zero() {
            if self.is_zero() {
                Binary64 { bits: NAN }
            } else {
                Self::with_sign(negative, INFINITY as nat)
            }
        } else if self.is_zero() {
            Self::with_sign(negative, 0)
        } else {
            Self::with_sign(
                negative,
                rounded(
                    Precision::Double,
                    self.significand(),
                    rhs.significand(),
                    self.exponent() - rhs.exponent(),
                ),
            )
        }
    }

    /// `self + rhs`, correctly rounded.
    ///
    /// Zeros of opposite sign add up to `+0`, and so do two values that cancel.
    pub open spec fn sum(self, rhs: Binary64) -> Binary64 {
        if self.is_nan() || rhs.is_nan() {
            Binary64 { bits: NAN }
        } else if self.is_infinite() {
            if rhs.is_infinite() && self.negative() != rhs.negative() {
                Binary64 { bits: NAN }
            } else {
                self
            }
        } else if rhs.is_infinite() {
            rhs
        } else if self.is_zero() && rhs.is_zero() {
            Self::with_sign(self.negative() && rhs.negative(), 0)
        } else if self.is_zero() {
            rhs
        } else if rhs.is_zero() {
            self
        } else {
            let unit = if self.exponent() <= rhs.exponent() {
                self.exponent()
            } else {
                rhs.exponent()
            };
            let exact = self.in_units_of(unit) + rhs.in_units_of(unit);
            if exact == 0 {
                Binary64 { bits: 0 }
            } else if exact < 0 {
                Self::with_sign(true, rounded(Precision::Double, (-exact) as nat, 1, unit))
            } else {
                Self::with_sign(false, rounded(Precision::Double, exact as nat, 1, unit))
            }
        }
    }

    /// `self - rhs`, correctly rounded.
    pub open spec fn difference(self, rhs: Binary64) -> Binary64 {
        self.sum(rhs.negation())
    }

    /// The value with the other sign.
    pub open spec fn negation(self) -> Binary64 {
        Self::with_sign(!self.negative(), self.magnitude())
    }

    /// Twice the value.
    pub open spec fn doubling(self) -> Binary64 {
        self.product(Binary64 { bits: TWO })
    }

    /// The binary64 value of a count. Every count is one exactly.
    pub open spec fn of_count(n: u32) -> Binary64 {
        if n == 0 {
            Binary64 { bits: 0 }
        } else {
            Binary64 { bits: rounded(Precision::Double, n as nat, 1, 0) as u64 }
        }
    }

    /// The nearest binary32 value: what a conversion to single precision
    /// gives. A NaN becomes the canonical quiet NaN of that format.
    pub open spec fn narrowing(self) -> Binary32 {
        if self.is_nan() {
            Binary32 { bits: NAN_SINGLE }
        } else if self.is_infinite() {
            Binary32::with_sign(self.negative(), INFINITY_SINGLE as nat)
        } else if self.is_zero() {
            Binary32::with_sign(self.negative(), 0)
        } else {
            Binary32::with_sign(
                self.negative(),
                rounded(Precision::Single, self.significand(), 1, self.exponent()),
            )
        }
    }

    /// The exponent of the power of two at or below the exact product of two
    /// finite values other than zero.
    pub open spec fn product_exponent(self, rhs: Binary64) -> int
        recommends
            self.is_finite(),
            !self.is_zero(),
            rhs.is_finite(),
            !rhs.is_zero(),
    {
        ratio_exponent(self.significand() * rhs.significand(), 1) + self.exponent()
            + rhs.exponent()
    }

    /// The sum of two finite values other than zero, of which `self` has the
    /// larger exponent, or the same: the significands are brought to the
    /// smaller exponent and added or subtracted there.
    pub open spec fn aligned_sum(self, rhs: Binary64) -> Binary64
        recommends
            self.is_finite(),
            !self.is_zero(),
            rhs.is_finite(),
            !rhs.is_zero(),
            self.exponent() >= rhs.exponent(),
    {
        let x = self.significand() * pow2((self.exponent() - rhs.exponent()) as nat);
        let y = rhs.significand();
        let unit = rhs.exponent();
        if self.negative() == rhs.negative() {
            Self::with_sign(self.negative(), rounded(Precision::Double, x + y, 1, unit))
        } else if x > y {
            Self::with_sign(self.negative(), rounded(Precision::Double, (x - y) as nat, 1, unit))
        } else if x < y {
            Self::with_sign(rhs.negative(), rounded(Precision::Double, (y - x) as nat, 1, unit))
        } else {
            Binary64 { bits: 0 }
        }
    }

    /// The sign bit, computed.
    pub fn is_negative(self) -> (r: bool)
        ensures
            r == self.negative(),
    {
        self.bits >= SIGN
    }

    /// The encoding without its sign bit, computed.
    pub fn abs_bits(self) -> (r: u64)
        ensures
            r == self.magnitude(),
            r < SIGN,
    {
        if self.bits >= SIGN {
            self.bits - SIGN
        } else {
            self.bits
        }
    }

    /// [`Self::with_sign`], computed.
    pub fn signed(negative: bool, magnitude: u64) -> (r: Binary64)
        requires
            magnitude < SIGN,
        ensures
            r == Self::with_sign(negative, magnitude as nat),
            r.negative() == negative,
            r.magnitude() == magnitude,
    {
        if negative {
            Binary64 { bits: SIGN + magnitude }
        } else {
            Binary64 { bits: magnitude }
        }
    }

    /// Significand and exponent of a finite value other than zero.
    pub fn parts(self) -> (r: (u64, i64))
        requires
            self.is_finite(),
            !self.is_zero(),
        ensures
            r.0 == self.significand(),
            r.1 == self.exponent(),
            HIDDEN <= r.0 < 2 * HIDDEN,
            bit_length(r.0 as nat) == 53,
            -1126 <= r.1 <= 971,
    {
        let m = self.abs_bits();
        proof {
            lemma2_to64_rest();
        }
        let r = if m < HIDDEN {
            let len = count_bits(m as u128);
            proof {
                lemma_bit_length_bounds(m as nat);
                lemma_bit_length_at_most(m as nat, 52);
                let up = (53 - len) as nat;
                lemma_product_below(m as nat, len as nat, pow2(up), up);
                lemma_pow2_adds((len - 1) as nat, up);
                lemma_mul_inequality(
                    pow2((len - 1) as nat) as int,
                    m as int,
                    pow2(up) as int,
                );
                lemma_pow2_monotone(up, 52);
            }
            let up = 53 - len;
            (m * (power_of_two(up) as u64), -1074 - up as i64)
        } else {
            (HIDDEN + m % HIDDEN, (m / HIDDEN) as i64 - 1075)
        };
        proof {
            lemma_bit_length_unique(r.0 as nat, 53);
        }
        r
    }

    /// The value with the other sign.
    pub fn negated(self) -> (r: Binary64)
        ensures
            r == self.negation(),
    {
        Self::signed(!self.is_negative(), self.abs_bits())
    }

    /// `self * rhs`, correctly rounded.
    pub fn times(self, rhs: Binary64) -> (r: Binary64)
        ensures
            r == self.product(rhs),
    {
        let negative = self.is_negative() != rhs.is_negative();
        let a = self.abs_bits();
        let b = rhs.abs_bits();
        if a > INFINITY || b > INFINITY {
            Binary64 { bits: NAN }
        } else if a == INFINITY || b == INFINITY {
            if a == 0 || b == 0 {
                Binary64 { bits: NAN }
            } else {
                Self::signed(negative, INFINITY)
            }
        } else if a == 0 || b == 0 {
            Self::signed(negative, 0)
        } else {
            let (sa, ea) = self.parts();
            let (sb, eb) = rhs.parts();
            proof {
                lemma2_to64_rest();
                lemma_product_below(sa as nat, 53, sb as nat, 53);
                lemma_pow2_monotone(106, 127);
                lemma_pow2_127();
                lemma_bit_length_at_most(sa as nat * sb as nat, 106);
                lemma_mul_strictly_positive(sa as int, sb as int);
                assert(bit_length(1) == 1 + bit_length(0));
            }
            Self::signed(negative, round(Precision::Double, sa as u128 * sb as u128, 1, ea + eb))
        }
    }

    /// `self / rhs`, correctly rounded.
    pub fn over(self, rhs: Binary64) -> (r: Binary64)
        ensures
            r == self.quotient(rhs),
    {
        let negative = self.is_negative() != rhs.is_negative();
        let a = self.abs_bits();
        let b = rhs.abs_bits();
        if a > INFINITY || b > INFINITY {
            Binary64 { bits: NAN }
        } else if a == INFINITY {
            if b == INFINITY {
                Binary64 { bits: NAN }
            } else {
                Self::signed(negative, INFINITY)
            }
        } else if b == INFINITY {
            Self::signed(negative, 0)
        } else if b == 0 {
            if a == 0 {
                Binary64 { bits: NAN }
            } else {
                Self::signed(negative, INFINITY)
            }
        } else if a == 0 {
            Self::signed(negative, 0)
        } else {
            let (sa, ea) = self.parts();
            let (sb, eb) = rhs.parts();
            Self::signed(negative, round(Precision::Double, sa as u128, sb, ea - eb))
        }
    }

    /// [`Self::aligned_sum`], computed.
    fn plus_smaller(self, rhs: Binary64) -> (r: Binary64)
        requires
            self.is_finite(),
            !self.is_zero(),
            rhs.is_finite(),
            !rhs.is_zero(),
            self.exponent() >= rhs.exponent(),
        ensures
            r == self.sum(rhs),
            r == rhs.sum(self),
    {
        let (sa, ea) = self.parts();
        let (sb, eb) = rhs.parts();
        let same = self.is_negative() == rhs.is_negative();
        proof {
            lemma_aligned_sum(self, rhs);
        }
        if ea - eb > 64 {
            proof {
                lemma_absorbed(self, rhs);
            }
            self
        } else {
            let up = (ea - eb) as u32;
            proof {
                lemma2_to64_rest();
                lemma_pow2_127();
                lemma_pow2_pos(up as nat);
                lemma_pow2_monotone(53, 117);
                lemma_product_below(sa as nat, 53, pow2(up as nat), up as nat);
                lemma_pow2_monotone((53 + up) as nat, 117);
                lemma_pow2_unfold(118);
                lemma_pow2_monotone(118, 127);
                lemma_mul_inequality(1, pow2(up as nat) as int, sa as int);
                lemma_mul_is_commutative(sa as int, pow2(up as nat) as int);
                assert(bit_length(1) == 1 + bit_length(0));
            }
            let x = sa as u128 * power_of_two(up);
            let y = sb as u128;
            if same {
                proof {
                    lemma_bit_length_at_most((x + y) as nat, 118);
                }
                Self::signed(self.is_negative(), round(Precision::Double, x + y, 1, eb))
            } else if x > y {
                proof {
                    lemma_bit_length_at_most((x - y) as nat, 118);
                }
                Self::signed(self.is_negative(), round(Precision::Double, x - y, 1, eb))
            } else if x < y {
                proof {
                    lemma_bit_length_at_most((y - x) as nat, 118);
                }
                Self::signed(rhs.is_negative(), round(Precision::Double, y - x, 1, eb))
            } else {
                Binary64 { bits: 0 }
            }
        }
    }

    /// `self + rhs`, correctly rounded.
    pub fn plus(self, rhs: Binary64) -> (r: Binary64)
        ensures
            r == self.sum(rhs),
    {
        let a = self.abs_bits();
        let b = rhs.abs_bits();
        if a > INFINITY || b > INFINITY {
            Binary64 { bits: NAN }
        } else if a == INFINITY {
            if b == INFINITY && self.is_negative() != rhs.is_negative() {
                Binary64 { bits: NAN }
            } else {
                self
            }
        } else if b == INFINITY {
            rhs
        } else if a == 0 && b == 0 {
            Self::signed(self.is_negative() && rhs.is_negative(), 0)
        } else if a == 0 {
            rhs
        } else if b == 0 {
            self
        } else {
            let (_, ea) = self.parts();
            let (_, eb) = rhs.parts();
            if ea >= eb {
                self.plus_smaller(rhs)
            } else {
                rhs.plus_smaller(self)
            }
        }
    }

    /// `self - rhs`, correctly rounded.
    pub fn minus(self, rhs: Binary64) -> (r: Binary64)
        ensures
            r == self.difference(rhs),
    {
        self.plus(rhs.negated())
    }

    /// [`Self::of_count`], computed.
    pub fn from_count(n: u32) -> (r: Binary64)
        ensures
            r == Self::of_count(n),
    {
        if n == 0 {
            Binary64 { bits: 0 }
        } else {
            proof {
                lemma2_to64();
                lemma_bit_length_at_most(n as nat, 32);
                assert(bit_length(1) == 1 + bit_length(0));
            }
            Binary64 { bits: round(Precision::Double, n as u128, 1, 0) }
        }
    }

    /// [`Self::narrowing`], computed.
    pub fn narrowed(self) -> (r: Binary32)
        ensures
            r == self.narrowing(),
    {
        let a = self.abs_bits();
        let sign: u32 = if self.is_negative() {
            SIGN_SINGLE
        } else {
            0
        };
        if a > INFINITY {
            Binary32 { bits: NAN_SINGLE }
        } else if a == INFINITY {
            Binary32 { bits: sign + INFINITY_SINGLE }
        } else if a == 0 {
            Binary32 { bits: sign }
        } else {
            let (sa, ea) = self.parts();
            proof {
                assert(bit_length(1) == 1 + bit_length(0));
            }
            Binary32 { bits: sign + round(Precision::Single, sa as u128, 1, ea) as u32 }
        }
    }
}

/// A binary32 value, by its encoding.
#[derive(Clone, Copy, PartialEq, Eq, Structural, Debug)]
pub struct Binary32 {
    pub bits: u32,
}

impl Binary32 {
    /// The value with the given sign and sign-less encoding.
    pub open spec fn with_sign(negative: bool, magnitude: nat) -> Binary32
        recommends
            magnitude < SIGN_SINGLE,
    {
        Binary32 {
            bits: if negative {
                (SIGN_SINGLE + magnitude) as u32
            } else {
                magnitude as u32
            },
        }
    }

    /// The binary32 value nearest to a count; counts above `2^24` may be
    /// rounded.
    pub open spec fn of_count(n: u32) -> Binary32 {
        if n == 0 {
            Binary32 { bits: 0 }
        } else {
            Binary32 { bits: rounded(Precision::Single, n as nat, 1, 0) as u32 }
        }
    }

    /// [`Self::of_count`], computed.
    pub fn from_count(n: u32) -> (r: Binary32)
        ensures
            r == Self::of_count(n),
    {
        if n == 0 {
            Binary32 { bits: 0 }
        } else {
            proof {
                lemma2_to64();
                lemma_bit_length_at_most(n as nat, 32);
                assert(bit_length(1) == 1 + bit_length(0));
            }
            Binary32 { bits: round(Precision::Single, n as u128, 1, 0) as u32 }
        }
    }
}

/// Significand and exponent of a finite value other than zero lie in their
/// ranges, and a subnormal value has an exponent below that of every normal
/// one.
pub proof fn lemma_parts(a: Binary64)
    requires
        a.is_finite(),
        !a.is_zero(),
    ensures
        HIDDEN <= a.significand() < 2 * HIDDEN,
        bit_length(a.significand()) == 53,
        -1126 <= a.exponent() <= 971,
        a.is_normal() <==> a.exponent() >= -1074,
{
    lemma2_to64_rest();
    let m = a.magnitude();
    if m < HIDDEN {
        let len = bit_length(m);
        lemma_bit_length_bounds(m);
        lemma_bit_length_at_most(m, 52);
        let up = (53 - len) as nat;
        lemma_product_below(m, len, pow2(up), up);
        lemma_pow2_adds((len - 1) as nat, up);
        lemma_mul_inequality(pow2((len - 1) as nat) as int, m as int, pow2(up) as int);
    }
    lemma_bit_length_unique(a.significand(), 53);
}

/// A finite value is as many units of its last place as its encoding says.
pub proof fn lemma_encoding_in_ulps(x: Binary64)
    requires
        x.is_finite(),
    ensures
        x.magnitude() == (x.ulp_exponent() + 1074) * HIDDEN + x.ulps(),
        x.ulps() < 2 * HIDDEN,
        -1074 <= x.ulp_exponent() <= 971,
        x.ulps() < HIDDEN ==> x.ulp_exponent() == -1074,
{
    let m = x.magnitude();
    let h = HIDDEN as nat;
    let us = x.ulp_exponent();
    let qs = x.ulps();
    lemma_fundamental_div_mod(m as int, h as int);
    assert(m == (us + 1074) * h + qs) by (nonlinear_arith)
        requires
            m < h && us == -1074 && qs == m || m >= h && m == h * (us + 1075) + (qs - h),
    ;
    if m >= h {
        assert(m / h <= 2046) by (nonlinear_arith)
            requires
                m == h * (m / h) + m % h,
                m % h >= 0,
                m < 2047 * h,
                h > 0,
        ;
    }
}

/// What the encoding of a rounded value stands for: as many units as the
/// rounding counted, at its unit exponent; or, where rounding carried into
/// the next binade, `2^52` units of twice the size.
pub proof fn lemma_rounded_decoded(n: nat, d: nat, e: int)
    requires
        n > 0,
        d > 0,
        rounded(Precision::Double, n, d, e) < INFINITY,
    ensures
        ({
            let y = Binary64 { bits: rounded(Precision::Double, n, d, e) as u64 };
            let q = units(Precision::Double, n, d, e);
            let u = unit_exponent(Precision::Double, n, d, e);
            ||| y.ulps() == q && y.ulp_exponent() == u
            ||| q == 2 * HIDDEN && y.ulps() == HIDDEN && y.ulp_exponent() == u + 1
        }),
{
    lemma2_to64_rest();
    lemma_units_range(Precision::Double, n, d, e);
    let q = units(Precision::Double, n, d, e);
    let u = unit_exponent(Precision::Double, n, d, e);
    let h = HIDDEN as nat;
    let raw = rounded(Precision::Double, n, d, e);
    assert(raw == (u + 1074) * h + q);
    assert(0 <= u + 1074 < 2047) by (nonlinear_arith)
        requires
            (u + 1074) * h + q < 2047 * h,
            u + 1074 >= 0,
            q >= 0,
            h > 0,
    ;
    assert((u + 1075) * h + (q - h) == (u + 1074) * h + q && (u + 1076) * h == (u + 1074) * h
        + 2 * h) by (nonlinear_arith);
    if q < h {
        assert(u == -1074);
        assert((u + 1074) * h == 0) by (nonlinear_arith)
            requires
                u == -1074,
        ;
    } else if q < 2 * h {
        lemma_fundamental_div_mod_converse(raw as int, h as int, u + 1075, q - h);
    } else {
        lemma_fundamental_div_mod_converse(raw as int, h as int, u + 1076, 0);
    }
}

/// Rounding leaves a value of the format as it is.
pub proof fn lemma_rounding_keeps_values(x: Binary64)
    requires
        x.is_finite(),
        !x.is_zero(),
    ensures
        rounded(Precision::Double, x.ulps(), 1, x.ulp_exponent()) == x.magnitude(),
{
    lemma2_to64();
    lemma2_to64_rest();
    lemma_encoding_in_ulps(x);
    let q = x.ulps();
    let u = x.ulp_exponent();
    lemma_ratio_exponent_whole(q);
    if q >= HIDDEN {
        lemma_bit_length_unique(q, 53);
    } else {
        lemma_bit_length_at_most(q, 52);
    }
    assert(unit_exponent(Precision::Double, q, 1, u) == u);
    assert(q * pow2(0) == q);
    lemma_fundamental_div_mod_converse(q as int, 1, q as int, 0);
    assert(units(Precision::Double, q, 1, u) == q);
    assert((u + 1074) * pow2(52) == (u + 1074) * HIDDEN);
}

/// Product and quotient may be taken on units in the last place instead of
/// significands: a subnormal operand need not be scaled up first.
pub proof fn lemma_operations_on_ulps(a: Binary64, b: Binary64)
    requires
        a.is_finite(),
        !a.is_zero(),
        b.is_finite(),
        !b.is_zero(),
    ensures
        a.product(b) == Binary64::with_sign(
            a.negative() != b.negative(),
            rounded(
                Precision::Double,
                a.ulps() * b.ulps(),
                1,
                a.ulp_exponent() + b.ulp_exponent(),
            ),
        ),
        b.is_normal() ==> a.quotient(b) == Binary64::with_sign(
            a.negative() != b.negative(),
            rounded(Precision::Double, a.ulps(), b.ulps(), a.ulp_exponent() - b.ulp_exponent()),
        ),
{
    let ja = if a.magnitude() < HIDDEN { (53 - bit_length(a.magnitude())) as nat } else { 0 };
    let jb = if b.magnitude() < HIDDEN { (53 - bit_length(b.magnitude())) as nat } else { 0 };
    lemma2_to64();
    lemma2_to64_rest();
    lemma_parts(a);
    lemma_parts(b);
    if a.magnitude() < HIDDEN {
        lemma_bit_length_at_most(a.magnitude(), 52);
    }
    if b.magnitude() < HIDDEN {
        lemma_bit_length_at_most(b.magnitude(), 52);
    }
    let qa = a.ulps();
    let qb = b.ulps();
    assert(a.significand() == qa * pow2(ja) && a.exponent() == a.ulp_exponent() - ja);
    assert(b.significand() == qb * pow2(jb) && b.exponent() == b.ulp_exponent() - jb);
    lemma_pow2_adds(ja, jb);
    assert((qa * pow2(ja)) * (qb * pow2(jb)) == (qa * qb) * (pow2(ja) * pow2(jb)))
        by (nonlinear_arith);
    lemma_mul_strictly_positive(qa as int, qb as int);
    lemma_rounded_rescaled(Precision::Double, qa * qb, 1, a.exponent() + b.exponent(), ja + jb);
    if b.is_normal() {
        lemma_rounded_rescaled(Precision::Double, qa, qb, a.exponent() - b.exponent(), ja);
    }
}

/// The sum of two finite values other than zero, whichever comes first, is
/// their [`Binary64::aligned_sum`].
pub proof fn lemma_aligned_sum(a: Binary64, b: Binary64)
    requires
        a.is_finite(),
        !a.is_zero(),
        b.is_finite(),
        !b.is_zero(),
        a.exponent() >= b.exponent(),
    ensures
        a.sum(b) == a.aligned_sum(b),
        b.sum(a) == a.aligned_sum(b),
{
    lemma2_to64();
    lemma_parts(a);
    lemma_parts(b);
    let eb = b.exponent();
    let x = a.significand() * pow2((a.exponent() - eb) as nat);
    let y = b.significand();
    assert(y * pow2(0) == y);
    assert(a.in_units_of(eb) == if a.negative() { -x } else { x as int });
    assert(b.in_units_of(eb) == if b.negative() { -y } else { y as int });
    assert(a.in_units_of(eb) + b.in_units_of(eb) == b.in_units_of(eb) + a.in_units_of(eb));
}

/// A value whose exponent is more than 64 above another's is not changed by
/// adding the other: what is added lies far below half a unit in its last
/// place.
pub proof fn lemma_absorbed(a: Binary64, b: Binary64)
    requires
        a.is_finite(),
        !a.is_zero(),
        b.is_finite(),
        !b.is_zero(),
        a.exponent() - b.exponent() > 64,
    ensures
        a.sum(b) == a,
        b.sum(a) == a,
{
    lemma2_to64();
    lemma2_to64_rest();
    let sa = a.significand();
    let sb = b.significand();
    let ea = a.exponent();
    let eb = b.exponent();
    lemma_parts(a);
    lemma_parts(b);
    let up = (ea - eb) as nat;
    let step = pow2(up);
    let half = pow2((up - 1) as nat);
    lemma_pow2_unfold(up);
    lemma_pow2_monotone(64, (up - 1) as nat);
    assert(sb * pow2(0) == sb);
    let big = sa * step;
    assert(a.in_units_of(eb) == if a.negative() { -big } else { big as int });
    assert(b.in_units_of(eb) == if b.negative() { -sb } else { sb as int });
    assert(bit_length(1) == 1 + bit_length(0));
    let m = a.magnitude();
    let h = HIDDEN as nat;
    lemma_fundamental_div_mod(m as int, h as int);
    assert(m == h * (ea + 1075) + (sa - h));
    assert(big >= step) by (nonlinear_arith)
        requires
            big == sa * step,
            sa >= 1,
            step >= 0,
    ;
    let exact = if a.negative() == b.negative() { big + sb } else { (big - sb) as nat };
    assert(big == 2 * sa * half) by (nonlinear_arith)
        requires
            big == sa * step,
            step == 2 * half,
    ;
    if a.negative() != b.negative() && sa == h {
        assert(exact == (2 * h - 1) * half + (half - sb) && h * half <= exact < 2 * h * half)
            by (nonlinear_arith)
            requires
                exact == 2 * h * half - sb,
                0 < sb < half,
                h > 1,
        ;
        lemma_pow2_adds(51, (up - 1) as nat);
        lemma_pow2_adds(52, (up - 1) as nat);
        lemma_pow2_adds(53, (up - 1) as nat);
        lemma_pow2_unfold(52);
        lemma_bit_length_unique(exact, 52 + up);
        lemma_pow2_unfold(52 + up);
        assert(exact * pow2(1) == 2 * exact);
        assert(1 * pow2(52 + up) == pow2(52 + up));
        assert(ratio_exponent(exact, 1) == 51 + up);
        lemma_fundamental_div_mod_converse(exact as int, half as int, 2 * h - 1, half - sb);
        assert(1 * half == half);
        assert(round_half_even(exact, 1 * half) == 2 * h);
        assert(pow2(52) == h);
        assert((ea - 1 + 1074) * pow2(52) + 2 * h == m) by (nonlinear_arith)
            requires
                m == h * (ea + 1075) + (sa - h),
                sa == h,
                pow2(52) == h,
        ;
        assert(1 * pow2((ea - 1 - eb) as nat) == half);
        assert(rounded(Precision::Double, exact, 1, eb) == m);
    } else {
        let low = if a.negative() == b.negative() { sa } else { (sa - 1) as nat };
        let rest = if a.negative() == b.negative() { sb } else { (step - sb) as nat };
        assert(exact == low * step + rest && h * step <= exact < 2 * h * step)
            by (nonlinear_arith)
            requires
                big == sa * step,
                h <= low < 2 * h,
                low == sa && exact == big + sb || low == sa - 1 && exact == big - sb,
                low == sa && rest == sb || low == sa - 1 && rest == step - sb,
                0 < sb < step,
        ;
        lemma_pow2_adds(52, up);
        lemma_pow2_adds(53, up);
        lemma_bit_length_unique(exact, 53 + up);
        lemma_pow2_unfold(53 + up);
        assert(exact * pow2(1) == 2 * exact);
        assert(1 * pow2(53 + up) == pow2(53 + up));
        assert(ratio_exponent(exact, 1) == 52 + up);
        lemma_fundamental_div_mod_converse(exact as int, step as int, low as int, rest as int);
        assert(1 * step == step);
        assert(round_half_even(exact, 1 * step) == sa);
        assert(pow2(52) == h);
        assert((ea + 1074) * pow2(52) + sa == m) by (nonlinear_arith)
            requires
                m == h * (ea + 1075) + (sa - h),
                pow2(52) == h,
        ;
        assert(1 * pow2((ea - eb) as nat) == step);
        assert(rounded(Precision::Double, exact, 1, eb) == m);
    }
}

/// Sum and product do not depend on the order of the operands.
pub proof fn lemma_operations_commute(a: Binary64, b: Binary64)
    ensures
        a.sum(b) == b.sum(a),
        a.product(b) == b.product(a),
{
    assert(a.significand() * b.significand() == b.significand() * a.significand())
        by (nonlinear_arith);
    if a.is_finite() && b.is_finite() && !a.is_zero() && !b.is_zero() {
        if a.exponent() >= b.exponent() {
            lemma_aligned_sum(a, b);
        } else {
            lemma_aligned_sum(b, a);
        }
    }
}

/// Multiplying or dividing by one changes no number.
pub proof fn lemma_one_is_neutral(x: Binary64)
    requires
        !x.is_nan(),
    ensures
        x.product(Binary64 { bits: ONE }) == x,
        x.quotient(Binary64 { bits: ONE }) == x,
{
    lemma2_to64_rest();
    let one = Binary64 { bits: ONE };
    let h = HIDDEN as nat;
    assert(one.magnitude() / h == 1023 && one.magnitude() % h == 0);
    if x.is_finite() && !x.is_zero() {
        let q = x.ulps();
        let u = x.ulp_exponent();
        lemma_encoding_in_ulps(x);
        lemma_operations_on_ulps(x, one);
        lemma_rounding_keeps_values(x);
        lemma_rounded_rescaled(Precision::Double, q, 1, u - 52, 52);
        lemma_rounded_rescaled(Precision::Double, q, h, u, 52);
        lemma_rounded_cancels(Precision::Double, q, 1, u, 52);
        assert(1 * pow2(52) == h);
    }
}

/// Doubling a normal value below the largest binade raises its exponent by
/// one and leaves the rest of the encoding alone.
pub proof fn lemma_doubling_raises_exponent(x: Binary64)
    requires
        x.is_normal(),
        x.magnitude() < INFINITY - HIDDEN,
    ensures
        x.doubling() == Binary64::with_sign(x.negative(), (x.magnitude() + HIDDEN) as nat),
        x.doubling().is_normal(),
        x.doubling().negative() == x.negative(),
        x.doubling().significand() == x.significand(),
        x.doubling().exponent() == x.exponent() + 1,
{
    lemma2_to64();
    lemma2_to64_rest();
    lemma_parts(x);
    let two = Binary64 { bits: TWO };
    assert(two.magnitude() / (HIDDEN as nat) == 1024 && two.magnitude() % (HIDDEN as nat) == 0);
    let m = x.magnitude();
    let h = HIDDEN as nat;
    let sx = x.significand();
    let ex = x.exponent();
    lemma_fundamental_div_mod(m as int, h as int);
    assert(m == h * (ex + 1075) + (sx - h));
    let n = sx * two.significand();
    assert(n == sx * h);
    assert(pow2(52) * h <= n < pow2(53) * h) by (nonlinear_arith)
        requires
            pow2(52) <= sx < pow2(53),
            n == sx * h,
            h > 0,
    ;
    lemma_pow2_adds(52, 52);
    lemma_pow2_adds(53, 52);
    lemma_bit_length_unique(n, 105);
    lemma_pow2_unfold(105);
    assert(bit_length(1) == 1 + bit_length(0));
    assert(n * pow2(1) == 2 * n);
    assert(1 * pow2(105) == pow2(105));
    assert(ratio_exponent(n, 1) == 104);
    assert(unit_exponent(Precision::Double, n, 1, ex - 51) == ex + 1);
    assert(1 * pow2(52) == h);
    lemma_fundamental_div_mod_converse(n as int, h as int, sx as int, 0);
    assert(units(Precision::Double, n, 1, ex - 51) == sx);
    assert((ex + 1 + 1074) * pow2(52) + sx == m + h) by (nonlinear_arith)
        requires
            m == h * (ex + 1075) + (sx - h),
            pow2(52) == h,
    ;
    assert(rounded(Precision::Double, n, 1, ex - 51) == m + h);
    let y = Binary64::with_sign(x.negative(), (m + h) as nat);
    assert(x.doubling() == y);
    assert(y.magnitude() == m + h);
    lemma_fundamental_div_mod_converse((m + h) as int, h as int, ex + 1076, sx - h);
}

/// A count loses nothing as a binary64 value: the value is positive and
/// normal, and its units in the last place add up to the count.
pub proof fn lemma_count_is_exact(n: u32)
    requires
        n > 0,
    ensures
        ({
            let x = Binary64::of_count(n);
            &&& x.is_normal()
            &&& !x.negative()
            &&& x.ulp_exponent() <= 0
            &&& x.ulps() == n * pow2((-x.ulp_exponent()) as nat)
        }),
{
    lemma2_to64();
    lemma2_to64_rest();
    let m = n as nat;
    let h = HIDDEN as nat;
    lemma_ratio_exponent_whole(m);
    lemma_bit_length_bounds(m);
    lemma_bit_length_at_most(m, 32);
    let b = bit_length(m);
    let u = unit_exponent(Precision::Double, m, 1, 0);
    let q = units(Precision::Double, m, 1, 0);
    assert(u == b - 53);
    let up = (53 - b) as nat;
    lemma_product_below(m, b, pow2(up), up);
    lemma_units_range(Precision::Double, m, 1, 0);
    assert(q == m * pow2(up)) by {
        lemma_fundamental_div_mod_converse((m * pow2(up)) as int, 1, (m * pow2(up)) as int, 0);
    }
    assert(h <= (u + 1074) * pow2(52) + q < 2047 * h) by (nonlinear_arith)
        requires
            1021 <= u + 1074 <= 1053,
            h <= q < 2 * h,
            pow2(52) == h,
    ;
    lemma_rounded_decoded(m, 1, 0);
}

} // verus!
