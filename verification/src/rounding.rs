//! Rounding of exact quotients to a binary floating-point format.
//!
//! Every IEEE-754 operation of this crate is "the exact result, rounded to
//! nearest, ties to even". The exact result is a quotient `n / d` of naturals
//! times a power of two; [`rounded`] says what its rounding is, and [`round`]
//! computes it.
use vstd::arithmetic::div_mod::*;
use vstd::arithmetic::mul::*;
use vstd::arithmetic::power2::*;
use vstd::prelude::*;
use vstd::std_specs::bits::{axiom_u64_leading_zeros, u64_leading_zeros};

verus! {

/// The two binary interchange formats the graphics device can be fed.
#[derive(Clone, Copy, PartialEq, Eq, Structural, Debug)]
pub enum Precision {
    /// binary32: 1 sign bit, 8 exponent bits, 23 fraction bits.
    Single,
    /// binary64: 1 sign bit, 11 exponent bits, 52 fraction bits.
    Double,
}

impl Precision {
    /// Number of stored fraction bits.
    pub open spec fn fraction_bits(self) -> nat {
        match self {
            Precision::Single => 23,
            Precision::Double => 52,
        }
    }

    /// Exponent of the smallest positive value, `2^min_exponent`.
    pub open spec fn min_exponent(self) -> int {
        match self {
            Precision::Single => -149,
            Precision::Double => -1074,
        }
    }

    /// Encoding of positive infinity; every smaller encoding is a finite value.
    pub open spec fn infinity(self) -> nat {
        match self {
            Precision::Single => 0x7f80_0000,
            Precision::Double => 0x7ff0_0000_0000_0000,
        }
    }

    /// Number of bytes one value occupies.
    pub open spec fn width(self) -> nat {
        match self {
            Precision::Single => 4,
            Precision::Double => 8,
        }
    }

    /// [`Self::fraction_bits`], computed.
    pub fn fraction_len(self) -> (r: u32)
        ensures
            r == self.fraction_bits(),
    {
        match self {
            Precision::Single => 23,
            Precision::Double => 52,
        }
    }

    /// [`Self::min_exponent`], computed.
    pub fn smallest_exponent(self) -> (r: i64)
        ensures
            r == self.min_exponent(),
    {
        match self {
            Precision::Single => -149,
            Precision::Double => -1074,
        }
    }

    /// [`Self::infinity`], computed.
    pub fn infinity_bits(self) -> (r: u64)
        ensures
            r == self.infinity(),
    {
        match self {
            Precision::Single => 0x7f80_0000,
            Precision::Double => 0x7ff0_0000_0000_0000,
        }
    }
}

/// Number of binary digits of `m`: 0 for 0, otherwise the `p` with
/// `2^(p-1) <= m < 2^p`.
pub open spec fn bit_length(m: nat) -> nat
    decreases m,
{
    if m == 0 {
        0
    } else {
        1 + bit_length(m / 2)
    }
}

/// `n / d` rounded to the nearest natural number, a tie going to the even one.
pub open spec fn round_half_even(n: nat, d: nat) -> nat
    recommends
        d > 0,
{
    let q = n / d;
    let r = n % d;
    if 2 * r > d || (2 * r == d && q % 2 == 1) {
        q + 1
    } else {
        q
    }
}

/// The integer `t` with `2^t <= n / d < 2^(t+1)`.
pub open spec fn ratio_exponent(n: nat, d: nat) -> int
    recommends
        n > 0,
        d > 0,
{
    let k = bit_length(n) - bit_length(d);
    if n * pow2(bit_length(d)) >= d * pow2(bit_length(n)) {
        k
    } else {
        k - 1
    }
}

/// Exponent of the unit in the last place of `(n / d) * 2^e` rounded to `p`:
/// 52 (or 23) binary places below the leading digit of the exact value, but
/// never below the smallest positive value of the format.
pub open spec fn unit_exponent(p: Precision, n: nat, d: nat, e: int) -> int
    recommends
        n > 0,
        d > 0,
{
    let t = ratio_exponent(n, d) + e;
    if t - p.fraction_bits() > p.min_exponent() {
        t - p.fraction_bits()
    } else {
        p.min_exponent()
    }
}

/// `(n / d) * 2^e` in units of its last place, rounded half to even.
pub open spec fn units(p: Precision, n: nat, d: nat, e: int) -> nat
    recommends
        n > 0,
        d > 0,
{
    let u = unit_exponent(p, n, d, e);
    if e >= u {
        round_half_even(n * pow2((e - u) as nat), d)
    } else {
        round_half_even(n, d * pow2((u - e) as nat))
    }
}

/// Encoding, without the sign bit, of `(n / d) * 2^e` rounded to `p`.
///
/// A finite result of `q` units of `2^u` is encoded as
/// `(u - min_exponent) * 2^fraction_bits + q`: for `q` below
/// `2^fraction_bits` that is a subnormal, above it the hidden bit of `q`
/// raises the exponent field by one, and a `q` that rounding carried to
/// `2^(fraction_bits+1)` raises it by two. What does not fit is infinity.
pub open spec fn rounded(p: Precision, n: nat, d: nat, e: int) -> nat
    recommends
        n > 0,
        d > 0,
{
    let raw = (unit_exponent(p, n, d, e) - p.min_exponent()) * pow2(p.fraction_bits()) + units(
        p,
        n,
        d,
        e,
    );
    if raw >= p.infinity() {
        p.infinity()
    } else {
        raw as nat
    }
}

/// `2^k` as a machine integer.
pub fn power_of_two(k: u32) -> (r: u128)
    requires
        k <= 127,
    ensures
        r == pow2(k as nat),
{
    proof {
        lemma_shift_is_power(k);
    }
    1u128 << k
}

/// Number of binary digits of `m`.
pub fn count_bits(m: u128) -> (len: u32)
    ensures
        len == bit_length(m as nat),
        len <= 128,
{
    let high = (m / 0x1_0000_0000_0000_0000) as u64;
    let low = (m % 0x1_0000_0000_0000_0000) as u64;
    proof {
        lemma_leading_zeros(high);
        lemma_leading_zeros(low);
        axiom_u64_leading_zeros(high);
        axiom_u64_leading_zeros(low);
        if high != 0 {
            lemma_bit_length_of_high_part(m as nat);
        }
    }
    if high != 0 {
        128 - high.leading_zeros()
    } else {
        64 - low.leading_zeros()
    }
}

/// [`round_half_even`], computed.
pub fn divide_half_even(n: u128, d: u128) -> (q: u128)
    requires
        d > 0,
    ensures
        q == round_half_even(n as nat, d as nat),
        q <= n,
{
    let q = n / d;
    let r = n % d;
    proof {
        lemma_fundamental_div_mod(n as int, d as int);
        lemma_mul_is_commutative(d as int, q as int);
        if r > 0 {
            lemma_mul_inequality(1, d as int, q as int);
            lemma_mul_is_commutative(d as int, q as int);
        }
    }
    if r > d - r || (r == d - r && q % 2 == 1) {
        q + 1
    } else {
        q
    }
}

/// [`rounded`], computed: the encoding, without the sign bit, of
/// `(n / d) * 2^e` rounded to `p`.
pub fn round(p: Precision, n: u128, d: u64, e: i64) -> (raw: u64)
    requires
        n > 0,
        d > 0,
        bit_length(n as nat) + bit_length(d as nat) <= 127,
        -8192 <= e <= 8192,
    ensures
        raw == rounded(p, n as nat, d as nat, e as int),
        raw <= p.infinity(),
{
    let f = p.fraction_len();
    let emin = p.smallest_exponent();
    let ln = count_bits(n);
    let ld = count_bits(d as u128);
    proof {
        lemma_bit_length_bounds(n as nat);
        lemma_bit_length_bounds(d as nat);
        lemma_bit_length_fits_word(d);
        lemma_pow2_127();
        lemma_product_below(n as nat, ln as nat, pow2(ld as nat), ld as nat);
        lemma_product_below(d as nat, ld as nat, pow2(ln as nat), ln as nat);
        lemma_pow2_monotone((ln + ld) as nat, 127);
    }
    let above = n * power_of_two(ld) >= (d as u128) * power_of_two(ln);
    let t = if above {
        ln as i64 - ld as i64 + e
    } else {
        ln as i64 - ld as i64 - 1 + e
    };
    let u = if t - f as i64 > emin {
        t - f as i64
    } else {
        emin
    };
    let q = if e >= u {
        let k = (e - u) as u32;
        proof {
            lemma_product_below(n as nat, ln as nat, pow2(k as nat), k as nat);
            lemma_pow2_monotone((ln + k) as nat, 117);
            lemma_pow2_monotone(117, 127);
        }
        divide_half_even(n * power_of_two(k), d as u128)
    } else if u - e > 127 - ld as i64 {
        proof {
            let s = (u - e) as nat;
            let big = d as nat * pow2(s);
            lemma_pow2_monotone(ln as nat, (127 - ld) as nat);
            lemma_pow2_unfold((128 - ld) as nat);
            lemma_pow2_monotone((128 - ld) as nat, (ld - 1 + s) as nat);
            lemma_pow2_adds((ld - 1) as nat, s);
            lemma_pow2_pos(s);
            lemma_mul_inequality(pow2((ld - 1) as nat) as int, d as int, pow2(s) as int);
            assert(2 * n < big);
            lemma_basic_div(n as int, big as int);
            lemma_small_mod(n as nat, big);
        }
        0
    } else {
        let s = (u - e) as u32;
        proof {
            lemma_product_below(d as nat, ld as nat, pow2(s as nat), s as nat);
            lemma_pow2_monotone((ld + s) as nat, 127);
            lemma_pow2_pos(s as nat);
            lemma_mul_strictly_positive(d as int, pow2(s as nat) as int);
        }
        divide_half_even(n, (d as u128) * power_of_two(s))
    };
    proof {
        lemma_pow2_monotone(f as nat, 52);
        lemma2_to64_rest();
        lemma_mul_inequality((u - emin) as int, 16384, pow2(f as nat) as int);
        lemma_mul_inequality(pow2(f as nat) as int, pow2(52) as int, 16384);
        lemma_mul_is_commutative(pow2(f as nat) as int, 16384);
        lemma_mul_is_commutative(pow2(52) as int, 16384);
        lemma_pow2_monotone(ln as nat, 126);
        lemma_pow2_unfold(127);
    }
    let raw = ((u - emin) as u128) * power_of_two(f) + q;
    if raw >= p.infinity_bits() as u128 {
        p.infinity_bits()
    } else {
        raw as u64
    }
}

/// `pow2` does not decrease.
pub proof fn lemma_pow2_monotone(a: nat, b: nat)
    requires
        a <= b,
    ensures
        pow2(a) <= pow2(b),
{
    if a < b {
        lemma_pow2_strictly_increases(a, b);
    }
}

/// The largest power of two of 128 binary digits.
pub proof fn lemma_pow2_127()
    ensures
        pow2(127) == 0x8000_0000_0000_0000_0000_0000_0000_0000,
{
    lemma2_to64();
    lemma2_to64_rest();
    lemma_pow2_adds(64, 63);
}

/// Shifting one to the left by `k` places gives `2^k`.
pub proof fn lemma_shift_is_power(k: u32)
    requires
        k <= 127,
    ensures
        (1u128 << k) == pow2(k as nat),
    decreases k,
{
    if k == 0 {
        lemma2_to64();
        assert((1u128 << 0u32) == 1) by (bit_vector);
    } else {
        let below = (k - 1) as u32;
        lemma_shift_is_power(below);
        lemma_pow2_unfold(k as nat);
        assert((1u128 << k) == 2 * (1u128 << below)) by (bit_vector)
            requires
                1 <= k <= 127,
                below == k - 1,
        ;
    }
}

/// Comparing two numbers is comparing their multiples by a power of two.
pub proof fn lemma_scaled_order(x: int, y: int, c: nat)
    ensures
        x <= y <==> x * pow2(c) <= y * pow2(c),
        x < y <==> x * pow2(c) < y * pow2(c),
{
    lemma_pow2_pos(c);
    let w = pow2(c) as int;
    assert((x <= y <==> x * w <= y * w) && (x < y <==> x * w < y * w)) by (nonlinear_arith)
        requires
            w > 0,
    ;
}

/// Numbers of `a` and `b` digits have a product below `2^(a+b)`.
pub proof fn lemma_product_below(x: nat, a: nat, y: nat, b: nat)
    requires
        x < pow2(a),
        y <= pow2(b),
    ensures
        x * y < pow2(a + b),
{
    lemma_pow2_adds(a, b);
    lemma_pow2_pos(b);
    if y > 0 {
        lemma_mul_strict_inequality(x as int, pow2(a) as int, y as int);
        lemma_mul_inequality(y as int, pow2(b) as int, pow2(a) as int);
        lemma_mul_is_commutative(y as int, pow2(a) as int);
        lemma_mul_is_commutative(pow2(b) as int, pow2(a) as int);
    } else {
        lemma_mul_basics(x as int);
        lemma_pow2_pos(a + b);
    }
}

/// A positive number has at least one digit, and its digits bracket it.
pub proof fn lemma_bit_length_bounds(m: nat)
    requires
        m > 0,
    ensures
        bit_length(m) >= 1,
        pow2((bit_length(m) - 1) as nat) <= m < pow2(bit_length(m)),
    decreases m,
{
    lemma2_to64();
    if m == 1 {
        assert(bit_length(1) == 1 + bit_length(0));
    } else {
        lemma_bit_length_bounds(m / 2);
        let p = bit_length(m / 2);
        assert(bit_length(m) == 1 + p);
        lemma_pow2_unfold(p);
        lemma_pow2_unfold(p + 1);
    }
}

/// Only one digit count brackets a number.
pub proof fn lemma_bit_length_unique(m: nat, p: nat)
    requires
        p >= 1,
        pow2((p - 1) as nat) <= m < pow2(p),
    ensures
        bit_length(m) == p,
{
    lemma_pow2_pos((p - 1) as nat);
    lemma_bit_length_bounds(m);
    let b = bit_length(m);
    if b < p {
        if b < p - 1 {
            lemma_pow2_strictly_increases(b, (p - 1) as nat);
        }
    } else if b > p {
        if p < b - 1 {
            lemma_pow2_strictly_increases(p, (b - 1) as nat);
        }
    }
}

/// A number below `2^p` has at most `p` binary digits.
pub proof fn lemma_bit_length_at_most(m: nat, p: nat)
    requires
        m < pow2(p),
    ensures
        bit_length(m) <= p,
{
    if m > 0 {
        lemma_bit_length_bounds(m);
        let b = bit_length(m);
        if b > p {
            lemma_pow2_monotone(p, (b - 1) as nat);
        }
    }
}

/// A 64-bit integer has at most 64 binary digits.
pub proof fn lemma_bit_length_fits_word(m: u64)
    ensures
        bit_length(m as nat) <= 64,
{
    if m > 0 {
        lemma_bit_length_bounds(m as nat);
        lemma2_to64();
        let b = bit_length(m as nat);
        if b - 1 > 64 {
            lemma_pow2_strictly_increases(64, (b - 1) as nat);
        }
    }
}

/// Multiplying by `2^j` adds `j` binary digits.
pub proof fn lemma_bit_length_shifted(n: nat, j: nat)
    requires
        n > 0,
    ensures
        bit_length(n * pow2(j)) == bit_length(n) + j,
{
    lemma_bit_length_bounds(n);
    let b = bit_length(n);
    lemma_pow2_adds((b - 1) as nat, j);
    lemma_pow2_adds(b, j);
    lemma_scaled_order(pow2((b - 1) as nat) as int, n as int, j);
    lemma_scaled_order(n as int, pow2(b) as int, j);
    lemma_bit_length_unique(n * pow2(j), b + j);
}

/// A number of more than 64 digits has 64 more than its part above them.
pub proof fn lemma_bit_length_of_high_part(m: nat)
    requires
        m >= 0x1_0000_0000_0000_0000,
    ensures
        bit_length(m) == 64 + bit_length(m / 0x1_0000_0000_0000_0000),
{
    lemma2_to64();
    let high = m / 0x1_0000_0000_0000_0000;
    let low = m % 0x1_0000_0000_0000_0000;
    lemma_bit_length_bounds(high);
    let b = bit_length(high);
    lemma_pow2_adds((b - 1) as nat, 64);
    lemma_pow2_adds(b, 64);
    assert(pow2((b - 1) as nat) * pow2(64) <= m < pow2(b) * pow2(64)) by (nonlinear_arith)
        requires
            pow2((b - 1) as nat) <= high < pow2(b),
            m == high * 0x1_0000_0000_0000_0000 + low,
            0 <= low < 0x1_0000_0000_0000_0000,
            pow2(64) == 0x1_0000_0000_0000_0000,
    ;
    lemma_bit_length_unique(m, b + 64);
}

/// The digits of a 64-bit integer are those that its leading zeros leave.
pub proof fn lemma_leading_zeros(m: u64)
    ensures
        bit_length(m as nat) == 64 - u64_leading_zeros(m),
    decreases m,
{
    reveal(u64_leading_zeros);
    if m != 0 {
        lemma_leading_zeros(m / 2);
    }
}

/// [`ratio_exponent`] is the exponent of the power of two at or below the
/// quotient: with `t` for it, `2^t <= n / d < 2^(t+1)`. Written without
/// fractions, for `t` of either sign.
pub proof fn lemma_ratio_exponent_brackets(n: nat, d: nat)
    requires
        n > 0,
        d > 0,
    ensures
        ({
            let t = ratio_exponent(n, d);
            &&& t >= 0 ==> d * pow2(t as nat) <= n < 2 * (d * pow2(t as nat))
            &&& t < 0 ==> d <= n * pow2((-t) as nat) < 2 * d
        }),
{
    let t = ratio_exponent(n, d);
    let bn = bit_length(n);
    let bd = bit_length(d);
    lemma_bit_length_bounds(n);
    lemma_bit_length_bounds(d);
    let hn = pow2((bn - 1) as nat);
    let hd = pow2((bd - 1) as nat);
    lemma_pow2_unfold(bn);
    lemma_pow2_unfold(bd);
    let above = n * pow2(bd) >= d * pow2(bn);
    assert(above <==> n * hd >= d * hn) by (nonlinear_arith)
        requires
            above <==> n * (2 * hd) >= d * (2 * hn),
    ;
    if bn >= bd {
        let c = pow2((bn - bd) as nat);
        lemma_pow2_adds((bd - 1) as nat, (bn - bd) as nat);
        lemma_pow2_pos((bn - bd) as nat);
        // hn == hd * c
        if above {
            assert(d * c <= n && n < 2 * (d * c)) by (nonlinear_arith)
                requires
                    n * hd >= d * (hd * c),
                    hd > 0,
                    c > 0,
                    hd <= d,
                    n < 2 * (hd * c),
            ;
        } else if bn > bd {
            let b = pow2((bn - bd - 1) as nat);
            lemma_pow2_unfold((bn - bd) as nat);
            assert(d * b <= n && n < 2 * (d * b)) by (nonlinear_arith)
                requires
                    n * hd < d * (hd * (2 * b)),
                    hd > 0,
                    b > 0,
                    d < 2 * hd,
                    hd * (2 * b) <= n,
            ;
        } else {
            lemma2_to64();
            assert(d <= n * 2 && n * 2 < 2 * d) by (nonlinear_arith)
                requires
                    n * hd < d * hd,
                    hd > 0,
                    d < 2 * hd,
                    hd <= n,
            ;
        }
    } else {
        let c = pow2((bd - bn) as nat);
        lemma_pow2_adds((bn - 1) as nat, (bd - bn) as nat);
        lemma_pow2_pos((bd - bn) as nat);
        // hd == hn * c
        if above {
            assert(d <= n * c && n * c < 2 * d) by (nonlinear_arith)
                requires
                    n * (hn * c) >= d * hn,
                    hn > 0,
                    c > 0,
                    hn * c <= d,
                    n < 2 * hn,
            ;
        } else {
            let b = pow2((bd - bn + 1) as nat);
            lemma_pow2_unfold((bd - bn + 1) as nat);
            assert(d <= n * (2 * c) && n * (2 * c) < 2 * d) by (nonlinear_arith)
                requires
                    n * (hn * c) < d * hn,
                    hn > 0,
                    c > 0,
                    d < 2 * (hn * c),
                    hn <= n,
            ;
        }
    }
}

/// The exponent of a whole number is one less than its number of digits.
pub proof fn lemma_ratio_exponent_whole(n: nat)
    requires
        n > 0,
    ensures
        ratio_exponent(n, 1) == bit_length(n) - 1,
{
    lemma2_to64();
    lemma_bit_length_bounds(n);
    lemma_pow2_unfold(bit_length(n));
    assert(bit_length(1) == 1 + bit_length(0));
    assert(n * pow2(1) == 2 * n);
    assert(1 * pow2(bit_length(n)) == pow2(bit_length(n)));
}

/// Multiplying the numerator by `2^j` raises the exponent of the quotient by
/// `j`.
pub proof fn lemma_ratio_exponent_shifted(n: nat, d: nat, j: nat)
    requires
        n > 0,
        d > 0,
    ensures
        ratio_exponent(n * pow2(j), d) == ratio_exponent(n, d) + j,
{
    lemma_bit_length_shifted(n, j);
    let bn = bit_length(n);
    let bd = bit_length(d);
    let c = pow2(j);
    lemma_pow2_adds(bn, j);
    lemma_pow2_pos(j);
    let left = n * pow2(bd);
    let right = d * pow2(bn);
    assert((n * c) * pow2(bd) == left * c && d * (pow2(bn) * c) == right * c)
        by (nonlinear_arith)
        requires
            left == n * pow2(bd),
            right == d * pow2(bn),
    ;
    lemma_scaled_order(right as int, left as int, j);
}

/// Rounding half to even keeps a quotient between whole bounds.
pub proof fn lemma_round_half_even_bounds(n: nat, d: nat, low: nat, high: nat)
    requires
        d > 0,
    ensures
        d * low <= n ==> round_half_even(n, d) >= low,
        n < d * high ==> round_half_even(n, d) <= high,
{
    lemma_fundamental_div_mod(n as int, d as int);
    let q = n / d;
    let r = n % d;
    assert(0 <= r < d);
    if d * low <= n {
        assert(q >= low) by (nonlinear_arith)
            requires
                d * low <= n,
                n == d * q + r,
                0 <= r < d,
        ;
    }
    if n < d * high {
        assert(q < high) by (nonlinear_arith)
            requires
                n < d * high,
                n == d * q + r,
                0 <= r < d,
        ;
    }
}

/// Rounding half to even gives at least one for a quotient above one half.
pub proof fn lemma_round_half_even_positive(n: nat, d: nat)
    requires
        d > 0,
        2 * n > d,
    ensures
        round_half_even(n, d) >= 1,
{
    lemma_fundamental_div_mod(n as int, d as int);
    lemma_div_pos_is_pos(n as int, d as int);
    if n / d == 0 {
        assert(d * (n / d) == 0) by (nonlinear_arith)
            requires
                n / d == 0,
        ;
    }
}

/// Rounding half to even is off by at most half a unit.
pub proof fn lemma_round_half_even_error(n: nat, d: nat)
    requires
        d > 0,
    ensures
        2 * (round_half_even(n, d) * d) <= 2 * n + d,
        2 * n <= 2 * (round_half_even(n, d) * d) + d,
{
    let q = n / d;
    let r = n % d;
    lemma_fundamental_div_mod(n as int, d as int);
    assert((q + 1) * d == q * d + d && q * d == d * q) by (nonlinear_arith);
}

/// A factor common to numerator and denominator does not change the
/// rounding of their quotient.
pub proof fn lemma_round_half_even_cancels(n: nat, d: nat, c: nat)
    requires
        d > 0,
        c > 0,
    ensures
        round_half_even(n * c, d * c) == round_half_even(n, d),
{
    let q = n / d;
    let r = n % d;
    lemma_fundamental_div_mod(n as int, d as int);
    lemma_mul_strictly_positive(d as int, c as int);
    assert(n * c == q * (d * c) + r * c && 0 <= r * c < d * c && (2 * (r * c) > d * c <==> 2 * r
        > d) && (2 * (r * c) == d * c <==> 2 * r == d)) by (nonlinear_arith)
        requires
            n == d * q + r,
            0 <= r < d,
            c > 0,
    ;
    lemma_fundamental_div_mod_converse((n * c) as int, (d * c) as int, q as int, (r * c) as int);
}

/// The rounded value has the digits its unit promises: a value of full
/// precision has between `2^fraction_bits` and twice as many units, the
/// upper bound being reached only by a carry; any other has at most
/// `2^fraction_bits`, and is then subnormal or the smallest normal value.
pub proof fn lemma_units_range(p: Precision, n: nat, d: nat, e: int)
    requires
        n > 0,
        d > 0,
    ensures
        ({
            let t = ratio_exponent(n, d) + e;
            let u = unit_exponent(p, n, d, e);
            let q = units(p, n, d, e);
            let f = p.fraction_bits();
            &&& u >= p.min_exponent()
            &&& u >= t - f
            &&& u == t - f ==> pow2(f) <= q <= 2 * pow2(f)
            &&& u > t - f ==> q <= pow2(f)
        }),
{
    let r = ratio_exponent(n, d);
    let t = r + e;
    let u = unit_exponent(p, n, d, e);
    let f = p.fraction_bits();
    let w = pow2(f);
    lemma_pow2_pos(f);
    lemma_ratio_exponent_brackets(n, d);
    if e >= u {
        let k = (e - u) as nat;
        let c = pow2(k);
        lemma_pow2_pos(k);
        let big = n * c;
        if u == t - f {
            // k == f - r
            if r >= 0 {
                lemma_pow2_adds(r as nat, k);
                let b = pow2(r as nat);
                assert(d * w <= big < d * (2 * w)) by (nonlinear_arith)
                    requires
                        d * b <= n < 2 * (d * b),
                        w == b * c,
                        c > 0,
                        big == n * c,
                ;
            } else {
                lemma_pow2_adds((-r) as nat, f);
                let b = pow2((-r) as nat);
                assert(d * w <= big < d * (2 * w)) by (nonlinear_arith)
                    requires
                        d <= n * b < 2 * d,
                        c == b * w,
                        w > 0,
                        big == n * c,
                ;
            }
            lemma_round_half_even_bounds(big, d, w, 2 * w);
        } else {
            // r + k < f
            if r >= 0 {
                let b = pow2(r as nat);
                lemma_pow2_adds((r + 1) as nat, k);
                lemma_pow2_unfold((r + 1) as nat);
                lemma_pow2_monotone((r + 1 + k) as nat, f);
                assert(big < d * w) by (nonlinear_arith)
                    requires
                        n < 2 * (d * b),
                        (2 * b) * c <= w,
                        c > 0,
                        big == n * c,
                ;
            } else {
                let b = pow2((-r) as nat);
                // k <= f - r - 1
                lemma_pow2_pos((-r) as nat);
                lemma_pow2_monotone(k, (f - r - 1) as nat);
                lemma_pow2_adds((-r) as nat, f);
                lemma_pow2_unfold((f - r) as nat);
                assert(big < d * w) by (nonlinear_arith)
                    requires
                        n * b < 2 * d,
                        2 * c <= b * w,
                        b > 0,
                        w > 0,
                        c > 0,
                        n > 0,
                        big == n * c,
                ;
            }
            lemma_round_half_even_bounds(big, d, w, w);
        }
    } else {
        let k = (u - e) as nat;
        let c = pow2(k);
        lemma_pow2_pos(k);
        let low = d * c;
        lemma_mul_strictly_positive(d as int, c as int);
        if u == t - f {
            // r == k + f > 0
            let b = pow2(r as nat);
            lemma_pow2_adds(k, f);
            assert(low * w <= n < low * (2 * w)) by (nonlinear_arith)
                requires
                    d * b <= n < 2 * (d * b),
                    b == c * w,
                    low == d * c,
            ;
            lemma_round_half_even_bounds(n, low, w, 2 * w);
        } else {
            // r < k + f
            if r >= 0 {
                let b = pow2(r as nat);
                lemma_pow2_unfold((r + 1) as nat);
                lemma_pow2_monotone((r + 1) as nat, k + f);
                lemma_pow2_adds(k, f);
                assert(n < low * w) by (nonlinear_arith)
                    requires
                        n < 2 * (d * b),
                        2 * b <= c * w,
                        low == d * c,
                        d > 0,
                ;
            } else {
                let b = pow2((-r) as nat);
                lemma_pow2_pos((-r) as nat);
                lemma_pow2_adds(k, f);
                lemma_pow2_monotone(1, k + f);
                lemma2_to64();
                assert(n < low * w) by (nonlinear_arith)
                    requires
                        n * b < 2 * d,
                        b >= 1,
                        2 <= c * w,
                        low == d * c,
                        d > 0,
                        n > 0,
                ;
            }
            lemma_round_half_even_bounds(n, low, w, w);
        }
    }
}

/// A value above half the smallest positive value of the format does not
/// round to zero.
pub proof fn lemma_rounded_positive(p: Precision, n: nat, d: nat, e: int)
    requires
        n > 0,
        d > 0,
        e >= p.min_exponent() ==> 2 * (n * pow2((e - p.min_exponent()) as nat)) > d,
        e < p.min_exponent() ==> 2 * n > d * pow2((p.min_exponent() - e) as nat),
    ensures
        0 < rounded(p, n, d, e) <= p.infinity(),
{
    let t = ratio_exponent(n, d) + e;
    let u = if t - p.fraction_bits() > p.min_exponent() {
        t - p.fraction_bits()
    } else {
        p.min_exponent()
    };
    let q = if e >= u {
        round_half_even(n * pow2((e - u) as nat), d)
    } else {
        round_half_even(n, d * pow2((u - e) as nat))
    };
    lemma_pow2_pos(p.fraction_bits());
    if u > p.min_exponent() {
        lemma_mul_inequality(1, u - p.min_exponent(), pow2(p.fraction_bits()) as int);
    } else if e >= u {
        lemma_round_half_even_positive(n * pow2((e - u) as nat), d);
    } else {
        lemma_pow2_pos((u - e) as nat);
        lemma_mul_strictly_positive(d as int, pow2((u - e) as nat) as int);
        lemma_round_half_even_positive(n, d * pow2((u - e) as nat));
    }
}

/// Doubling a value of full precision doubles its rounding: the exponent
/// field of the result goes up by one, unless that is infinity.
pub proof fn lemma_rounded_doubles(p: Precision, n: nat, d: nat, e: int)
    requires
        n > 0,
        d > 0,
        ratio_exponent(n, d) + e - p.fraction_bits() >= p.min_exponent(),
    ensures
        rounded(p, n, d, e + 1) == if rounded(p, n, d, e) + pow2(p.fraction_bits())
            >= p.infinity() {
            p.infinity()
        } else {
            rounded(p, n, d, e) + pow2(p.fraction_bits())
        },
{
    let u = unit_exponent(p, n, d, e);
    assert(unit_exponent(p, n, d, e + 1) == u + 1);
    assert(units(p, n, d, e + 1) == units(p, n, d, e));
    let w = pow2(p.fraction_bits());
    assert((u + 1 - p.min_exponent()) * w == (u - p.min_exponent()) * w + w)
        by (nonlinear_arith);
}

/// A power of two may go from the numerator to the exponent: the value, and
/// so its rounding, is the same.
pub proof fn lemma_rounded_rescaled(p: Precision, n: nat, d: nat, e: int, j: nat)
    requires
        n > 0,
        d > 0,
    ensures
        unit_exponent(p, n * pow2(j), d, e) == unit_exponent(p, n, d, e + j),
        units(p, n * pow2(j), d, e) == units(p, n, d, e + j),
        rounded(p, n * pow2(j), d, e) == rounded(p, n, d, e + j),
{
    lemma_ratio_exponent_shifted(n, d, j);
    let u = unit_exponent(p, n, d, e + j);
    let c = pow2(j);
    lemma_pow2_pos(j);
    if e >= u {
        let k = (e - u) as nat;
        lemma_pow2_adds(j, k);
        assert((n * c) * pow2(k) == n * (c * pow2(k))) by (nonlinear_arith);
    } else if e + j >= u {
        let k = (e + j - u) as nat;
        let back = (u - e) as nat;
        lemma_pow2_adds(k, back);
        lemma_pow2_pos(back);
        assert(n * c == (n * pow2(k)) * pow2(back)) by (nonlinear_arith)
            requires
                c == pow2(k) * pow2(back),
        ;
        lemma_round_half_even_cancels(n * pow2(k), d, pow2(back));
    } else {
        let k = (u - e - j) as nat;
        lemma_pow2_adds(k, j);
        assert(d * pow2((u - e) as nat) == (d * pow2(k)) * c) by (nonlinear_arith)
            requires
                pow2((u - e) as nat) == pow2(k) * c,
        ;
        lemma_pow2_pos(k);
        lemma_mul_strictly_positive(d as int, pow2(k) as int);
        lemma_round_half_even_cancels(n, d * pow2(k), c);
    }
}

/// A power of two common to numerator and denominator does not change the
/// rounding.
pub proof fn lemma_rounded_cancels(p: Precision, n: nat, d: nat, e: int, j: nat)
    requires
        n > 0,
        d > 0,
    ensures
        rounded(p, n * pow2(j), d * pow2(j), e) == rounded(p, n, d, e),
{
    let c = pow2(j);
    lemma_pow2_pos(j);
    lemma_bit_length_shifted(n, j);
    lemma_bit_length_shifted(d, j);
    let bn = bit_length(n);
    let bd = bit_length(d);
    lemma_pow2_adds(bn, j);
    lemma_pow2_adds(bd, j);
    let left = n * pow2(bd);
    let right = d * pow2(bn);
    assert((n * c) * (pow2(bd) * c) == (left * c) * c && (d * c) * (pow2(bn) * c) == (right * c)
        * c) by (nonlinear_arith)
        requires
            left == n * pow2(bd),
            right == d * pow2(bn),
    ;
    lemma_scaled_order(right as int, left as int, j);
    lemma_scaled_order((right * c) as int, (left * c) as int, j);
    assert(ratio_exponent(n * c, d * c) == ratio_exponent(n, d));
    let u = unit_exponent(p, n, d, e);
    lemma_mul_strictly_positive(d as int, c as int);
    if e >= u {
        let k = pow2((e - u) as nat);
        assert((n * c) * k == (n * k) * c) by (nonlinear_arith);
        lemma_round_half_even_cancels(n * k, d, c);
    } else {
        let k = pow2((u - e) as nat);
        lemma_pow2_pos((u - e) as nat);
        lemma_mul_strictly_positive(d as int, k as int);
        assert((d * c) * k == (d * k) * c) by (nonlinear_arith);
        lemma_round_half_even_cancels(n, d * k, c);
    }
}

} // verus!
