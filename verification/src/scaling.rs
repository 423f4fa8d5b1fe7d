//! What holds of panning and zooming.
//!
//! The pan step follows the scale; zooming keeps the scale positive; and
//! zooming in and out again comes back to where it started, as far as
//! rounding allows.
use crate::fragment::{
    transform_step, zoom_factor, FragmentState, Key, TRANSFORM_STEP, ZOOM_FACTOR,
};
use crate::ieee::{
    lemma_doubling_raises_exponent, lemma_encoding_in_ulps, lemma_operations_on_ulps,
    lemma_parts, lemma_rounded_decoded, Binary64, HIDDEN, INFINITY,
};
use crate::rounding::{
    lemma_bit_length_at_most, lemma_bit_length_unique, lemma_pow2_monotone,
    lemma_product_below, lemma_ratio_exponent_whole, lemma_round_half_even_bounds,
    lemma_round_half_even_error, lemma_round_half_even_positive, lemma_rounded_doubles,
    lemma_rounded_positive, lemma_rounded_rescaled, lemma_scaled_order, lemma_units_range,
    ratio_exponent, round_half_even, rounded, unit_exponent, units, Precision,
};
use vstd::arithmetic::mul::*;
use vstd::arithmetic::power2::*;
use vstd::prelude::*;

verus! {

/// The pan step is proportional to the scale: at twice the scale a key moves
/// the center twice as far.
///
/// This holds where no precision is lost at either end of the range: the
/// exact step at the given scale is no less than the smallest normal value,
/// and twice the scale is finite.
pub proof fn lemma_pan_step_doubles(state: FragmentState)
    requires
        state.wf(),
        state.scale.magnitude() < INFINITY - HIDDEN,
        transform_step().product_exponent(state.scale) >= -1022,
    ensures
        state.with_scale(state.scale.doubling()).pan_step() == state.pan_step().doubling(),
{
    lemma2_to64();
    lemma2_to64_rest();
    let c = Binary64 { bits: TRANSFORM_STEP };
    let x = state.scale;
    assert(c.magnitude() / (HIDDEN as nat) == 1016 && c.magnitude() % (HIDDEN as nat)
        == 0x4_7ae1_47ae_147b);
    lemma_parts(x);
    let sc = c.significand();
    let sx = x.significand();
    let e = c.exponent() + x.exponent();
    let n = sc * sx;
    lemma_product_below(sc, 53, sx, 53);
    lemma_mul_strictly_positive(sc as int, sx as int);
    lemma_bit_length_at_most(n, 106);
    lemma_ratio_exponent_whole(n);
    let t = ratio_exponent(n, 1) + e;
    // A step that is a normal number comes from a scale that is one.
    assert(x.is_normal());
    lemma_doubling_raises_exponent(x);
    assert(t <= 1016);
    lemma_units_range(Precision::Double, n, 1, e);
    lemma_rounded_doubles(Precision::Double, n, 1, e);
    let u = unit_exponent(Precision::Double, n, 1, e);
    let q = units(Precision::Double, n, 1, e);
    let h = HIDDEN as nat;
    assert(h <= (u + 1074) * pow2(52) + q <= 2040 * h) by (nonlinear_arith)
        requires
            0 <= u + 1074 <= 2038,
            h <= q <= 2 * h,
            pow2(52) == h,
    ;
    let step = state.pan_step();
    assert(step.bits == rounded(Precision::Double, n, 1, e));
    lemma_doubling_raises_exponent(step);
}

/// The significand of [`ZOOM_FACTOR`]: the factor is this many units of
/// `2^-52`.
const ZOOM_ULPS: u64 = 0x10_cccc_cccc_cccd;

/// How many units of the quotient's last place make one of the scale's,
/// times `2^52`.
spec fn quotient_grid(halved: bool) -> nat {
    if halved {
        2 * (HIDDEN as nat)
    } else {
        HIDDEN as nat
    }
}

/// The heart of [`lemma_zoom_round_trip`], on whole numbers.
///
/// A scale of `qs` units of `2^us` is divided by the zoom factor. The
/// quotient has `q1` units of `2^us`, or of half that where the scale has
/// full precision and the quotient falls into the binade below (`halved`).
/// Multiplied by the zoom factor again, the quotient rounds to the encoding
/// of the scale or to a neighbour of it.
proof fn lemma_round_trip_on_units(qs: nat, us: int, halved: bool, q1: nat)
    requires
        1 <= qs < 2 * HIDDEN,
        -1074 <= us <= 971,
        qs < HIDDEN ==> us == -1074,
        halved == (HIDDEN <= qs < ZOOM_ULPS && us > -1074),
        q1 == round_half_even(qs * quotient_grid(halved), ZOOM_ULPS as nat),
    ensures
        ({
            let m = (us + 1074) * HIDDEN + qs;
            let u1 = if halved {
                us - 1
            } else {
                us
            };
            &&& q1 >= 1
            &&& m - 1 <= rounded(Precision::Double, q1 * (ZOOM_ULPS as nat), 1, u1 - 52) <= m + 1
        }),
{
    lemma2_to64();
    lemma2_to64_rest();
    let h: nat = HIDDEN as nat;
    let zs: nat = ZOOM_ULPS as nat;
    let p: nat = quotient_grid(halved);
    let u1 = if halved { us - 1 } else { us };
    let g = u1 - 52;
    let start = qs * p;
    let w = q1 * zs;
    assert(start >= h) by (nonlinear_arith)
        requires
            start == qs * p,
            qs >= 1,
            p >= h,
    ;
    lemma_round_half_even_positive(start, zs);
    lemma_round_half_even_error(start, zs);
    assert(w >= zs) by (nonlinear_arith)
        requires
            w == q1 * zs,
            q1 >= 1,
            zs > 0,
    ;
    lemma_ratio_exponent_whole(w);
    lemma_pow2_adds(52, 52);
    lemma_pow2_adds(52, 53);
    lemma_pow2_adds(53, 53);
    let hh = h * h;
    assert(pow2(104) == hh && pow2(105) == 2 * hh && pow2(106) == 4 * hh && h * p == if halved {
        2 * hh
    } else {
        hh
    }) by (nonlinear_arith)
        requires
            hh == h * h,
            pow2(104) == h * h,
            pow2(105) == h * (2 * h),
            pow2(106) == (2 * h) * (2 * h),
            p == if halved {
                2 * h
            } else {
                h
            },
    ;
    lemma_pow2_unfold(104);
    // The product is within half a zoom factor of the scale, in units of
    // `2^(u1 - 52)`.
    assert(2 * w <= 2 * start + zs && 2 * start <= 2 * w + zs);
    let m = (us + 1074) * h + qs;
    let u2 = unit_exponent(Precision::Double, w, 1, g);
    let q2 = units(Precision::Double, w, 1, g);
    if qs < h {
        // A subnormal scale: everything stays on the grid of `2^-1074`.
        assert(w < hh) by (nonlinear_arith)
            requires
                2 * w <= 2 * start + zs,
                start == qs * h,
                qs + 1 <= h,
                zs < 2 * h,
                hh == h * h,
        ;
        lemma_bit_length_at_most(w, 104);
        assert(u2 == -1074);
        assert(1 * pow2(52) == h);
        assert(h * (qs - 1) <= w < h * (qs + 1)) by (nonlinear_arith)
            requires
                2 * w <= 2 * start + zs,
                2 * start <= 2 * w + zs,
                start == qs * h,
                zs < 2 * h,
        ;
        lemma_round_half_even_bounds(w, h, (qs - 1) as nat, qs + 1);
        assert((u2 + 1074) * pow2(52) == 0) by (nonlinear_arith)
            requires
                u2 == -1074,
        ;
    } else if w >= h * p {
        // The product lies in the binade of the scale.
        assert(w < 2 * (h * p)) by (nonlinear_arith)
            requires
                2 * w <= 2 * start + zs,
                start == qs * p,
                qs + 1 <= 2 * h,
                zs < 2 * p,
        ;
        if halved {
            lemma_bit_length_unique(w, 106);
        } else {
            lemma_bit_length_unique(w, 105);
        }
        assert(u2 == us);
        assert(1 * pow2((us - g) as nat) == p);
        assert(p * (qs - 1) <= w < p * (qs + 1)) by (nonlinear_arith)
            requires
                2 * w <= 2 * start + zs,
                2 * start <= 2 * w + zs,
                start == qs * p,
                zs < 2 * p,
        ;
        lemma_round_half_even_bounds(w, p, (qs - 1) as nat, qs + 1);
        assert((u2 + 1074) * pow2(52) == (us + 1074) * h) by (nonlinear_arith)
            requires
                u2 == us,
                pow2(52) == h,
        ;
    } else {
        // The product lies just below the binade of the scale, which is
        // therefore a power of two.
        assert(qs == h) by (nonlinear_arith)
            requires
                2 * start <= 2 * w + zs,
                start == qs * p,
                w < h * p,
                zs < 2 * p,
                qs >= h,
                p > 0,
        ;
        assert(h * (2 * h - 1) <= hh * 2 - h && hh * 2 - h <= hh * 2) by (nonlinear_arith)
            requires
                hh == h * h,
                h > 0,
        ;
        if halved {
            assert(hh <= w) by (nonlinear_arith)
                requires
                    2 * start <= 2 * w + zs,
                    start == h * (2 * h),
                    hh == h * h,
                    zs < 2 * h,
                    h >= 2,
            ;
            lemma_bit_length_unique(w, 105);
            assert(u2 == u1);
            assert(1 * pow2(52) == h);
            assert(h * (2 * h - 1) <= w < h * (2 * h)) by (nonlinear_arith)
                requires
                    2 * start <= 2 * w + zs,
                    start == h * (2 * h),
                    w < h * (2 * h),
                    zs < 2 * h,
            ;
            lemma_round_half_even_bounds(w, h, (2 * h - 1) as nat, 2 * h);
            assert((u2 + 1074) * pow2(52) == (us + 1074) * h - h) by (nonlinear_arith)
                requires
                    u2 == us - 1,
                    pow2(52) == h,
            ;
        } else {
            assert(us == -1074);
            assert(pow2(103) <= w) by (nonlinear_arith)
                requires
                    2 * start <= 2 * w + zs,
                    start == h * h,
                    2 * pow2(103) == h * h,
                    zs < 2 * h,
                    h >= 4,
            ;
            lemma_bit_length_unique(w, 104);
            assert(u2 == -1074);
            assert(1 * pow2(52) == h);
            assert(h * (h - 1) <= w < h * h) by (nonlinear_arith)
                requires
                    2 * start <= 2 * w + zs,
                    start == h * h,
                    w < h * h,
                    zs < 2 * h,
            ;
            lemma_round_half_even_bounds(w, h, (h - 1) as nat, h);
            assert((u2 + 1074) * pow2(52) == 0) by (nonlinear_arith)
                requires
                    u2 == -1074,
            ;
        }
    }
}

/// The quotient of a scale by the zoom factor falls into the binade below
/// that of the scale.
spec fn zoom_halves_unit(scale: Binary64) -> bool {
    HIDDEN <= scale.ulps() < ZOOM_ULPS && scale.ulp_exponent() > -1074
}

/// The zoom factor is `ZOOM_ULPS` units of `2^-52`.
proof fn lemma_zoom_factor_decoded()
    ensures
        zoom_factor().is_normal(),
        !zoom_factor().negative(),
        zoom_factor().ulps() == ZOOM_ULPS,
        zoom_factor().ulp_exponent() == -52,
{
    let zoom = zoom_factor();
    let h = HIDDEN as nat;
    assert(zoom.magnitude() / h == 1023 && zoom.magnitude() % h == 0xcccc_cccc_cccd);
}

/// Zooming in, on units: the unit of the quotient and how many of them it
/// has.
proof fn lemma_zoom_in_on_units(scale: Binary64)
    requires
        0 < scale.bits < INFINITY,
    ensures
        ({
            let qs = scale.ulps();
            let us = scale.ulp_exponent();
            let halved = zoom_halves_unit(scale);
            let u1 = if halved {
                us - 1
            } else {
                us
            };
            let q1 = round_half_even(qs * quotient_grid(halved), ZOOM_ULPS as nat);
            let y = scale.quotient(zoom_factor());
            &&& unit_exponent(Precision::Double, qs, ZOOM_ULPS as nat, us + 52) == u1
            &&& units(Precision::Double, qs, ZOOM_ULPS as nat, us + 52) == q1
            &&& y.bits == rounded(Precision::Double, qs, ZOOM_ULPS as nat, us + 52)
            &&& 0 < y.bits < INFINITY
        }),
{
    lemma2_to64();
    lemma2_to64_rest();
    lemma_zoom_factor_decoded();
    lemma_encoding_in_ulps(scale);
    let h = HIDDEN as nat;
    let zs = ZOOM_ULPS as nat;
    let m = scale.magnitude();
    let qs = scale.ulps();
    let us = scale.ulp_exponent();
    let halved = zoom_halves_unit(scale);
    let e1 = us + 52;
    let u1 = unit_exponent(Precision::Double, qs, zs, e1);
    let q1 = units(Precision::Double, qs, zs, e1);
    lemma_bit_length_unique(zs, 53);
    if qs >= h {
        lemma_bit_length_unique(qs, 53);
        lemma_scaled_order(zs as int, qs as int, 53);
    } else {
        lemma_bit_length_at_most(qs, 52);
    }
    assert(u1 == if halved { us - 1 } else { us });
    assert(pow2((e1 - u1) as nat) == quotient_grid(halved));
    lemma_units_range(Precision::Double, qs, zs, e1);
    let start = qs * quotient_grid(halved);
    assert(start >= h) by (nonlinear_arith)
        requires
            start == qs * quotient_grid(halved),
            qs >= 1,
            quotient_grid(halved) >= h,
    ;
    lemma_round_half_even_positive(start, zs);
    if !halved {
        assert(qs * h < zs * qs) by (nonlinear_arith)
            requires
                qs >= 1,
                h < zs,
        ;
        lemma_round_half_even_bounds(qs * h, zs, 0, qs);
    }
    let first = (u1 + 1074) * pow2(52) + q1;
    assert(0 < first <= m) by (nonlinear_arith)
        requires
            first == (u1 + 1074) * h + q1,
            m == (us + 1074) * h + qs,
            u1 == us && 1 <= q1 <= qs || u1 == us - 1 && 1 <= q1 <= 2 * h && qs >= h,
            us >= -1074,
            u1 >= -1074,
    ;
    lemma_operations_on_ulps(scale, zoom_factor());
}

/// Zooming out, on units: the product of a value of `q` units of `2^u` with
/// the zoom factor.
proof fn lemma_zoom_out_on_units(y: Binary64, q: nat, u: int)
    requires
        0 < y.bits < INFINITY,
        q > 0,
        y.ulps() == q && y.ulp_exponent() == u || q == 2 * HIDDEN && y.ulps() == HIDDEN
            && y.ulp_exponent() == u + 1,
    ensures
        y.product(zoom_factor()).bits == rounded(
            Precision::Double,
            q * (ZOOM_ULPS as nat),
            1,
            u - 52,
        ),
{
    lemma2_to64();
    lemma_zoom_factor_decoded();
    let h = HIDDEN as nat;
    let zs = ZOOM_ULPS as nat;
    lemma_operations_on_ulps(y, zoom_factor());
    if y.ulps() != q {
        lemma_mul_strictly_positive(h as int, zs as int);
        lemma_rounded_rescaled(Precision::Double, h * zs, 1, u - 52, 1);
        assert((h * zs) * pow2(1) == q * zs) by (nonlinear_arith)
            requires
                pow2(1) == 2,
                q == 2 * h,
        ;
    }
}

/// Zooming in and then out again brings a finite scale back to where it
/// was, give or take one unit in the last place: the encoding that comes
/// back is that of the scale, the one before it or the one after it.
pub proof fn lemma_zoom_round_trip(scale: Binary64)
    requires
        0 < scale.bits < INFINITY,
    ensures
        scale.bits - 1 <= scale.quotient(zoom_factor()).product(zoom_factor()).bits <= scale.bits
            + 1,
{
    let zs = ZOOM_ULPS as nat;
    let qs = scale.ulps();
    let us = scale.ulp_exponent();
    let halved = zoom_halves_unit(scale);
    let u1 = if halved { us - 1 } else { us };
    let q1 = round_half_even(qs * quotient_grid(halved), zs);
    let y = scale.quotient(zoom_factor());
    lemma_encoding_in_ulps(scale);
    lemma_zoom_in_on_units(scale);
    lemma_round_trip_on_units(qs, us, halved, q1);
    lemma_rounded_decoded(qs, zs, us + 52);
    lemma_zoom_out_on_units(y, q1, u1);
}

/// Pressing Up and then Down leaves the view where it was, but for the scale,
/// which may have moved by one unit in the last place.
pub proof fn lemma_zoom_in_then_out(state: FragmentState)
    requires
        state.wf(),
        state.scale.is_finite(),
    ensures
        ({
            let back = state.after_key(Key::ArrowUp).after_key(Key::ArrowDown);
            &&& state.scale.bits - 1 <= back.scale.bits <= state.scale.bits + 1
            &&& back.center == state.center
            &&& back.max_iterations == state.max_iterations
            &&& back.size == state.size
        }),
{
    lemma_zoom_round_trip(state.scale);
}

/// Zooming, in or out, leaves a positive scale positive: dividing by the zoom
/// factor cannot round to zero, and multiplying cannot give less.
pub proof fn lemma_zoom_keeps_positive(scale: Binary64)
    requires
        0 < scale.bits <= INFINITY,
    ensures
        0 < scale.quotient(zoom_factor()).bits <= INFINITY,
        0 < scale.product(zoom_factor()).bits <= INFINITY,
{
    let zoom = Binary64 { bits: ZOOM_FACTOR };
    assert(zoom.magnitude() / (HIDDEN as nat) == 1023 && zoom.magnitude() % (HIDDEN as nat)
        == 0xcccc_cccc_cccd);
    if scale.bits < INFINITY {
        lemma_parts(scale);
        lemma2_to64();
        lemma2_to64_rest();
        let sa = scale.significand();
        let ea = scale.exponent();
        let sz = zoom.significand();
        let up = (ea + 52 + 1074) as nat;
        lemma_pow2_pos(up);
        assert(2 * (sa * pow2(up)) > sz) by (nonlinear_arith)
            requires
                sa >= 0x10_0000_0000_0000,
                sz < 0x20_0000_0000_0000,
                pow2(up) >= 1,
        ;
        lemma_rounded_positive(Precision::Double, sa, sz, ea + 52);
        assert(sa * sz >= 0x10_0000_0000_0000 * 0x10_0000_0000_0000) by (nonlinear_arith)
            requires
                sa >= 0x10_0000_0000_0000,
                sz >= 0x10_0000_0000_0000,
        ;
        if ea - 52 >= -1074 {
            let k = (ea - 52 + 1074) as nat;
            lemma_pow2_pos(k);
            assert(2 * ((sa * sz) * pow2(k)) > 1) by (nonlinear_arith)
                requires
                    sa * sz >= 1,
                    pow2(k) >= 1,
            ;
        } else {
            let k = (-1074 - (ea - 52)) as nat;
            lemma_pow2_monotone(k, 104);
            lemma_pow2_adds(52, 52);
            assert(1 * pow2(k) == pow2(k));
        }
        lemma_rounded_positive(Precision::Double, sa * sz, 1, ea - 52);
    }
}

} // verus!
