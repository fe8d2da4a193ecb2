//! Properties of the conversion algebra that hold for every colour.

use vstd::prelude::*;
use vstd::std_specs::cmp::PartialEqSpec;
use crate::cmyk::{Cmyk, CmykScaled};
use crate::fraction::{
    frac, lemma_below_epsilon, lemma_frac_cross, lemma_frac_ends, lemma_frac_order,
    lemma_frac_sum, lemma_frac_whole, lemma_truncated, Ratio,
};
use crate::hsl::{Hsl, HslInt};
use crate::model::{
    chroma_of, cmyk_to_rgb, degrees, epsilon, floor_of, hsl_to_rgb, hue_to_channel, key_of,
    magnitude, peak_of, percent, rgb_to_cmyk, rgb_to_hsl, truncated, unit, upper_bound,
    wrap_turn, CmykValue, HslValue, RgbValue,
};
use crate::rgb::{Rgb, RgbScaled};

verus! {

/// Two fractions compare equal exactly when they stand for the same
/// number.
pub proof fn law_ratio_equality(a: Ratio, b: Ratio)
    requires
        a.wf(),
        b.wf(),
    ensures
        a.eq_spec(&b) <==> a.value() == b.value(),
{
    lemma_frac_cross(a.num as int, a.den as int, b.num as int, b.den as int);
}

/// Two normalized RGB colours compare equal exactly when they stand for the
/// same colour.
pub proof fn law_rgb_equality(a: RgbScaled, b: RgbScaled)
    requires
        a.wf(),
        b.wf(),
    ensures
        a.eq_spec(&b) <==> a@ == b@,
{
    lemma_frac_cross(a.r as int, a.den as int, b.r as int, b.den as int);
    lemma_frac_cross(a.g as int, a.den as int, b.g as int, b.den as int);
    lemma_frac_cross(a.b as int, a.den as int, b.b as int, b.den as int);
}

/// Two normalized CMYK colours compare equal exactly when they stand for
/// the same colour.
pub proof fn law_cmyk_equality(a: CmykScaled, b: CmykScaled)
    requires
        a.wf(),
        b.wf(),
    ensures
        a.eq_spec(&b) <==> a@ == b@,
{
    lemma_frac_cross(a.c as int, a.den as int, b.c as int, b.den as int);
    lemma_frac_cross(a.m as int, a.den as int, b.m as int, b.den as int);
    lemma_frac_cross(a.y as int, a.den as int, b.y as int, b.den as int);
    lemma_frac_cross(a.k as int, a.den as int, b.k as int, b.den as int);
}

/// Two normalized HSL colours compare equal exactly when they stand for the
/// same colour.
pub proof fn law_hsl_equality(a: Hsl, b: Hsl)
    requires
        a.wf(),
        b.wf(),
    ensures
        a.eq_spec(&b) <==> a@ == b@,
{
    law_ratio_equality(a.h, b.h);
    law_ratio_equality(a.s, b.s);
    law_ratio_equality(a.l, b.l);
}

/// A display RGB colour is within the gamut.
pub proof fn law_display_rgb_in_gamut(rgb: Rgb)
    ensures
        rgb@.in_gamut(),
{
    lemma_frac_ends(255);
    lemma_frac_order(0, rgb.r as int, 255);
    lemma_frac_order(rgb.r as int, 255, 255);
    lemma_frac_order(0, rgb.g as int, 255);
    lemma_frac_order(rgb.g as int, 255, 255);
    lemma_frac_order(0, rgb.b as int, 255);
    lemma_frac_order(rgb.b as int, 255, 255);
}

/// Truncating the normalized form of a display RGB colour gives the colour
/// back.
pub proof fn law_rgb_display_round_trip(rgb: Rgb)
    ensures
        Rgb::truncation_of(rgb@) == rgb,
{
    lemma_truncated(rgb.r as int, 255, 255);
    lemma_truncated(rgb.g as int, 255, 255);
    lemma_truncated(rgb.b as int, 255, 255);
}

/// Whatever is converted to display CMYK lands within `0..=100` on every
/// channel.
pub proof fn law_display_cmyk_bounded(v: CmykValue)
    ensures
        Cmyk::truncation_of(v).c <= 100,
        Cmyk::truncation_of(v).m <= 100,
        Cmyk::truncation_of(v).y <= 100,
        Cmyk::truncation_of(v).k <= 100,
{
}

/// Whatever is converted to display HSL lands within `0..=360` degrees of
/// hue and `0..=100` percent of saturation and lightness.
pub proof fn law_display_hsl_bounded(v: HslValue)
    ensures
        HslInt::rounding_of(v).h <= 360,
        HslInt::rounding_of(v).s <= 100,
        HslInt::rounding_of(v).l <= 100,
{
}

/// The CMYK equivalent of a colour within the RGB gamut is within the CMYK
/// gamut.
pub proof fn law_rgb_to_cmyk_in_gamut(v: RgbValue)
    requires
        v.in_gamut(),
    ensures
        rgb_to_cmyk(v).in_gamut(),
{
    let k = key_of(v);
    if k != 1real {
        let rest = 1real - k;
        let c = 1real - v.r - k;
        let m = 1real - v.g - k;
        let y = 1real - v.b - k;
        assert(unit(c / rest) && unit(m / rest) && unit(y / rest)) by (nonlinear_arith)
            requires
                rest > 0real,
                0real <= c <= rest,
                0real <= m <= rest,
                0real <= y <= rest,
        ;
    }
}

/// The RGB equivalent of a colour within the CMYK gamut is within the RGB
/// gamut.
pub proof fn law_cmyk_to_rgb_in_gamut(v: CmykValue)
    requires
        v.in_gamut(),
    ensures
        cmyk_to_rgb(v).in_gamut(),
{
    let c = 1real - v.c;
    let m = 1real - v.m;
    let y = 1real - v.y;
    let k = 1real - v.k;
    assert(unit(c * k) && unit(m * k) && unit(y * k)) by (nonlinear_arith)
        requires
            unit(c),
            unit(m),
            unit(y),
            unit(k),
    ;
}

/// Converting a colour within the RGB gamut to CMYK and back gives the
/// colour itself.
pub proof fn law_cmyk_round_trip(v: RgbValue)
    requires
        v.in_gamut(),
    ensures
        cmyk_to_rgb(rgb_to_cmyk(v)) == v,
{
    let k = key_of(v);
    if k != 1real {
        let rest = 1real - k;
        let c = 1real - v.r - k;
        let m = 1real - v.g - k;
        let y = 1real - v.b - k;
        assert((1real - c / rest) * rest == rest - c && (1real - m / rest) * rest == rest - m && (
        1real - y / rest) * rest == rest - y) by (nonlinear_arith)
            requires
                rest > 0real,
        ;
    } else {
        assert(0real * 0real == 0real && 1real * 0real == 0real) by (nonlinear_arith);
    }
}

/// A display RGB colour survives the way to normalized CMYK and back
/// unchanged.
pub proof fn law_rgb_cmyk_rgb(rgb: Rgb)
    ensures
        Rgb::truncation_of(cmyk_to_rgb(rgb_to_cmyk(rgb@))) == rgb,
{
    law_display_rgb_in_gamut(rgb);
    law_cmyk_round_trip(rgb@);
    law_rgb_display_round_trip(rgb);
}

/// How far up from the lower lightness bound a channel at hue position `t`
/// sits, as a share of the way to the upper bound.
pub open spec fn share(t: real) -> real {
    let t = wrap_turn(t);
    if t < 1real / 6real {
        6real * t
    } else if t < 1real / 2real {
        1real
    } else if t < 2real / 3real {
        (2real / 3real - t) * 6real
    } else {
        0real
    }
}

/// A channel is the blend of the two lightness bounds by the share of its
/// hue position, and the share is a fraction of one.
pub proof fn lemma_channel_is_blend(p: real, q: real, t: real)
    requires
        -1real <= t <= 2real,
    ensures
        hue_to_channel(p, q, t) == p + (q - p) * share(t),
        unit(share(t)),
{
    let w = wrap_turn(t);
    let d = q - p;
    assert(d * 6real * w == d * (6real * w)) by (nonlinear_arith);
    assert(d * (2real / 3real - w) * 6real == d * ((2real / 3real - w) * 6real))
        by (nonlinear_arith);
    assert(w < 1real / 6real ==> 6real * w < 1real) by (nonlinear_arith);
}

/// The lightness bounds of a colour enclose its lightness and lie within
/// the unit interval.
pub proof fn lemma_bounds_enclose(s: real, l: real)
    requires
        unit(s),
        unit(l),
    ensures
        0real <= 2real * l - upper_bound(s, l) <= l <= upper_bound(s, l) <= 1real,
{
    assert(0real <= l * s <= l && l * s <= s && 1real - l - s + l * s >= 0real)
        by (nonlinear_arith)
        requires
            unit(s),
            unit(l),
    ;
    assert(l * (1real + s) == l + l * s) by (nonlinear_arith);
}

/// The RGB equivalent of a colour within the HSL gamut is within the RGB
/// gamut.
pub proof fn law_hsl_to_rgb_in_gamut(v: HslValue)
    requires
        v.in_gamut(),
    ensures
        hsl_to_rgb(v).in_gamut(),
{
    if v.s >= epsilon() {
        let q = upper_bound(v.s, v.l);
        let p = 2real * v.l - q;
        let t = v.h / 360real;
        lemma_bounds_enclose(v.s, v.l);
        lemma_channel_is_blend(p, q, t + 1real / 3real);
        lemma_channel_is_blend(p, q, t);
        lemma_channel_is_blend(p, q, t - 1real / 3real);
        let d = q - p;
        let a = share(t + 1real / 3real);
        let b = share(t);
        let c = share(t - 1real / 3real);
        assert(0real <= d * a <= d && 0real <= d * b <= d && 0real <= d * c <= d)
            by (nonlinear_arith)
            requires
                d >= 0real,
                unit(a),
                unit(b),
                unit(c),
        ;
    }
}

/// The HSL equivalent of a colour within the RGB gamut is within the HSL
/// gamut, and its hue stays below the full turn.
pub proof fn law_rgb_to_hsl_in_gamut(v: RgbValue)
    requires
        v.in_gamut(),
    ensures
        rgb_to_hsl(v).in_gamut(),
        rgb_to_hsl(v).h < 360real,
{
    let lo = floor_of(v);
    let hi = peak_of(v);
    let c = chroma_of(v);
    let l = (lo + hi) / 2real;
    if c >= epsilon() {
        let room = 1real - magnitude(2real * l - 1real);
        assert(unit(c / room)) by (nonlinear_arith)
            requires
                0real < c <= room,
        ;
        let gb = (v.g - v.b) / c;
        let br = (v.b - v.r) / c;
        let rg = (v.r - v.g) / c;
        assert(-1real <= gb <= 1real && -1real <= br <= 1real && -1real <= rg <= 1real)
            by (nonlinear_arith)
            requires
                c > 0real,
                -c <= v.g - v.b <= c,
                -c <= v.b - v.r <= c,
                -c <= v.r - v.g <= c,
                gb == (v.g - v.b) / c,
                br == (v.b - v.r) / c,
                rg == (v.r - v.g) / c,
        ;
    }
}

/// The lightness bounds rise with the lightness.
pub proof fn lemma_bounds_rise(s: real, l1: real, l2: real)
    requires
        unit(s),
        unit(l1),
        unit(l2),
        l1 <= l2,
    ensures
        upper_bound(s, l1) <= upper_bound(s, l2),
        2real * l1 - upper_bound(s, l1) <= 2real * l2 - upper_bound(s, l2),
{
    let half = 1real / 2real;
    assert(l1 * (1real + s) == l1 + l1 * s && l2 * (1real + s) == l2 + l2 * s)
        by (nonlinear_arith);
    assert(0real <= l2 * s - l1 * s <= l2 - l1) by (nonlinear_arith)
        requires
            l1 <= l2,
            unit(s),
    ;
    assert((1real - 2real * l1) * s == s - 2real * (l1 * s) && (2real * l2 - 1real) * s
        == 2real * (l2 * s) - s) by (nonlinear_arith);
    assert(l1 < half ==> (1real - 2real * l1) * s >= 0real) by (nonlinear_arith)
        requires
            s >= 0real,
            2real * half == 1real,
    ;
    assert(l2 >= half ==> 0real <= (2real * l2 - 1real) * s <= 2real * l2 - 1real)
        by (nonlinear_arith)
        requires
            unit(s),
            2real * half == 1real,
    ;
}

/// Raising the lightness of a colour, with hue and saturation held, lowers
/// none of its RGB channels.
pub proof fn law_lightness_monotone(h: real, s: real, l1: real, l2: real)
    requires
        0real <= h <= 360real,
        unit(s),
        unit(l1),
        unit(l2),
        l1 <= l2,
    ensures
        hsl_to_rgb(HslValue { h, s, l: l1 }).r <= hsl_to_rgb(HslValue { h, s, l: l2 }).r,
        hsl_to_rgb(HslValue { h, s, l: l1 }).g <= hsl_to_rgb(HslValue { h, s, l: l2 }).g,
        hsl_to_rgb(HslValue { h, s, l: l1 }).b <= hsl_to_rgb(HslValue { h, s, l: l2 }).b,
{
    if s >= epsilon() {
        let q1 = upper_bound(s, l1);
        let p1 = 2real * l1 - q1;
        let q2 = upper_bound(s, l2);
        let p2 = 2real * l2 - q2;
        let t = h / 360real;
        lemma_bounds_rise(s, l1, l2);
        lemma_bounds_enclose(s, l1);
        lemma_bounds_enclose(s, l2);
        let third = 1real / 3real;
        lemma_channel_is_blend(p1, q1, t + third);
        lemma_channel_is_blend(p1, q1, t);
        lemma_channel_is_blend(p1, q1, t - third);
        lemma_channel_is_blend(p2, q2, t + third);
        lemma_channel_is_blend(p2, q2, t);
        lemma_channel_is_blend(p2, q2, t - third);
        let a = share(t + third);
        let b = share(t);
        let c = share(t - third);
        assert(p1 + (q1 - p1) * a <= p2 + (q2 - p2) * a && p1 + (q1 - p1) * b <= p2 + (q2 - p2)
            * b && p1 + (q1 - p1) * c <= p2 + (q2 - p2) * c) by (nonlinear_arith)
            requires
                p1 <= p2,
                q1 <= q2,
                unit(a),
                unit(b),
                unit(c),
        ;
    }
}

/// At full lightness every colour is white, and at no lightness every
/// colour is black.
pub proof fn law_lightness_extremes(h: real, s: real)
    requires
        0real <= h <= 360real,
        unit(s),
    ensures
        hsl_to_rgb(HslValue { h, s, l: 1real }) == (RgbValue { r: 1real, g: 1real, b: 1real }),
        hsl_to_rgb(HslValue { h, s, l: 0real }) == (RgbValue { r: 0real, g: 0real, b: 0real }),
{
    if s >= epsilon() {
        let t = h / 360real;
        let third = 1real / 3real;
        lemma_channel_is_blend(1real, 1real, t + third);
        lemma_channel_is_blend(1real, 1real, t);
        lemma_channel_is_blend(1real, 1real, t - third);
        lemma_channel_is_blend(0real, 0real, t + third);
        lemma_channel_is_blend(0real, 0real, t);
        lemma_channel_is_blend(0real, 0real, t - third);
    }
}

/// Truncation keeps the order of what it truncates.
pub proof fn lemma_truncated_monotone(x: real, y: real, scale: int)
    requires
        x <= y,
        scale >= 0,
    ensures
        truncated(x, scale) <= truncated(y, scale),
{
    let k = scale as real;
    assert(x * k <= y * k) by (nonlinear_arith)
        requires
            x <= y,
            k >= 0real,
    ;
}

/// The normalized form of a display HSL colour is within the gamut.
pub proof fn law_display_hsl_in_gamut(hsl: HslInt)
    ensures
        hsl@.in_gamut(),
{
    lemma_frac_whole(degrees(hsl.h as int));
    lemma_frac_ends(100);
    lemma_frac_order(0, percent(hsl.s as int), 100);
    lemma_frac_order(percent(hsl.s as int), 100, 100);
    lemma_frac_order(0, percent(hsl.l as int), 100);
    lemma_frac_order(percent(hsl.l as int), 100, 100);
}

/// Of two display HSL colours that differ in lightness alone, the lighter
/// one has no RGB channel below that of the darker one.
pub proof fn law_display_lightness_monotone(a: HslInt, b: HslInt)
    requires
        a.h == b.h,
        a.s == b.s,
        a.l <= b.l,
    ensures
        Rgb::truncation_of(hsl_to_rgb(a@)).r <= Rgb::truncation_of(hsl_to_rgb(b@)).r,
        Rgb::truncation_of(hsl_to_rgb(a@)).g <= Rgb::truncation_of(hsl_to_rgb(b@)).g,
        Rgb::truncation_of(hsl_to_rgb(a@)).b <= Rgb::truncation_of(hsl_to_rgb(b@)).b,
{
    law_display_hsl_in_gamut(a);
    law_display_hsl_in_gamut(b);
    lemma_frac_order(percent(a.l as int), percent(b.l as int), 100);
    law_lightness_monotone(a@.h, a@.s, a@.l, b@.l);
    lemma_truncated_monotone(hsl_to_rgb(a@).r, hsl_to_rgb(b@).r, 255);
    lemma_truncated_monotone(hsl_to_rgb(a@).g, hsl_to_rgb(b@).g, 255);
    lemma_truncated_monotone(hsl_to_rgb(a@).b, hsl_to_rgb(b@).b, 255);
}

/// A display HSL colour of full lightness is white, and one of no lightness
/// is black, whatever its hue and saturation.
pub proof fn law_display_lightness_extremes(hsl: HslInt)
    ensures
        hsl.l >= 100 ==> Rgb::truncation_of(hsl_to_rgb(hsl@)) == (Rgb { r: 255, g: 255, b: 255 }),
        hsl.l == 0 ==> Rgb::truncation_of(hsl_to_rgb(hsl@)) == (Rgb { r: 0, g: 0, b: 0 }),
{
    law_display_hsl_in_gamut(hsl);
    lemma_frac_ends(100);
    law_lightness_extremes(hsl@.h, hsl@.s);
}

/// Two channel values are either equal or at least `epsilon` apart.
pub open spec fn apart(a: real, b: real) -> bool {
    a == b || magnitude(a - b) >= epsilon()
}

/// No two channels of the colour differ by a positive amount below
/// `epsilon`, so that neither the test for an achromatic colour nor the
/// choice of the hue sector is blurred by the tolerance.
pub open spec fn crisp(v: RgbValue) -> bool {
    apart(v.r, v.g) && apart(v.g, v.b) && apart(v.r, v.b)
}

/// Two display channels are equal or at least `epsilon` apart.
proof fn lemma_display_channels_apart(a: u8, b: u8)
    ensures
        apart(frac(a as int, 255), frac(b as int, 255)),
{
    lemma_frac_order(a as int, b as int, 255);
    lemma_frac_sum(a as int, b as int, 255);
    lemma_frac_sum(b as int, a as int, 255);
    lemma_below_epsilon(a - b, 255);
    lemma_below_epsilon(b - a, 255);
}

/// Every display RGB colour is crisp.
pub proof fn law_display_rgb_is_crisp(rgb: Rgb)
    ensures
        crisp(rgb@),
{
    lemma_display_channels_apart(rgb.r, rgb.g);
    lemma_display_channels_apart(rgb.g, rgb.b);
    lemma_display_channels_apart(rgb.r, rgb.b);
}

/// The lightness bounds of the HSL equivalent of a chromatic colour are the
/// smallest and the largest channel of the colour, and its saturation is
/// not negligible.
proof fn lemma_bounds_are_extremes(v: RgbValue)
    requires
        v.in_gamut(),
        chroma_of(v) >= epsilon(),
    ensures
        rgb_to_hsl(v).s >= epsilon(),
        upper_bound(rgb_to_hsl(v).s, rgb_to_hsl(v).l) == peak_of(v),
        2real * rgb_to_hsl(v).l - upper_bound(rgb_to_hsl(v).s, rgb_to_hsl(v).l) == floor_of(v),
{
    let c = chroma_of(v);
    let l = rgb_to_hsl(v).l;
    let s = rgb_to_hsl(v).s;
    let room = 1real - magnitude(2real * l - 1real);
    assert(room * s == c && s >= c) by (nonlinear_arith)
        requires
            0real < c <= room <= 1real,
            s == c / room,
    ;
    assert(l * (1real + s) == l + l * s) by (nonlinear_arith);
    assert((2real * l) * s == 2real * (l * s)) by (nonlinear_arith);
    assert((2real - 2real * l) * s == 2real * s - 2real * (l * s)) by (nonlinear_arith);
}

/// The channel at a hue position that lies `seg + k` sextants into the
/// turn, between the bounds `lo` and `lo + c`, where `d` is `c * seg` and
/// `kc` is `k * c`.
proof fn lemma_channel_at(lo: real, c: real, seg: real, d: real, k: real, kc: real, pos: real)
    requires
        c > 0real,
        d == c * seg,
        kc == k * c,
        0real <= seg + k <= 6real,
        -1real <= pos <= 2real,
        6real * wrap_turn(pos) == seg + k,
    ensures
        hue_to_channel(lo, lo + c, pos) == lo + (if seg + k < 1real {
            d + kc
        } else if seg + k < 3real {
            c
        } else if seg + k < 4real {
            4real * c - d - kc
        } else {
            0real
        }),
{
    lemma_channel_is_blend(lo, lo + c, pos);
    let z = seg + k;
    assert(c * z == d + kc && c * (4real - z) == 4real * c - d - kc) by (nonlinear_arith)
        requires
            z == seg + k,
            d == c * seg,
            kc == k * c,
    ;
}

/// The segment `d / c` of a channel difference `d` over the chroma `c`
/// lies within one sextant either way and reaches an end only where the
/// difference does.
proof fn lemma_segment(c: real, d: real)
    requires
        c > 0real,
        -c <= d <= c,
    ensures
        d == c * (d / c),
        -1real <= d / c <= 1real,
        d / c < 0real <==> d < 0real,
        d / c > 0real <==> d > 0real,
        d / c == 1real <==> d == c,
        d / c == -1real <==> d == -c,
{
    let seg = d / c;
    assert(d == c * seg && -1real <= seg <= 1real && (seg < 0real <==> d < 0real) && (seg
        > 0real <==> d > 0real) && (seg == 1real <==> d == c) && (seg == -1real <==> d == -c))
        by (nonlinear_arith)
        requires
            c > 0real,
            seg == d / c,
            -c <= d <= c,
    ;
}

/// Converting a crisp colour within the RGB gamut to HSL and back gives the
/// colour itself.
pub proof fn law_hsl_round_trip(v: RgbValue)
    requires
        v.in_gamut(),
        crisp(v),
    ensures
        hsl_to_rgb(rgb_to_hsl(v)) == v,
{
    let lo = floor_of(v);
    let hi = peak_of(v);
    let c = chroma_of(v);
    let hsl = rgb_to_hsl(v);
    if c >= epsilon() {
        lemma_bounds_are_extremes(v);
        let t = hsl.h / 360real;
        let third = 1real / 3real;
        if hi - v.r < epsilon() {
            let seg = (v.g - v.b) / c;
            let d = v.g - v.b;
            lemma_segment(c, d);
            lemma_channel_at(lo, c, seg, d, 2real, 2real * c, t + third);
            lemma_channel_at(lo, c, seg, d, 4real, 4real * c, t - third);
            if seg < 0real {
                lemma_channel_at(lo, c, seg, d, 6real, 6real * c, t);
            } else {
                lemma_channel_at(lo, c, seg, d, 0real, 0real * c, t);
            }
        } else if hi - v.g < epsilon() {
            let seg = (v.b - v.r) / c;
            let d = v.b - v.r;
            lemma_segment(c, d);
            lemma_channel_at(lo, c, seg, d, 4real, 4real * c, t + third);
            lemma_channel_at(lo, c, seg, d, 2real, 2real * c, t);
            if seg < 0real {
                lemma_channel_at(lo, c, seg, d, 6real, 6real * c, t - third);
            } else {
                lemma_channel_at(lo, c, seg, d, 0real, 0real * c, t - third);
            }
        } else {
            let seg = (v.r - v.g) / c;
            let d = v.r - v.g;
            lemma_segment(c, d);
            lemma_channel_at(lo, c, seg, d, 4real, 4real * c, t);
            lemma_channel_at(lo, c, seg, d, 2real, 2real * c, t - third);
            if seg > 0real {
                lemma_channel_at(lo, c, seg, d, 0real, 0real * c, t + third);
            } else {
                lemma_channel_at(lo, c, seg, d, 6real, 6real * c, t + third);
            }
        }
    }
}

/// A display RGB colour survives the way to normalized HSL and back
/// unchanged.
pub proof fn law_rgb_hsl_rgb(rgb: Rgb)
    ensures
        Rgb::truncation_of(hsl_to_rgb(rgb_to_hsl(rgb@))) == rgb,
{
    law_display_rgb_in_gamut(rgb);
    law_display_rgb_is_crisp(rgb);
    law_hsl_round_trip(rgb@);
    law_rgb_display_round_trip(rgb);
}

} // verus!
