//! The RGB model: display form, normalized form, and the conversions that
//! arrive at either.

use vstd::prelude::*;
use vstd::std_specs::cmp::PartialEqSpecImpl;
use vstd::std_specs::convert::FromSpecImpl;
use crate::cmyk::{Cmyk, CmykScaled};
use crate::fraction::{
    cross_equal, frac, lemma_below_epsilon, lemma_frac_blend, lemma_frac_cross, lemma_frac_ends,
    lemma_frac_expand, lemma_frac_order, lemma_frac_product, lemma_frac_quotient,
    lemma_frac_scale, lemma_frac_sum, lemma_frac_whole, lemma_truncated, same_fraction,
};
use crate::hsl::{Hsl, HslInt};
use crate::model;
use crate::model::RgbValue;

verus! {

/// The largest value of a display channel.
pub const RGB_SCALE: u8 = 255;

/// An RGB colour for display: each channel is a whole number in `0..=255`.
#[derive(Debug, Clone, Copy, PartialEq, Eq, Structural)]
pub struct Rgb {
    pub r: u8,
    pub g: u8,
    pub b: u8,
}

/// A normalized RGB colour: the channels are `r / den`, `g / den` and
/// `b / den`.
#[derive(Debug, Clone, Copy)]
pub struct RgbScaled {
    pub r: u64,
    pub g: u64,
    pub b: u64,
    pub den: u64,
}

impl View for Rgb {
    type V = RgbValue;

    /// The colour with each channel divided by 255.
    open spec fn view(&self) -> RgbValue {
        RgbValue {
            r: frac(self.r as int, 255),
            g: frac(self.g as int, 255),
            b: frac(self.b as int, 255),
        }
    }
}

impl View for RgbScaled {
    type V = RgbValue;

    open spec fn view(&self) -> RgbValue {
        RgbValue {
            r: frac(self.r as int, self.den as int),
            g: frac(self.g as int, self.den as int),
            b: frac(self.b as int, self.den as int),
        }
    }
}

impl Rgb {
    /// The display colour at or just below `v`: each channel is scaled by
    /// 255 and truncated.
    pub open spec fn truncation_of(v: RgbValue) -> Rgb {
        Rgb {
            r: model::truncated(v.r, 255) as u8,
            g: model::truncated(v.g, 255) as u8,
            b: model::truncated(v.b, 255) as u8,
        }
    }

    /// The colour with the given channels.
    pub fn new(r: u8, g: u8, b: u8) -> (res: Rgb)
        ensures
            res == (Rgb { r, g, b }),
    {
        Rgb { r, g, b }
    }

    /// The display form of a normalized colour, each channel truncated.
    pub fn from_scaled(rgb: RgbScaled) -> (res: Rgb)
        requires
            rgb.wf(),
        ensures
            res == Rgb::truncation_of(rgb@),
    {
        let den = rgb.den as u128;
        proof {
            lemma_truncated(rgb.r as int, rgb.den as int, 255);
            lemma_truncated(rgb.g as int, rgb.den as int, 255);
            lemma_truncated(rgb.b as int, rgb.den as int, 255);
        }
        Rgb {
            r: ((rgb.r as u128) * 255 / den) as u8,
            g: ((rgb.g as u128) * 255 / den) as u8,
            b: ((rgb.b as u128) * 255 / den) as u8,
        }
    }
}

impl RgbScaled {
    /// The denominator is not zero and no channel exceeds one.
    pub open spec fn wf(&self) -> bool {
        &&& self.den > 0
        &&& self.r <= self.den
        &&& self.g <= self.den
        &&& self.b <= self.den
    }
}

impl PartialEqSpecImpl for RgbScaled {
    open spec fn obeys_eq_spec() -> bool {
        true
    }

    /// Two colours are equal when each channel has equal cross products.
    open spec fn eq_spec(&self, other: &RgbScaled) -> bool {
        &&& same_fraction(self.r as int, self.den as int, other.r as int, other.den as int)
        &&& same_fraction(self.g as int, self.den as int, other.g as int, other.den as int)
        &&& same_fraction(self.b as int, self.den as int, other.b as int, other.den as int)
    }
}

impl PartialEq for RgbScaled {
    /// Whether the two stand for the same colour.
    fn eq(&self, other: &RgbScaled) -> (res: bool) {
        cross_equal(self.r, self.den, other.r, other.den) && cross_equal(
            self.g,
            self.den,
            other.g,
            other.den,
        ) && cross_equal(self.b, self.den, other.b, other.den)
    }
}

impl FromSpecImpl<Rgb> for RgbScaled {
    open spec fn obeys_from_spec() -> bool {
        true
    }

    /// The channels over 255.
    open spec fn from_spec(rgb: Rgb) -> RgbScaled {
        RgbScaled { r: rgb.r as u64, g: rgb.g as u64, b: rgb.b as u64, den: 255 }
    }
}

impl From<Rgb> for RgbScaled {
    /// The normalized form of a display colour.
    fn from(rgb: Rgb) -> (res: RgbScaled)
        ensures
            res.wf(),
            res@ == rgb@,
    {
        RgbScaled { r: rgb.r as u64, g: rgb.g as u64, b: rgb.b as u64, den: RGB_SCALE as u64 }
    }
}

impl RgbScaled {
    /// CMYK to RGB on normalized colours.
    ///
    /// The channels of the result share the denominator
    /// `cmyk.den * cmyk.den`, which must fit the machine word.
    pub fn from_cmyk_scaled(cmyk: CmykScaled) -> (res: RgbScaled)
        requires
            cmyk.wf(),
            cmyk.den * cmyk.den <= u64::MAX,
        ensures
            res.wf(),
            res@ == model::cmyk_to_rgb(cmyk@),
            res.den == cmyk.den * cmyk.den,
    {
        let den = cmyk.den;
        let rest = den - cmyk.k;
        proof {
            let d = den as int;
            lemma_frac_ends(d);
            lemma_frac_sum(d, cmyk.c as int, d);
            lemma_frac_sum(d, cmyk.m as int, d);
            lemma_frac_sum(d, cmyk.y as int, d);
            lemma_frac_sum(d, cmyk.k as int, d);
            lemma_frac_product(d - cmyk.c, d, rest as int, d);
            lemma_frac_product(d - cmyk.m, d, rest as int, d);
            lemma_frac_product(d - cmyk.y, d, rest as int, d);
            assert((d - cmyk.c) * rest <= d * d && (d - cmyk.m) * rest <= d * d && (d - cmyk.y)
                * rest <= d * d) by (nonlinear_arith)
                requires
                    0 <= cmyk.c <= d,
                    0 <= cmyk.m <= d,
                    0 <= cmyk.y <= d,
                    0 <= rest <= d,
            ;
        }
        RgbScaled {
            r: (den - cmyk.c) * rest,
            g: (den - cmyk.m) * rest,
            b: (den - cmyk.y) * rest,
            den: den * den,
        }
    }

    /// HSL to RGB on normalized colours.
    ///
    /// The channels of the result share the denominator
    /// `60 * h.den * s.den * l.den`, which must fit the machine word.
    pub fn from_hsl(hsl: Hsl) -> (res: RgbScaled)
        requires
            hsl.wf(),
            60 * hsl.h.den * hsl.s.den * hsl.l.den <= u64::MAX,
        ensures
            res.wf(),
            res@ == model::hsl_to_rgb(hsl@),
            res.den <= 60 * hsl.h.den * hsl.s.den * hsl.l.den,
    {
        let hn: i128 = hsl.h.num as i128;
        let hd: u128 = hsl.h.den as u128;
        let sn: u128 = hsl.s.num as u128;
        let sd: u128 = hsl.s.den as u128;
        let ln: u128 = hsl.l.num as u128;
        let ld: u128 = hsl.l.den as u128;
        proof {
            lemma_below_epsilon(sn as int, sd as int);
            lemma_lightness_bounds(ln as int, ld as int, sn as int, sd as int);
            assert(60 * hd * sd * ld == 60 * hd * (ld * sd)) by (nonlinear_arith);
            assert(ld <= 60 * hd * (ld * sd)) by (nonlinear_arith)
                requires
                    hd > 0,
                    sd > 0,
                    ld > 0,
            ;
            assert(ld * sd <= 60 * hd * (ld * sd)) by (nonlinear_arith)
                requires
                    hd > 0,
                    sd > 0,
                    ld > 0,
            ;
        }
        if sn * 1000 < sd {
            RgbScaled { r: hsl.l.num, g: hsl.l.num, b: hsl.l.num, den: hsl.l.den }
        } else {
            let base: u128 = ld * sd;
            assert(ln * sd <= base && sn * ld <= base && ln * sn <= ln * sd) by (nonlinear_arith)
                requires
                    ln <= ld,
                    sn <= sd,
                    base == ld * sd,
            ;
            let q: u128 = if 2 * ln < ld {
                ln * (sd + sn)
            } else {
                ln * sd + sn * ld - ln * sn
            };
            let p: u128 = 2 * ln * sd - q;
            let third: i128 = 120 * (hd as i128);
            let r = hue_to_rgb(p, q, base, hn + third, hd);
            let g = hue_to_rgb(p, q, base, hn, hd);
            let b = hue_to_rgb(p, q, base, hn - third, hd);
            let den: u128 = 60 * hd * base;
            proof {
                let turn = 360 * hd as int;
                // the hue in turns, and a third of a turn
                lemma_frac_quotient(hn as int, hd as int, 360, 1);
                lemma_frac_whole(360);
                lemma_frac_expand(1, 3, third as int);
                lemma_frac_sum(hn as int, third as int, turn);
            }
            RgbScaled { r: r as u64, g: g as u64, b: b as u64, den: den as u64 }
        }
    }
}

/// One channel of the colour between the lightness bounds `p / base` and
/// `q / base`, at the hue position `t / (360 * hd)` turns, which may be off
/// by a third of a turn on either side. The result is a numerator over
/// `60 * hd * base`.
fn hue_to_rgb(p: u128, q: u128, base: u128, t: i128, hd: u128) -> (res: u128)
    requires
        hd > 0,
        base > 0,
        p <= q <= base,
        60 * hd * base <= u64::MAX,
        -120 * hd <= t <= 480 * hd,
    ensures
        res <= 60 * hd * base,
        frac(res as int, 60 * hd * base) == model::hue_to_channel(
            frac(p as int, base as int),
            frac(q as int, base as int),
            frac(t as int, 360 * hd),
        ),
{
    assert(60 * hd <= u64::MAX && base <= u64::MAX) by (nonlinear_arith)
        requires
            hd > 0,
            base > 0,
            60 * hd * base <= u64::MAX,
    ;
    let sixth: u128 = 60 * hd;
    let turn: i128 = 360 * (hd as i128);
    let wrapped: i128 = if t < 0 {
        t + turn
    } else if t > turn {
        t - turn
    } else {
        t
    };
    let w: u128 = wrapped as u128;
    proof {
        lemma_hue_position(t as int, sixth as int);
        lemma_frac_expand(p as int, base as int, sixth as int);
        lemma_frac_expand(q as int, base as int, sixth as int);
        lemma_frac_blend(p as int, q as int, base as int, w as int, sixth as int);
        lemma_frac_blend(p as int, q as int, base as int, 4 * sixth - w, sixth as int);
        assert(base * sixth == 60 * hd * base) by (nonlinear_arith)
            requires
                sixth == 60 * hd,
        ;
        assert(p * sixth <= q * sixth <= base * sixth) by (nonlinear_arith)
            requires
                p <= q <= base,
                sixth > 0,
        ;
        let lo = frac(p as int, base as int);
        let hi = frac(q as int, base as int);
        let pos = model::wrap_turn(frac(t as int, 360 * hd));
        assert((hi - lo) * 6real * pos == (hi - lo) * (6real * pos)) by (nonlinear_arith);
        assert((hi - lo) * (2real / 3real - pos) * 6real == (hi - lo) * ((2real / 3real - pos)
            * 6real)) by (nonlinear_arith);
    }
    if w < sixth {
        assert(p * sixth + (q - p) * w <= q * sixth) by (nonlinear_arith)
            requires
                p <= q,
                0 <= w < sixth,
        ;
        p * sixth + (q - p) * w
    } else if w < 3 * sixth {
        q * sixth
    } else if w < 4 * sixth {
        assert(p * sixth + (q - p) * (4 * sixth - w) <= q * sixth) by (nonlinear_arith)
            requires
                p <= q,
                3 * sixth <= w < 4 * sixth,
        ;
        p * sixth + (q - p) * (4 * sixth - w)
    } else {
        p * sixth
    }
}

impl Rgb {
    /// CMYK to RGB, from a normalized colour to a display one.
    pub fn from_cmyk_scaled(cmyk: CmykScaled) -> (res: Rgb)
        requires
            cmyk.wf(),
            cmyk.den * cmyk.den <= u64::MAX,
        ensures
            res == Rgb::truncation_of(model::cmyk_to_rgb(cmyk@)),
    {
        Rgb::from_scaled(RgbScaled::from_cmyk_scaled(cmyk))
    }

    /// HSL to RGB, from a normalized colour to a display one.
    pub fn from_hsl(hsl: Hsl) -> (res: Rgb)
        requires
            hsl.wf(),
            60 * hsl.h.den * hsl.s.den * hsl.l.den <= u64::MAX,
        ensures
            res == Rgb::truncation_of(model::hsl_to_rgb(hsl@)),
    {
        Rgb::from_scaled(RgbScaled::from_hsl(hsl))
    }
}

impl FromSpecImpl<Cmyk> for Rgb {
    open spec fn obeys_from_spec() -> bool {
        true
    }

    /// The RGB equivalent of the colour, truncated to whole channel values.
    open spec fn from_spec(cmyk: Cmyk) -> Rgb {
        Rgb::truncation_of(model::cmyk_to_rgb(cmyk@))
    }
}

impl From<Cmyk> for Rgb {
    /// CMYK to RGB on display colours.
    fn from(cmyk: Cmyk) -> (res: Rgb)
        ensures
            res == Rgb::truncation_of(model::cmyk_to_rgb(cmyk@)),
    {
        Rgb::from_scaled(RgbScaled::from_cmyk_scaled(CmykScaled::from(cmyk)))
    }
}

impl FromSpecImpl<HslInt> for Rgb {
    open spec fn obeys_from_spec() -> bool {
        true
    }

    /// The RGB equivalent of the colour, truncated to whole channel values.
    open spec fn from_spec(hsl: HslInt) -> Rgb {
        Rgb::truncation_of(model::hsl_to_rgb(hsl@))
    }
}

impl From<HslInt> for Rgb {
    /// HSL to RGB on display colours.
    fn from(hsl: HslInt) -> (res: Rgb)
        ensures
            res == Rgb::truncation_of(model::hsl_to_rgb(hsl@)),
    {
        Rgb::from_scaled(RgbScaled::from_hsl(Hsl::from(hsl)))
    }
}

/// A hue position of `t / turn` turns, wrapped and measured against the
/// sector bounds, with `turn == 6 * sixth`.
proof fn lemma_hue_position(t: int, sixth: int)
    requires
        sixth > 0,
        -2 * sixth <= t <= 8 * sixth,
    ensures
        ({
            let turn = 6 * sixth;
            let w = if t < 0 { t + turn } else if t > turn { t - turn } else { t };
            let pos = model::wrap_turn(frac(t, turn));
            &&& 0 <= w <= turn
            &&& pos == frac(w, turn)
            &&& pos < 1real / 6real <==> w < sixth
            &&& pos < 1real / 2real <==> w < 3 * sixth
            &&& pos < 2real / 3real <==> w < 4 * sixth
            &&& 6real * pos == frac(w, sixth)
            &&& (2real / 3real - pos) * 6real == frac(4 * sixth - w, sixth)
        }),
{
    let turn = 6 * sixth;
    let w = if t < 0 { t + turn } else if t > turn { t - turn } else { t };
    let pos = model::wrap_turn(frac(t, turn));
    lemma_frac_ends(turn);
    lemma_frac_order(t, 0, turn);
    lemma_frac_order(turn, t, turn);
    lemma_frac_sum(t, turn, turn);
    lemma_frac_cross(w, turn, 1, 6);
    lemma_frac_cross(w, turn, 1, 2);
    lemma_frac_cross(w, turn, 2, 3);
    lemma_frac_scale(w, turn, 6);
    lemma_frac_expand(w, sixth, 6);
    lemma_frac_expand(2, 3, 2 * sixth);
    lemma_frac_sum(4 * sixth, w, turn);
    lemma_frac_scale(4 * sixth - w, turn, 6);
    lemma_frac_expand(4 * sixth - w, sixth, 6);
}

/// The lightness bounds of a colour of lightness `ln / ld` and saturation
/// `sn / sd`, as numerators over `ld * sd`.
proof fn lemma_lightness_bounds(ln: int, ld: int, sn: int, sd: int)
    requires
        0 <= ln <= ld,
        0 <= sn <= sd,
        ld > 0,
        sd > 0,
    ensures
        ({
            let base = ld * sd;
            let q = if 2 * ln < ld { ln * (sd + sn) } else { ln * sd + sn * ld - ln * sn };
            let p = 2 * ln * sd - q;
            let upper = model::upper_bound(frac(sn, sd), frac(ln, ld));
            &&& base > 0
            &&& 0 <= p <= q <= base
            &&& upper == frac(q, base)
            &&& 2real * frac(ln, ld) - upper == frac(p, base)
        }),
{
    let base = ld * sd;
    let q = if 2 * ln < ld { ln * (sd + sn) } else { ln * sd + sn * ld - ln * sn };
    let p = 2 * ln * sd - q;
    assert(0 <= p <= q <= base) by (nonlinear_arith)
        requires
            0 <= ln <= ld,
            0 <= sn <= sd,
            ld > 0,
            sd > 0,
            base == ld * sd,
            q == if 2 * ln < ld { ln * (sd + sn) } else { ln * sd + sn * ld - ln * sn },
            p == 2 * ln * sd - q,
    ;
    lemma_frac_cross(ln, ld, 1, 2);
    // one plus the saturation
    lemma_frac_ends(sd);
    lemma_frac_sum(sd, sn, sd);
    lemma_frac_product(ln, ld, sd + sn, sd);
    // lightness, saturation and their product over the common denominator
    lemma_frac_expand(ln, ld, sd);
    lemma_frac_expand(sn, sd, ld);
    assert(sd * ld == ld * sd) by (nonlinear_arith);
    lemma_frac_product(ln, ld, sn, sd);
    lemma_frac_sum(ln * sd, sn * ld, base);
    lemma_frac_sum(ln * sd + sn * ld, ln * sn, base);
    // twice the lightness
    lemma_frac_scale(ln * sd, base, 2);
    assert(2 * (ln * sd) == 2 * ln * sd) by (nonlinear_arith);
    lemma_frac_sum(2 * ln * sd, q, base);
}

} // verus!
