//! The HSL model: display form, normalized form, and the conversions that
//! arrive at either.

use vstd::prelude::*;
use vstd::std_specs::cmp::PartialEqSpecImpl;
use vstd::std_specs::convert::FromSpecImpl;
use crate::cmyk::clamp_percent;
use crate::extrema::{greatest_of_three, highest, least_of_three, lowest};
use crate::fraction::{
    frac, lemma_below_epsilon, lemma_frac_ends, lemma_frac_expand, lemma_frac_order,
    lemma_frac_quotient, lemma_frac_scale, lemma_frac_sum, lemma_frac_whole, lemma_rounded,
    same_fraction, Ratio,
};
use crate::model::{
    chroma_of, degrees, floor_of, magnitude, peak_of, percent, rgb_to_hsl, rounded, HslValue,
};
use crate::rgb::{Rgb, RgbScaled};

verus! {

/// A normalized HSL colour: hue in degrees, saturation and lightness as
/// fractions of one.
#[derive(Debug, Clone, Copy)]
pub struct Hsl {
    pub h: Ratio,
    pub s: Ratio,
    pub l: Ratio,
}

/// An HSL colour for display: hue in whole degrees `0..=360`, saturation and
/// lightness in whole percent `0..=100`.
#[derive(Debug, Clone, Copy, PartialEq, Eq, Structural)]
pub struct HslInt {
    pub h: u16,
    pub s: u8,
    pub l: u8,
}

impl View for HslInt {
    type V = HslValue;

    /// The colour with the hue in degrees and the other channels divided by
    /// 100.
    open spec fn view(&self) -> HslValue {
        HslValue {
            h: frac(degrees(self.h as int), 1),
            s: frac(percent(self.s as int), 100),
            l: frac(percent(self.l as int), 100),
        }
    }
}

impl View for Hsl {
    type V = HslValue;

    open spec fn view(&self) -> HslValue {
        HslValue { h: self.h.value(), s: self.s.value(), l: self.l.value() }
    }
}

impl Hsl {
    /// No denominator is zero, the hue is at most 360 degrees, and
    /// saturation and lightness are at most one.
    pub open spec fn wf(&self) -> bool {
        &&& self.h.wf()
        &&& self.s.wf()
        &&& self.l.wf()
        &&& self.h.num <= 360 * self.h.den
        &&& self.s.num <= self.s.den
        &&& self.l.num <= self.l.den
    }
}

impl PartialEqSpecImpl for Hsl {
    open spec fn obeys_eq_spec() -> bool {
        true
    }

    /// Two colours are equal when each channel has equal cross products.
    open spec fn eq_spec(&self, other: &Hsl) -> bool {
        &&& same_fraction(
            self.h.num as int,
            self.h.den as int,
            other.h.num as int,
            other.h.den as int,
        )
        &&& same_fraction(
            self.s.num as int,
            self.s.den as int,
            other.s.num as int,
            other.s.den as int,
        )
        &&& same_fraction(
            self.l.num as int,
            self.l.den as int,
            other.l.num as int,
            other.l.den as int,
        )
    }
}

impl PartialEq for Hsl {
    /// Whether the two stand for the same colour.
    fn eq(&self, other: &Hsl) -> (res: bool) {
        self.h == other.h && self.s == other.s && self.l == other.l
    }
}

impl HslInt {
    /// The display colour nearest to `v`: the hue is rounded to whole
    /// degrees, saturation and lightness to whole percent.
    pub open spec fn rounding_of(v: HslValue) -> HslInt {
        HslInt {
            h: rounded(v.h, 1, 360) as u16,
            s: rounded(v.s, 100, 100) as u8,
            l: rounded(v.l, 100, 100) as u8,
        }
    }

    /// The colour with the given channels.
    pub fn new(h: u16, s: u8, l: u8) -> (res: HslInt)
        ensures
            res == (HslInt { h, s, l }),
    {
        HslInt { h, s, l }
    }

    /// The display form of a normalized colour, each channel rounded.
    pub fn from_hsl(hsl: Hsl) -> (res: HslInt)
        requires
            hsl.wf(),
        ensures
            res == HslInt::rounding_of(hsl@),
    {
        proof {
            lemma_rounded(hsl.h.num as int, hsl.h.den as int, 1, 360);
            lemma_rounded(hsl.s.num as int, hsl.s.den as int, 100, 100);
            lemma_rounded(hsl.l.num as int, hsl.l.den as int, 100, 100);
        }
        let hd = hsl.h.den as u128;
        let sd = hsl.s.den as u128;
        let ld = hsl.l.den as u128;
        HslInt {
            h: ((2 * (hsl.h.num as u128) * 1 + hd) / (2 * hd)) as u16,
            s: ((2 * (hsl.s.num as u128) * 100 + sd) / (2 * sd)) as u8,
            l: ((2 * (hsl.l.num as u128) * 100 + ld) / (2 * ld)) as u8,
        }
    }
}

/// A display hue, with anything above 360 read as 360.
fn clamp_degrees(x: u16) -> (res: u64)
    ensures
        res == degrees(x as int),
{
    if x >= 360 {
        360
    } else {
        x as u64
    }
}

impl FromSpecImpl<HslInt> for Hsl {
    open spec fn obeys_from_spec() -> bool {
        true
    }

    /// The hue over 1, saturation and lightness over 100.
    open spec fn from_spec(hsl: HslInt) -> Hsl {
        Hsl {
            h: Ratio { num: degrees(hsl.h as int) as u64, den: 1 },
            s: Ratio { num: percent(hsl.s as int) as u64, den: 100 },
            l: Ratio { num: percent(hsl.l as int) as u64, den: 100 },
        }
    }
}

impl From<HslInt> for Hsl {
    /// The normalized form of a display colour.
    fn from(hsl: HslInt) -> (res: Hsl)
        ensures
            res.wf(),
            res@ == hsl@,
    {
        Hsl {
            h: Ratio { num: clamp_degrees(hsl.h), den: 1 },
            s: Ratio { num: clamp_percent(hsl.s), den: 100 },
            l: Ratio { num: clamp_percent(hsl.l), den: 100 },
        }
    }
}

impl Hsl {
    /// RGB to HSL, from a display colour to a normalized one.
    pub fn from_rgb(rgb: Rgb) -> (res: Hsl)
        ensures
            res.wf(),
            res@ == rgb_to_hsl(rgb@),
            res.h.num < 360 * res.h.den,
            res.h.den <= 255,
            res.s.den <= 255,
            res.l.den <= 510,
    {
        Hsl::from_rgb_scaled(RgbScaled::from(rgb))
    }

    /// RGB to HSL on normalized colours.
    ///
    /// The hue numerator needs room for a full turn over the chroma, hence
    /// the bound on the denominator.
    pub fn from_rgb_scaled(rgb: RgbScaled) -> (res: Hsl)
        requires
            rgb.wf(),
            360 * rgb.den <= u64::MAX,
        ensures
            res.wf(),
            res@ == rgb_to_hsl(rgb@),
            res.h.num < 360 * res.h.den,
            res.h.den <= rgb.den,
            res.s.den <= rgb.den,
            res.l.den == 2 * rgb.den,
    {
        let lo = least_of_three(rgb.r, rgb.g, rgb.b);
        let hi = greatest_of_three(rgb.r, rgb.g, rgb.b);
        let chroma = hi - lo;
        let lightness = Ratio { num: lo + hi, den: 2 * rgb.den };
        proof {
            let d = rgb.den as int;
            lemma_extremes(rgb);
            lemma_below_epsilon(chroma as int, d);
            // the lightness is half the sum of the extremes
            lemma_frac_sum(lo as int, hi as int, d);
            lemma_frac_quotient((lo + hi) as int, d, 2, 1);
            lemma_frac_whole(2);
        }
        if (chroma as u128) * 1000 < rgb.den as u128 {
            proof {
                lemma_frac_ends(1);
            }
            Hsl { h: Ratio { num: 0, den: 1 }, s: Ratio { num: 0, den: 1 }, l: lightness }
        } else {
            let hue = if ((hi - rgb.r) as u128) * 1000 < rgb.den as u128 {
                if rgb.g < rgb.b {
                    60 * (6 * chroma - (rgb.b - rgb.g))
                } else {
                    60 * (rgb.g - rgb.b)
                }
            } else if ((hi - rgb.g) as u128) * 1000 < rgb.den as u128 {
                60 * (2 * chroma + rgb.b - rgb.r)
            } else {
                60 * (4 * chroma + rgb.r - rgb.g)
            };
            let room = if lo + hi >= rgb.den {
                2 * rgb.den - lo - hi
            } else {
                lo + hi
            };
            proof {
                let d = rgb.den as int;
                let c = chroma as int;
                lemma_frac_sum(hi as int, rgb.r as int, d);
                lemma_frac_sum(hi as int, rgb.g as int, d);
                lemma_below_epsilon(hi - rgb.r, d);
                lemma_below_epsilon(hi - rgb.g, d);
                lemma_sector(rgb.g as int, rgb.b as int, c, d, 0);
                lemma_sector(rgb.g as int, rgb.b as int, c, d, 6);
                lemma_sector(rgb.b as int, rgb.r as int, c, d, 2);
                lemma_sector(rgb.r as int, rgb.g as int, c, d, 4);
                lemma_saturation(lo as int, hi as int, d);
            }
            Hsl {
                h: Ratio { num: hue, den: chroma },
                s: Ratio { num: chroma, den: room },
                l: lightness,
            }
        }
    }
}

impl FromSpecImpl<Rgb> for HslInt {
    open spec fn obeys_from_spec() -> bool {
        true
    }

    /// The HSL equivalent of the colour, rounded to whole degrees and
    /// percent.
    open spec fn from_spec(rgb: Rgb) -> HslInt {
        HslInt::rounding_of(rgb_to_hsl(rgb@))
    }
}

impl From<Rgb> for HslInt {
    /// RGB to HSL on display colours.
    fn from(rgb: Rgb) -> (res: HslInt)
        ensures
            res == HslInt::rounding_of(rgb_to_hsl(rgb@)),
    {
        HslInt::from_hsl(Hsl::from_rgb(rgb))
    }
}

/// The extremes and the chroma of a normalized colour are those of its
/// numerators over the common denominator.
proof fn lemma_extremes(rgb: RgbScaled)
    requires
        rgb.wf(),
    ensures
        floor_of(rgb@) == frac(lowest(rgb.r as int, rgb.g as int, rgb.b as int), rgb.den as int),
        peak_of(rgb@) == frac(highest(rgb.r as int, rgb.g as int, rgb.b as int), rgb.den as int),
        chroma_of(rgb@) == frac(
            highest(rgb.r as int, rgb.g as int, rgb.b as int) - lowest(
                rgb.r as int,
                rgb.g as int,
                rgb.b as int,
            ),
            rgb.den as int,
        ),
{
    let d = rgb.den as int;
    lemma_frac_order(rgb.r as int, rgb.g as int, d);
    lemma_frac_order(rgb.g as int, rgb.r as int, d);
    lemma_frac_order(rgb.g as int, rgb.b as int, d);
    lemma_frac_order(rgb.b as int, rgb.g as int, d);
    lemma_frac_order(rgb.r as int, rgb.b as int, d);
    lemma_frac_order(rgb.b as int, rgb.r as int, d);
    lemma_frac_sum(
        highest(rgb.r as int, rgb.g as int, rgb.b as int),
        lowest(rgb.r as int, rgb.g as int, rgb.b as int),
        d,
    );
}

/// The difference of two channels over the chroma, in sixths of a turn and
/// shifted by `shift` sextants, is `60 * (x - y + shift * c) / c` degrees.
proof fn lemma_sector(x: int, y: int, c: int, d: int, shift: int)
    requires
        c > 0,
        d > 0,
    ensures
        60real * ((frac(x, d) - frac(y, d)) / frac(c, d) + shift as real) == frac(
            60 * (x - y + shift * c),
            c,
        ),
        (frac(x, d) - frac(y, d)) / frac(c, d) < 0real <==> x < y,
{
    // the segment is (x - y) / c
    lemma_frac_sum(x, y, d);
    lemma_frac_quotient(x - y, d, c, d);
    lemma_frac_expand(x - y, c, d);
    assert(d * c == c * d) by (nonlinear_arith);
    lemma_frac_order(x - y, 0, c);
    lemma_frac_ends(c);
    // the shift is shift * c / c
    lemma_frac_expand(shift, 1, c);
    lemma_frac_whole(shift);
    lemma_frac_sum(x - y, shift * c, c);
    lemma_frac_scale(x - y + shift * c, c, 60);
}

/// The saturation of a chromatic colour: the chroma over the room that the
/// lightness leaves.
proof fn lemma_saturation(lo: int, hi: int, d: int)
    requires
        d > 0,
        0 <= lo < hi <= d,
    ensures
        (if lo + hi >= d { 2 * d - lo - hi } else { lo + hi }) >= hi - lo,
        frac(hi - lo, d) / (1real - magnitude(2real * ((frac(lo, d) + frac(hi, d)) / 2real) - 1real))
            == frac(hi - lo, if lo + hi >= d { 2 * d - lo - hi } else { lo + hi }),
{
    let w = if lo + hi >= d { 2 * d - lo - hi } else { lo + hi };
    // twice the lightness, less one, is (lo + hi - d) / d
    lemma_frac_sum(lo, hi, d);
    lemma_frac_ends(d);
    lemma_frac_sum(lo + hi, d, d);
    lemma_frac_order(lo + hi, d, d);
    // the room is w / d
    lemma_frac_sum(d, lo + hi - d, d);
    lemma_frac_sum(d, d - lo - hi, d);
    lemma_frac_quotient(hi - lo, d, w, d);
    lemma_frac_expand(hi - lo, w, d);
}

} // verus!
