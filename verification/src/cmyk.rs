//! The CMYK model: display form, normalized form, and the conversions that
//! arrive at either.

use vstd::prelude::*;
use vstd::std_specs::cmp::PartialEqSpecImpl;
use vstd::std_specs::convert::FromSpecImpl;
use crate::extrema::{least_of_three, lowest};
use crate::fraction::{
    cross_equal, frac, lemma_frac_ends, lemma_frac_expand, lemma_frac_order, lemma_frac_quotient,
    lemma_frac_sum, lemma_truncated, same_fraction,
};
use crate::model::{key_of, percent, rgb_to_cmyk, truncated, CmykValue};
use crate::rgb::{Rgb, RgbScaled};

verus! {

/// The largest value of a display channel, in percent.
pub const CMYK_SCALE: u8 = 100;

/// A CMYK colour for display: each channel is a whole percentage in
/// `0..=100`. A channel above 100 is read as 100.
#[derive(Debug, Clone, Copy, PartialEq, Eq, Structural)]
pub struct Cmyk {
    pub c: u8,
    pub m: u8,
    pub y: u8,
    pub k: u8,
}

/// A normalized CMYK colour: the channels are `c / den`, `m / den`,
/// `y / den` and `k / den`.
#[derive(Debug, Clone, Copy)]
pub struct CmykScaled {
    pub c: u64,
    pub m: u64,
    pub y: u64,
    pub k: u64,
    pub den: u64,
}

impl View for Cmyk {
    type V = CmykValue;

    /// The colour with each channel divided by 100.
    open spec fn view(&self) -> CmykValue {
        CmykValue {
            c: frac(percent(self.c as int), 100),
            m: frac(percent(self.m as int), 100),
            y: frac(percent(self.y as int), 100),
            k: frac(percent(self.k as int), 100),
        }
    }
}

impl View for CmykScaled {
    type V = CmykValue;

    open spec fn view(&self) -> CmykValue {
        CmykValue {
            c: frac(self.c as int, self.den as int),
            m: frac(self.m as int, self.den as int),
            y: frac(self.y as int, self.den as int),
            k: frac(self.k as int, self.den as int),
        }
    }
}

impl CmykScaled {
    /// The denominator is not zero and no channel exceeds one.
    pub open spec fn wf(&self) -> bool {
        &&& self.den > 0
        &&& self.c <= self.den
        &&& self.m <= self.den
        &&& self.y <= self.den
        &&& self.k <= self.den
    }
}

impl PartialEqSpecImpl for CmykScaled {
    open spec fn obeys_eq_spec() -> bool {
        true
    }

    /// Two colours are equal when each channel has equal cross products.
    open spec fn eq_spec(&self, other: &CmykScaled) -> bool {
        &&& same_fraction(self.c as int, self.den as int, other.c as int, other.den as int)
        &&& same_fraction(self.m as int, self.den as int, other.m as int, other.den as int)
        &&& same_fraction(self.y as int, self.den as int, other.y as int, other.den as int)
        &&& same_fraction(self.k as int, self.den as int, other.k as int, other.den as int)
    }
}

impl PartialEq for CmykScaled {
    /// Whether the two stand for the same colour.
    fn eq(&self, other: &CmykScaled) -> (res: bool) {
        cross_equal(self.c, self.den, other.c, other.den) && cross_equal(
            self.m,
            self.den,
            other.m,
            other.den,
        ) && cross_equal(self.y, self.den, other.y, other.den) && cross_equal(
            self.k,
            self.den,
            other.k,
            other.den,
        )
    }
}

impl Cmyk {
    /// The display colour at or just below `v`: each channel is scaled by
    /// 100 and truncated.
    pub open spec fn truncation_of(v: CmykValue) -> Cmyk {
        Cmyk {
            c: truncated(v.c, 100) as u8,
            m: truncated(v.m, 100) as u8,
            y: truncated(v.y, 100) as u8,
            k: truncated(v.k, 100) as u8,
        }
    }

    /// The colour with the given channels.
    pub fn new(c: u8, m: u8, y: u8, k: u8) -> (res: Cmyk)
        ensures
            res == (Cmyk { c, m, y, k }),
    {
        Cmyk { c, m, y, k }
    }

    /// The display form of a normalized colour, each channel truncated.
    pub fn from_scaled(cmyk: CmykScaled) -> (res: Cmyk)
        requires
            cmyk.wf(),
        ensures
            res == Cmyk::truncation_of(cmyk@),
    {
        let den = cmyk.den as u128;
        proof {
            lemma_truncated(cmyk.c as int, cmyk.den as int, 100);
            lemma_truncated(cmyk.m as int, cmyk.den as int, 100);
            lemma_truncated(cmyk.y as int, cmyk.den as int, 100);
            lemma_truncated(cmyk.k as int, cmyk.den as int, 100);
        }
        Cmyk {
            c: ((cmyk.c as u128) * 100 / den) as u8,
            m: ((cmyk.m as u128) * 100 / den) as u8,
            y: ((cmyk.y as u128) * 100 / den) as u8,
            k: ((cmyk.k as u128) * 100 / den) as u8,
        }
    }
}

/// A display percentage, with anything above 100 read as 100.
pub(crate) fn clamp_percent(x: u8) -> (res: u64)
    ensures
        res == percent(x as int),
{
    if x >= CMYK_SCALE {
        100
    } else {
        x as u64
    }
}

impl FromSpecImpl<Cmyk> for CmykScaled {
    open spec fn obeys_from_spec() -> bool {
        true
    }

    /// The channels over 100.
    open spec fn from_spec(cmyk: Cmyk) -> CmykScaled {
        CmykScaled {
            c: percent(cmyk.c as int) as u64,
            m: percent(cmyk.m as int) as u64,
            y: percent(cmyk.y as int) as u64,
            k: percent(cmyk.k as int) as u64,
            den: 100,
        }
    }
}

impl From<Cmyk> for CmykScaled {
    /// The normalized form of a display colour.
    fn from(cmyk: Cmyk) -> (res: CmykScaled)
        ensures
            res.wf(),
            res@ == cmyk@,
    {
        CmykScaled {
            c: clamp_percent(cmyk.c),
            m: clamp_percent(cmyk.m),
            y: clamp_percent(cmyk.y),
            k: clamp_percent(cmyk.k),
            den: 100,
        }
    }
}

impl CmykScaled {
    /// RGB to CMYK, from a display colour to a normalized one.
    pub fn from_rgb(rgb: Rgb) -> (res: CmykScaled)
        ensures
            res.wf(),
            res@ == rgb_to_cmyk(rgb@),
            res.den <= 255 * 255,
    {
        CmykScaled::from_rgb_scaled(RgbScaled::from(rgb))
    }

    /// RGB to CMYK on normalized colours.
    ///
    /// The channels of the result share a denominator of at most
    /// `rgb.den * rgb.den`, which must fit the machine word.
    pub fn from_rgb_scaled(rgb: RgbScaled) -> (res: CmykScaled)
        requires
            rgb.wf(),
            rgb.den * rgb.den <= u64::MAX,
        ensures
            res.wf(),
            res@ == rgb_to_cmyk(rgb@),
            res.den <= rgb.den * rgb.den,
    {
        let den = rgb.den;
        let c = den - rgb.r;
        let m = den - rgb.g;
        let y = den - rgb.b;
        let k = least_of_three(c, m, y);
        proof {
            lemma_key(rgb);
            lemma_frac_ends(den as int);
            lemma_frac_order(k as int, den as int, den as int);
            assert(den <= den * den) by (nonlinear_arith)
                requires
                    den > 0,
            ;
        }
        if k == den {
            CmykScaled { c: 0, m: 0, y: 0, k: den, den }
        } else {
            let rest = den - k;
            proof {
                lemma_ink(c as int, k as int, den as int);
                lemma_ink(m as int, k as int, den as int);
                lemma_ink(y as int, k as int, den as int);
                lemma_frac_expand(k as int, den as int, rest as int);
                assert(k * rest <= den * rest <= den * den) by (nonlinear_arith)
                    requires
                        k <= den,
                        0 < rest <= den,
                ;
            }
            CmykScaled {
                c: (c - k) * den,
                m: (m - k) * den,
                y: (y - k) * den,
                k: k * rest,
                den: den * rest,
            }
        }
    }
}

impl FromSpecImpl<Rgb> for Cmyk {
    open spec fn obeys_from_spec() -> bool {
        true
    }

    /// The CMYK equivalent of the colour, truncated to whole percent.
    open spec fn from_spec(rgb: Rgb) -> Cmyk {
        Cmyk::truncation_of(rgb_to_cmyk(rgb@))
    }
}

impl From<Rgb> for Cmyk {
    /// RGB to CMYK on display colours.
    fn from(rgb: Rgb) -> (res: Cmyk)
        ensures
            res == Cmyk::truncation_of(rgb_to_cmyk(rgb@)),
    {
        Cmyk::from_scaled(CmykScaled::from_rgb(rgb))
    }
}

/// The black component of a normalized colour is the smallest complement of
/// its numerators over the common denominator.
proof fn lemma_key(rgb: RgbScaled)
    requires
        rgb.wf(),
    ensures
        key_of(rgb@) == frac(
            lowest(rgb.den - rgb.r, rgb.den - rgb.g, rgb.den - rgb.b),
            rgb.den as int,
        ),
        1real - rgb@.r == frac(rgb.den - rgb.r, rgb.den as int),
        1real - rgb@.g == frac(rgb.den - rgb.g, rgb.den as int),
        1real - rgb@.b == frac(rgb.den - rgb.b, rgb.den as int),
{
    let d = rgb.den as int;
    let c = rgb.den - rgb.r;
    let m = rgb.den - rgb.g;
    let y = rgb.den - rgb.b;
    lemma_frac_ends(d);
    lemma_frac_sum(d, rgb.r as int, d);
    lemma_frac_sum(d, rgb.g as int, d);
    lemma_frac_sum(d, rgb.b as int, d);
    lemma_frac_order(c, m, d);
    lemma_frac_order(m, c, d);
    lemma_frac_order(m, y, d);
    lemma_frac_order(y, m, d);
    lemma_frac_order(c, y, d);
    lemma_frac_order(y, c, d);
}

/// One ink channel: the share of the complement `x / d` that the black
/// component `k / d` leaves uncovered.
proof fn lemma_ink(x: int, k: int, d: int)
    requires
        0 <= k <= x <= d,
        k < d,
    ensures
        d * (d - k) > 0,
        0 <= (x - k) * d <= d * (d - k),
        (frac(x, d) - frac(k, d)) / (1real - frac(k, d)) == frac((x - k) * d, d * (d - k)),
{
    lemma_frac_ends(d);
    lemma_frac_sum(x, k, d);
    lemma_frac_sum(d, k, d);
    lemma_frac_quotient(x - k, d, d - k, d);
    assert(0 <= (x - k) * d <= d * (d - k)) by (nonlinear_arith)
        requires
            0 <= k <= x <= d,
    ;
}

} // verus!
