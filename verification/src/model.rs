//! The colour models as tuples of real numbers, and the algebra that maps one
//! model onto another. Everything here is specification: the executable
//! conversions are stated against these functions.

use vstd::prelude::*;

verus! {

/// An RGB colour whose channels are real numbers, nominally in `[0, 1]`.
pub struct RgbValue {
    pub r: real,
    pub g: real,
    pub b: real,
}

/// A CMYK colour whose channels are real numbers, nominally in `[0, 1]`.
pub struct CmykValue {
    pub c: real,
    pub m: real,
    pub y: real,
    pub k: real,
}

/// An HSL colour: hue in degrees, saturation and lightness nominally in
/// `[0, 1]`.
pub struct HslValue {
    pub h: real,
    pub s: real,
    pub l: real,
}

/// Whether `x` lies in the closed unit interval.
pub open spec fn unit(x: real) -> bool {
    0real <= x <= 1real
}

impl RgbValue {
    /// All three channels lie in `[0, 1]`.
    pub open spec fn in_gamut(self) -> bool {
        unit(self.r) && unit(self.g) && unit(self.b)
    }
}

impl CmykValue {
    /// All four channels lie in `[0, 1]`.
    pub open spec fn in_gamut(self) -> bool {
        unit(self.c) && unit(self.m) && unit(self.y) && unit(self.k)
    }
}

impl HslValue {
    /// Hue lies in `[0, 360]` degrees, saturation and lightness in `[0, 1]`.
    /// A hue computed from RGB is always below 360; the closed bound admits
    /// the full turn that rounding to whole degrees can produce.
    pub open spec fn in_gamut(self) -> bool {
        0real <= self.h <= 360real && unit(self.s) && unit(self.l)
    }
}

/// Differences below this threshold count as zero when a colour is tested
/// for being achromatic and when the hue sector is chosen.
pub open spec fn epsilon() -> real {
    1real / 1000real
}

/// The smaller of two reals.
pub open spec fn least(a: real, b: real) -> real {
    if a < b {
        a
    } else {
        b
    }
}

/// The larger of two reals.
pub open spec fn greatest(a: real, b: real) -> real {
    if a > b {
        a
    } else {
        b
    }
}

/// The black component of an RGB colour: the smallest of the complements of
/// its channels.
pub open spec fn key_of(v: RgbValue) -> real {
    least(1real - v.r, least(1real - v.g, 1real - v.b))
}

/// RGB to CMYK. Pure black has no defined ink ratios and maps to
/// `(0, 0, 0, 1)`.
pub open spec fn rgb_to_cmyk(v: RgbValue) -> CmykValue {
    let k = key_of(v);
    if k == 1real {
        CmykValue { c: 0real, m: 0real, y: 0real, k: 1real }
    } else {
        CmykValue {
            c: (1real - v.r - k) / (1real - k),
            m: (1real - v.g - k) / (1real - k),
            y: (1real - v.b - k) / (1real - k),
            k,
        }
    }
}

/// CMYK to RGB.
pub open spec fn cmyk_to_rgb(v: CmykValue) -> RgbValue {
    RgbValue {
        r: (1real - v.c) * (1real - v.k),
        g: (1real - v.m) * (1real - v.k),
        b: (1real - v.y) * (1real - v.k),
    }
}

/// The smallest channel of an RGB colour.
pub open spec fn floor_of(v: RgbValue) -> real {
    least(v.r, least(v.g, v.b))
}

/// The largest channel of an RGB colour.
pub open spec fn peak_of(v: RgbValue) -> real {
    greatest(v.r, greatest(v.g, v.b))
}

/// The spread between the largest and the smallest channel.
pub open spec fn chroma_of(v: RgbValue) -> real {
    peak_of(v) - floor_of(v)
}

/// The hue of a chromatic colour in units of 60 degrees. The sector is that
/// of the first channel, in the order red, green, blue, that comes within
/// `epsilon` of the largest.
pub open spec fn hue_sextant(v: RgbValue) -> real {
    let hi = peak_of(v);
    let chroma = chroma_of(v);
    if hi - v.r < epsilon() {
        let segment = (v.g - v.b) / chroma;
        if segment < 0real {
            segment + 6real
        } else {
            segment
        }
    } else if hi - v.g < epsilon() {
        (v.b - v.r) / chroma + 2real
    } else {
        (v.r - v.g) / chroma + 4real
    }
}

/// The absolute value of a real.
pub open spec fn magnitude(x: real) -> real {
    if x < 0real {
        -x
    } else {
        x
    }
}

/// RGB to HSL. A colour whose chroma is below `epsilon` is achromatic and
/// gets hue 0 and saturation 0.
pub open spec fn rgb_to_hsl(v: RgbValue) -> HslValue {
    let chroma = chroma_of(v);
    let l = (floor_of(v) + peak_of(v)) / 2real;
    if chroma < epsilon() {
        HslValue { h: 0real, s: 0real, l }
    } else {
        HslValue {
            h: 60real * hue_sextant(v),
            s: chroma / (1real - magnitude(2real * l - 1real)),
            l,
        }
    }
}

/// Brings a hue position that is off by at most one turn back into `[0, 1]`.
pub open spec fn wrap_turn(t: real) -> real {
    if t < 0real {
        t + 1real
    } else if t > 1real {
        t - 1real
    } else {
        t
    }
}

/// One RGB channel from the two lightness bounds `p <= q` and the channel's
/// hue position `t`, in turns.
pub open spec fn hue_to_channel(p: real, q: real, t: real) -> real {
    let t = wrap_turn(t);
    if t < 1real / 6real {
        p + (q - p) * 6real * t
    } else if t < 1real / 2real {
        q
    } else if t < 2real / 3real {
        p + (q - p) * (2real / 3real - t) * 6real
    } else {
        p
    }
}

/// The upper lightness bound of an HSL colour.
pub open spec fn upper_bound(s: real, l: real) -> real {
    if l < 1real / 2real {
        l * (1real + s)
    } else {
        l + s - l * s
    }
}

/// HSL to RGB. A colour whose saturation is below `epsilon` is a grey of its
/// lightness.
pub open spec fn hsl_to_rgb(v: HslValue) -> RgbValue {
    if v.s < epsilon() {
        RgbValue { r: v.l, g: v.l, b: v.l }
    } else {
        let q = upper_bound(v.s, v.l);
        let p = 2real * v.l - q;
        let t = v.h / 360real;
        RgbValue {
            r: hue_to_channel(p, q, t + 1real / 3real),
            g: hue_to_channel(p, q, t),
            b: hue_to_channel(p, q, t - 1real / 3real),
        }
    }
}

/// A display percentage as a whole number of hundredths: a value above 100
/// is read as 100.
pub open spec fn percent(x: int) -> int {
    if x >= 100 {
        100
    } else {
        x
    }
}

/// A display hue as a whole number of degrees: a value above 360 is read as
/// 360.
pub open spec fn degrees(x: int) -> int {
    if x >= 360 {
        360
    } else {
        x
    }
}

/// The whole number below `x` after scaling by `scale`, kept within
/// `0..=scale`.
pub open spec fn truncated(x: real, scale: int) -> int {
    let n = (x * (scale as real)).floor();
    if n < 0 {
        0
    } else if n > scale {
        scale
    } else {
        n
    }
}

/// The whole number nearest to `x` after scaling by `scale`, halves going
/// up, kept within `0..=limit`.
pub open spec fn rounded(x: real, scale: int, limit: int) -> int {
    let n = (x * (scale as real) + 1real / 2real).floor();
    if n < 0 {
        0
    } else if n > limit {
        limit
    } else {
        n
    }
}

} // verus!
