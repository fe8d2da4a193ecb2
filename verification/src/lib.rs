//! Exact conversions between the RGB, CMYK and HSL colour models.
//!
//! Every model has a display form made of small integers ([`Rgb`], [`Cmyk`],
//! [`HslInt`]) and a normalized form whose channels are fractions
//! ([`RgbScaled`], [`CmykScaled`], [`Hsl`]). The algebra between the models
//! is carried out on the fractions without any rounding, so the only lossy
//! step of a conversion is the final one back to display integers.
//!
//! The policies, in one place:
//!
//! * RGB and CMYK display channels are truncated; HSL display channels are
//!   rounded to the nearest whole number, halves going up.
//! * A chroma or a saturation below one thousandth counts as none, and the
//!   hue sector is that of the first channel, in the order red, green, blue,
//!   that comes within one thousandth of the largest.
//! * A display channel above its documented maximum is read as the maximum.
//! * Normalized colours compare equal when they stand for the same colour,
//!   whatever their denominators.
//!
//! What each conversion computes is stated against the real-valued
//! functions of [`model`]; what holds of all of them together is proved in
//! [`laws`].

pub mod cmyk;
pub mod extrema;
pub mod fraction;
pub mod hsl;
pub mod laws;
pub mod model;
pub mod rgb;

pub use cmyk::{Cmyk, CmykScaled};
pub use fraction::Ratio;
pub use hsl::{Hsl, HslInt};
pub use rgb::{Rgb, RgbScaled};
