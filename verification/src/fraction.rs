//! Fractions of machine integers and the real numbers they stand for.

use vstd::prelude::*;
use vstd::std_specs::cmp::PartialEqSpecImpl;
use crate::model::{epsilon, rounded, truncated};

verus! {

/// The real number `n / d`.
pub open spec fn frac(n: int, d: int) -> real {
    n as real / d as real
}

/// A non-negative fraction `num / den`.
#[derive(Debug, Clone, Copy)]
pub struct Ratio {
    pub num: u64,
    pub den: u64,
}

impl Ratio {
    /// The denominator is not zero.
    pub open spec fn wf(&self) -> bool {
        self.den > 0
    }

    /// The real number that the fraction stands for.
    pub open spec fn value(&self) -> real {
        frac(self.num as int, self.den as int)
    }

    /// The fraction `num / den`.
    pub fn new(num: u64, den: u64) -> (res: Ratio)
        ensures
            res.num == num,
            res.den == den,
    {
        Ratio { num, den }
    }
}

/// Whether `a / b` and `c / d` have equal cross products.
pub open spec fn same_fraction(a: int, b: int, c: int, d: int) -> bool {
    a * d == c * b
}

/// Whether `a / b` and `c / d` have equal cross products.
pub fn cross_equal(a: u64, b: u64, c: u64, d: u64) -> (res: bool)
    ensures
        res == same_fraction(a as int, b as int, c as int, d as int),
{
    assert(a * d <= u128::MAX && c * b <= u128::MAX) by (nonlinear_arith)
        requires
            a <= u64::MAX,
            b <= u64::MAX,
            c <= u64::MAX,
            d <= u64::MAX,
    ;
    (a as u128) * (d as u128) == (c as u128) * (b as u128)
}

impl PartialEqSpecImpl for Ratio {
    open spec fn obeys_eq_spec() -> bool {
        true
    }

    /// Two fractions are equal when their cross products are.
    open spec fn eq_spec(&self, other: &Ratio) -> bool {
        same_fraction(self.num as int, self.den as int, other.num as int, other.den as int)
    }
}

impl PartialEq for Ratio {
    /// Whether the two fractions stand for the same number.
    fn eq(&self, other: &Ratio) -> (res: bool) {
        cross_equal(self.num, self.den, other.num, other.den)
    }
}

/// A whole number is the fraction over one.
pub proof fn lemma_frac_whole(n: int)
    ensures
        frac(n, 1) == n as real,
{
    let x = n as real;
    assert(x / 1real == x) by (nonlinear_arith);
}

/// Fractions over one denominator compare as their numerators do.
pub proof fn lemma_frac_order(a: int, b: int, d: int)
    requires
        d > 0,
    ensures
        a <= b <==> frac(a, d) <= frac(b, d),
        a < b <==> frac(a, d) < frac(b, d),
        a == b <==> frac(a, d) == frac(b, d),
{
    let x = a as real;
    let y = b as real;
    let z = d as real;
    assert(x <= y <==> x / z <= y / z) by (nonlinear_arith)
        requires
            z > 0real,
    ;
    assert(x < y <==> x / z < y / z) by (nonlinear_arith)
        requires
            z > 0real,
    ;
}

/// Fractions over one denominator add and subtract by their numerators.
pub proof fn lemma_frac_sum(a: int, b: int, d: int)
    requires
        d > 0,
    ensures
        frac(a, d) + frac(b, d) == frac(a + b, d),
        frac(a, d) - frac(b, d) == frac(a - b, d),
{
    let x = a as real;
    let y = b as real;
    let z = d as real;
    assert(x / z + y / z == (x + y) / z) by (nonlinear_arith)
        requires
            z > 0real,
    ;
    assert(x / z - y / z == (x - y) / z) by (nonlinear_arith)
        requires
            z > 0real,
    ;
}

/// The product of two fractions.
pub proof fn lemma_frac_product(a: int, b: int, c: int, d: int)
    requires
        b > 0,
        d > 0,
    ensures
        b * d > 0,
        frac(a, b) * frac(c, d) == frac(a * c, b * d),
{
    let x = a as real;
    let y = b as real;
    let z = c as real;
    let w = d as real;
    assert(b * d > 0) by (nonlinear_arith)
        requires
            b > 0,
            d > 0,
    ;
    assert((a * c) as real == x * z) by (nonlinear_arith)
        requires
            x == a as real,
            z == c as real,
    ;
    assert((b * d) as real == y * w) by (nonlinear_arith)
        requires
            y == b as real,
            w == d as real,
    ;
    assert((x / y) * (z / w) == (x * z) / (y * w)) by (nonlinear_arith)
        requires
            y > 0real,
            w > 0real,
    ;
}

/// The quotient of two fractions.
pub proof fn lemma_frac_quotient(a: int, b: int, c: int, d: int)
    requires
        b > 0,
        c > 0,
        d > 0,
    ensures
        b * c > 0,
        frac(a, b) / frac(c, d) == frac(a * d, b * c),
{
    let x = a as real;
    let y = b as real;
    let z = c as real;
    let w = d as real;
    assert(b * c > 0) by (nonlinear_arith)
        requires
            b > 0,
            c > 0,
    ;
    assert((a * d) as real == x * w) by (nonlinear_arith)
        requires
            x == a as real,
            w == d as real,
    ;
    assert((b * c) as real == y * z) by (nonlinear_arith)
        requires
            y == b as real,
            z == c as real,
    ;
    assert((x / y) / (z / w) == (x * w) / (y * z)) by (nonlinear_arith)
        requires
            y > 0real,
            z > 0real,
            w > 0real,
    ;
}

/// Multiplying numerator and denominator by one factor keeps the value.
pub proof fn lemma_frac_expand(a: int, d: int, k: int)
    requires
        d > 0,
        k > 0,
    ensures
        d * k > 0,
        frac(a * k, d * k) == frac(a, d),
{
    lemma_frac_product(a, d, k, k);
    let x = frac(a, d);
    let w = k as real;
    assert(x * (w / w) == x) by (nonlinear_arith)
        requires
            w > 0real,
    ;
}

/// A whole multiple of a fraction.
pub proof fn lemma_frac_scale(a: int, d: int, k: int)
    requires
        d > 0,
    ensures
        (k as real) * frac(a, d) == frac(k * a, d),
{
    lemma_frac_product(k, 1, a, d);
    lemma_frac_whole(k);
}

/// Two fractions compare as their cross products do.
pub proof fn lemma_frac_cross(a: int, b: int, c: int, d: int)
    requires
        b > 0,
        d > 0,
    ensures
        a * d < c * b <==> frac(a, b) < frac(c, d),
        a * d == c * b <==> frac(a, b) == frac(c, d),
{
    let x = a as real;
    let y = b as real;
    let z = c as real;
    let w = d as real;
    assert((a * d) as real == x * w) by (nonlinear_arith)
        requires
            x == a as real,
            w == d as real,
    ;
    assert((c * b) as real == z * y) by (nonlinear_arith)
        requires
            z == c as real,
            y == b as real,
    ;
    assert(x * w < z * y <==> x / y < z / w) by (nonlinear_arith)
        requires
            y > 0real,
            w > 0real,
    ;
    assert(x * w == z * y <==> x / y == z / w) by (nonlinear_arith)
        requires
            y > 0real,
            w > 0real,
    ;
}

/// The fraction of zero is zero, and a number over itself is one.
pub proof fn lemma_frac_ends(d: int)
    requires
        d > 0,
    ensures
        frac(0, d) == 0real,
        frac(d, d) == 1real,
{
    let z = d as real;
    assert(0real / z == 0real) by (nonlinear_arith)
        requires
            z > 0real,
    ;
    assert(z / z == 1real) by (nonlinear_arith)
        requires
            z > 0real,
    ;
}

/// A point between `p / b` and `q / b`, the share `u / w` of the way up.
pub proof fn lemma_frac_blend(p: int, q: int, b: int, u: int, w: int)
    requires
        b > 0,
        w > 0,
    ensures
        b * w > 0,
        frac(p, b) + (frac(q, b) - frac(p, b)) * frac(u, w) == frac(p * w + (q - p) * u, b * w),
{
    lemma_frac_sum(q, p, b);
    lemma_frac_product(q - p, b, u, w);
    lemma_frac_expand(p, b, w);
    lemma_frac_sum(p * w, (q - p) * u, b * w);
}

/// A fraction is below `epsilon` exactly when a thousand numerators stay
/// below the denominator.
pub proof fn lemma_below_epsilon(a: int, d: int)
    requires
        d > 0,
    ensures
        1000 * a < d <==> frac(a, d) < epsilon(),
{
    lemma_frac_cross(a, d, 1, 1000);
}

/// Integer division is the floor of the fraction.
pub proof fn lemma_frac_floor(a: int, d: int)
    requires
        a >= 0,
        d > 0,
    ensures
        frac(a, d).floor() == a / d,
{
    let q = a / d;
    let r = a % d;
    assert(a == d * q + r && 0 <= r < d) by (nonlinear_arith)
        requires
            q == a / d,
            r == a % d,
            d > 0,
    ;
    let x = a as real;
    let z = d as real;
    let qr = q as real;
    assert((d * q) as real == z * qr) by (nonlinear_arith)
        requires
            z == d as real,
            qr == q as real,
    ;
    assert(qr <= x / z < qr + 1real) by (nonlinear_arith)
        requires
            z > 0real,
            z * qr <= x < z * qr + z,
    ;
}

/// Truncating a fraction of at most one, scaled by `scale`, is an integer
/// division.
pub proof fn lemma_truncated(n: int, d: int, scale: int)
    requires
        0 <= n <= d,
        d > 0,
        scale >= 0,
    ensures
        truncated(frac(n, d), scale) == n * scale / d,
        0 <= n * scale / d <= scale,
{
    lemma_frac_scale(n, d, scale);
    let x = frac(n, d);
    let k = scale as real;
    assert(x * k == k * x) by (nonlinear_arith);
    assert(0 <= n * scale <= d * scale) by (nonlinear_arith)
        requires
            0 <= n <= d,
            scale >= 0,
    ;
    assert(scale * n == n * scale) by (nonlinear_arith);
    lemma_frac_floor(n * scale, d);
    assert(0 <= n * scale / d <= scale) by (nonlinear_arith)
        requires
            0 <= n * scale <= d * scale,
            d > 0,
    ;
}

/// Rounding a fraction, scaled by `scale`, to the nearest whole number is an
/// integer division of doubled terms.
pub proof fn lemma_rounded(n: int, d: int, scale: int, limit: int)
    requires
        0 <= n,
        d > 0,
        scale >= 0,
        n * scale <= limit * d,
    ensures
        rounded(frac(n, d), scale, limit) == (2 * n * scale + d) / (2 * d),
        0 <= (2 * n * scale + d) / (2 * d) <= limit,
{
    lemma_frac_scale(n, d, scale);
    let x = frac(n, d);
    let k = scale as real;
    assert(x * k == k * x) by (nonlinear_arith);
    assert(scale * n == n * scale) by (nonlinear_arith);
    lemma_frac_expand(n * scale, d, 2);
    lemma_frac_expand(1, 2, d);
    assert(n * scale * 2 == 2 * n * scale) by (nonlinear_arith);
    lemma_frac_sum(2 * n * scale, d, 2 * d);
    lemma_frac_floor(2 * n * scale + d, 2 * d);
    let top = 2 * n * scale + d;
    let twice = 2 * d;
    assert(2 * (limit * d) == limit * twice) by (nonlinear_arith)
        requires
            twice == 2 * d,
    ;
    assert(0 <= top / twice <= limit) by (nonlinear_arith)
        requires
            0 <= top < limit * twice + twice,
            twice > 0,
    ;
}

} // verus!
