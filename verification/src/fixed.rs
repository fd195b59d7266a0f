//! Fixed-point arithmetic on signed counts of billionths.
//!
//! Every quantity of the simulation (an angle in radians, a speed, a length,
//! a time in seconds) is an `i64` that counts billionths of its unit, so `1.0`
//! is [`SCALE`]. Quotients round toward zero, which keeps every operation odd:
//! negating an operand negates the result.

use vstd::prelude::*;

verus! {

/// The fixed-point representation of one.
pub const SCALE: i64 = 1_000_000_000;

/// The distance of `x` from zero.
pub open spec fn magnitude(x: int) -> int {
    if x >= 0 {
        x
    } else {
        -x
    }
}

/// The quotient of `n` by `d`, rounded toward zero. Meaningful for `d != 0`.
pub open spec fn quot(n: int, d: int) -> int {
    if (n >= 0) == (d > 0) {
        magnitude(n) / magnitude(d)
    } else {
        -(magnitude(n) / magnitude(d))
    }
}

/// The fixed-point product of two fixed-point numbers.
pub open spec fn product(a: int, b: int) -> int {
    quot(a * b, SCALE as int)
}

/// The fixed-point quotient of two fixed-point numbers. Meaningful for `b != 0`.
pub open spec fn ratio(a: int, b: int) -> int {
    quot(a * SCALE, b)
}

/// Half of `a`, rounded toward zero.
pub open spec fn halved(a: int) -> int {
    quot(a, 2)
}

/// Whether `x` can be held in an `i64`.
pub open spec fn fits(x: int) -> bool {
    i64::MIN <= x <= i64::MAX
}

/// What a checked operation returns for the exact result `x`.
pub open spec fn checked(x: int) -> Option<i64> {
    if fits(x) {
        Some(x as i64)
    } else {
        None
    }
}

proof fn lemma_product_of_magnitudes(a: int, b: int)
    by (nonlinear_arith)
    ensures
        magnitude(a) * magnitude(b) == magnitude(a * b),
        magnitude(a) <= 0x8000_0000_0000_0000 && magnitude(b) <= 0x8000_0000_0000_0000
            ==> magnitude(a) * magnitude(b) <= 0x4000_0000_0000_0000_0000_0000_0000_0000,
        (a * b >= 0) == (a == 0 || b == 0 || ((a > 0) == (b > 0))),
{
}

/// A factor of at most one in magnitude does not enlarge a product.
pub proof fn lemma_product_bounded(a: int, b: int)
    requires
        -SCALE <= a <= SCALE,
    ensures
        magnitude(product(a, b)) <= magnitude(b),
{
    let m = magnitude(a * b);
    let k = magnitude(b);
    assert(0 <= m <= SCALE * k) by (nonlinear_arith)
        requires
            -SCALE <= a <= SCALE,
            m == magnitude(a * b),
            k == magnitude(b),
    ;
    assert(m / (SCALE as int) <= k) by (nonlinear_arith)
        requires
            0 <= m <= SCALE * k,
            SCALE == 1_000_000_000,
    ;
}

/// Quotients are odd in the numerator, and so are products and ratios in
/// their first operand.
pub proof fn lemma_odd(a: int, b: int)
    ensures
        b != 0 ==> quot(-a, b) == -quot(a, b),
        b != 0 ==> ratio(-a, b) == -ratio(a, b),
        product(-a, b) == -product(a, b),
        halved(-a) == -halved(a),
{
    assert((-a) * b == -(a * b)) by (nonlinear_arith);
    assert((-a) * SCALE == -(a * SCALE)) by (nonlinear_arith);
    if b != 0 {
        lemma_quot_zero(b);
    }
    lemma_quot_zero(SCALE as int);
    lemma_quot_zero(2);
}

/// Zero divided by anything but zero is zero.
pub proof fn lemma_quot_zero(d: int)
    requires
        d != 0,
    ensures
        quot(0, d) == 0,
{
    assert(0int / magnitude(d) == 0) by (nonlinear_arith)
        requires
            magnitude(d) > 0,
    ;
}

/// A quotient is bounded by `b` where the numerator is bounded by `b` times
/// the denominator.
pub proof fn lemma_quot_bounded(n: int, d: int, b: int)
    requires
        d > 0,
        0 <= b,
        magnitude(n) <= b * d,
    ensures
        -b <= quot(n, d) <= b,
{
    let m = magnitude(n);
    assert(0 <= m / d <= b) by (nonlinear_arith)
        requires
            d > 0,
            0 <= m <= b * d,
    ;
}

/// A quotient by a positive number has the sign of its numerator, or is
/// zero.
pub proof fn lemma_quot_sign(n: int, d: int)
    requires
        d > 0,
    ensures
        n >= 0 ==> quot(n, d) >= 0,
        n <= 0 ==> quot(n, d) <= 0,
{
    let m = magnitude(n);
    assert(m / d >= 0) by (nonlinear_arith)
        requires
            m >= 0,
            d > 0,
    ;
}

/// Multiplying by one changes nothing.
pub proof fn lemma_product_one(a: int)
    ensures
        product(a, SCALE as int) == a,
{
    assert(magnitude(a * SCALE) / (SCALE as int) == magnitude(a)) by (nonlinear_arith)
        requires
            SCALE == 1_000_000_000,
    ;
    assert((a * SCALE >= 0) == (a >= 0)) by (nonlinear_arith)
        requires
            SCALE == 1_000_000_000,
    ;
}

fn magnitude_of(x: i64) -> (m: u128)
    ensures
        m == magnitude(x as int),
        m <= 0x8000_0000_0000_0000,
{
    if x >= 0 {
        x as u128
    } else {
        (-(x as i128)) as u128
    }
}

/// Gives a magnitude its sign back, if the signed value fits.
fn with_sign(negative: bool, m: u128) -> (r: Option<i64>)
    ensures
        r == checked(if negative { -(m as int) } else { m as int }),
{
    if negative {
        if m <= 0x8000_0000_0000_0000 {
            Some((-(m as i128)) as i64)
        } else {
            None
        }
    } else {
        if m <= 0x7fff_ffff_ffff_ffff {
            Some(m as i64)
        } else {
            None
        }
    }
}

/// The fixed-point product `a * b`, or `None` where it does not fit.
pub fn checked_product(a: i64, b: i64) -> (r: Option<i64>)
    ensures
        r == checked(product(a as int, b as int)),
{
    proof {
        lemma_product_of_magnitudes(a as int, b as int);
    }
    let m: u128 = magnitude_of(a) * magnitude_of(b);
    let q: u128 = m / (SCALE as u128);
    let negative: bool = (a < 0) != (b < 0) && a != 0 && b != 0;
    with_sign(negative, q)
}

/// The fixed-point quotient `a / b`, or `None` where `b` is zero or the
/// quotient does not fit.
pub fn checked_ratio(a: i64, b: i64) -> (r: Option<i64>)
    ensures
        r == (if b == 0 { None } else { checked(ratio(a as int, b as int)) }),
{
    if b == 0 {
        return None;
    }
    proof {
        lemma_product_of_magnitudes(a as int, SCALE as int);
    }
    let m: u128 = magnitude_of(a) * (SCALE as u128);
    let q: u128 = m / magnitude_of(b);
    let negative: bool = (a < 0) != (b < 0) && a != 0;
    with_sign(negative, q)
}

/// Half of `a`, rounded toward zero.
pub fn half(a: i64) -> (r: i64)
    ensures
        r == halved(a as int),
{
    let q: u128 = magnitude_of(a) / 2;
    if a < 0 {
        (-(q as i128)) as i64
    } else {
        q as i64
    }
}

/// The sum `a + b`, or `None` where it does not fit.
pub fn checked_sum(a: i64, b: i64) -> (r: Option<i64>)
    ensures
        r == checked(a + b),
{
    let s: i128 = a as i128 + b as i128;
    if -0x8000_0000_0000_0000 <= s && s <= 0x7fff_ffff_ffff_ffff {
        Some(s as i64)
    } else {
        None
    }
}

/// The difference `a - b`, or `None` where it does not fit.
pub fn checked_difference(a: i64, b: i64) -> (r: Option<i64>)
    ensures
        r == checked(a - b),
{
    let s: i128 = a as i128 - b as i128;
    if -0x8000_0000_0000_0000 <= s && s <= 0x7fff_ffff_ffff_ffff {
        Some(s as i64)
    } else {
        None
    }
}

} // verus!
