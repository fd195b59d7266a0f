//! Sine and cosine of fixed-point angles.
//!
//! An angle is first brought into one full turn and from there, by the
//! symmetries of the circle, into the first eighth of a turn. There the sine
//! and cosine of half the angle are summed from their power series in a
//! finer unit, and the double-angle formulas
//! `sin = 2 p q / (p^2 + q^2)` and `cos = (q^2 - p^2) / (p^2 + q^2)`
//! give the pair for the angle itself. Both quotients round toward zero, so
//! the pair never lies outside the unit circle, whatever the series are off
//! by. The values are within about one billionth of the true sine and
//! cosine of the angle, taken as a fraction of [`FULL_TURN`].

use vstd::prelude::*;
use crate::fixed::SCALE;

verus! {

/// Half a turn: pi in billionths of a radian.
pub const HALF_TURN: i64 = 3_141_592_654;

/// A full turn; exactly twice [`HALF_TURN`].
pub const FULL_TURN: i64 = 6_283_185_308;

/// A quarter turn; exactly half of [`HALF_TURN`].
pub const QUARTER_TURN: i64 = 1_570_796_327;

/// One in the finer unit in which the power series are summed.
pub const FINE: i64 = 100_000_000_000_000;

/// How many finer units make up half of one billionth.
pub const HALF_IN_FINE: i64 = 50_000;

/// One factor `1 - z s / c` of a power series in nested form, in the finer
/// unit.
pub open spec fn term(z: int, s: int, c: int) -> int {
    FINE - (z * s) / (c * FINE)
}

/// The sine of the half angle `u`, in the finer unit: the series
/// `u - u^3/3! + u^5/5! - ...` up to the thirteenth power.
pub open spec fn half_sine(u: int) -> int {
    let z = (u * u) / (FINE as int);
    (u * term(z, term(z, term(z, term(z, term(z, term(z, FINE as int, 156), 110), 72), 42), 20), 6))
        / (FINE as int)
}

/// The cosine of the half angle `u`, in the finer unit: the series
/// `1 - u^2/2! + u^4/4! - ...` up to the twelfth power.
pub open spec fn half_cosine(u: int) -> int {
    let z = (u * u) / (FINE as int);
    term(z, term(z, term(z, term(z, term(z, term(z, FINE as int, 132), 90), 56), 30), 12), 2)
}

/// The sine of an angle `x` of the first eighth of a turn,
/// `0 <= 2 x <= QUARTER_TURN`.
#[verifier::opaque]
pub open spec fn octant_sine(x: int) -> int {
    let p = half_sine(x * HALF_IN_FINE);
    let q = half_cosine(x * HALF_IN_FINE);
    (SCALE * (2 * p * q)) / (p * p + q * q)
}

/// The cosine of an angle `x` of the first eighth of a turn.
#[verifier::opaque]
pub open spec fn octant_cosine(x: int) -> int {
    let p = half_sine(x * HALF_IN_FINE);
    let q = half_cosine(x * HALF_IN_FINE);
    (SCALE * (q * q - p * p)) / (p * p + q * q)
}

/// The sine of an angle `x` of the first quarter turn,
/// `0 <= x <= QUARTER_TURN`: past the eighth it is the cosine of what is
/// left to the quarter.
pub open spec fn wave(x: int) -> int {
    if 2 * x <= QUARTER_TURN {
        octant_sine(x)
    } else {
        octant_cosine(QUARTER_TURN - x)
    }
}

/// The sine of an angle `x` of the first half turn, `0 <= x <= HALF_TURN`:
/// the second quarter mirrors the first.
pub open spec fn arch(x: int) -> int {
    if x <= QUARTER_TURN {
        wave(x)
    } else {
        wave(HALF_TURN - x)
    }
}

/// The sine of the angle `a`.
pub open spec fn sine(a: int) -> int {
    let r = a % (FULL_TURN as int);
    if r <= HALF_TURN {
        arch(r)
    } else {
        -arch(r - HALF_TURN)
    }
}

/// The cosine of the angle `a`: the sine a quarter turn further on.
pub open spec fn cosine(a: int) -> int {
    sine(a + QUARTER_TURN)
}

/// A factor of a series lies between `1 - z` and one.
pub proof fn lemma_term_bounds(z: int, s: int, c: int)
    requires
        0 <= z,
        0 <= s <= FINE,
        c >= 1,
    ensures
        FINE - z <= term(z, s, c) <= FINE,
{
    let n = z * s;
    let d = c * FINE;
    assert(0 <= n <= z * d && d > 0) by (nonlinear_arith)
        requires
            n == z * s,
            d == c * FINE,
            0 <= z,
            0 <= s <= FINE,
            c >= 1,
            FINE == 100_000_000_000_000,
    ;
    assert(0 <= n / d <= z) by (nonlinear_arith)
        requires
            0 <= n <= z * d,
            d > 0,
    ;
}

/// On the first eighth of a turn the half-angle sine is at most the half
/// angle, and the half-angle cosine lies well above it.
pub proof fn lemma_half_bounds(u: int)
    requires
        0 <= u <= 39_269_908_150_000,
    ensures
        0 <= half_sine(u) <= u,
        84_000_000_000_000 <= half_cosine(u) <= FINE,
{
    let w = FINE as int;
    let z = (u * u) / w;
    assert(0 <= z <= 15_500_000_000_000) by (nonlinear_arith)
        requires
            0 <= u <= 39_269_908_150_000,
            z == (u * u) / 100_000_000_000_000,
    {
        assert(u * u <= 39_269_908_150_000 * 39_269_908_150_000);
    }
    lemma_term_bounds(z, w, 156);
    let s11 = term(z, w, 156);
    lemma_term_bounds(z, s11, 110);
    let s9 = term(z, s11, 110);
    lemma_term_bounds(z, s9, 72);
    let s7 = term(z, s9, 72);
    lemma_term_bounds(z, s7, 42);
    let s5 = term(z, s7, 42);
    lemma_term_bounds(z, s5, 20);
    let s3 = term(z, s5, 20);
    lemma_term_bounds(z, s3, 6);
    let s1 = term(z, s3, 6);
    assert(0 <= (u * s1) / w <= u) by (nonlinear_arith)
        requires
            0 <= u,
            0 <= s1 <= w,
            w == 100_000_000_000_000,
    {
        assert(0 <= u * s1 <= u * w);
    }
    lemma_term_bounds(z, w, 132);
    let c10 = term(z, w, 132);
    lemma_term_bounds(z, c10, 90);
    let c8 = term(z, c10, 90);
    lemma_term_bounds(z, c8, 56);
    let c6 = term(z, c8, 56);
    lemma_term_bounds(z, c6, 30);
    let c4 = term(z, c6, 30);
    lemma_term_bounds(z, c4, 12);
    let c2 = term(z, c4, 12);
    lemma_term_bounds(z, c2, 2);
}

/// Two quotients by the hypotenuse of a right triangle, each rounded down,
/// are the sides of a triangle that is no larger.
proof fn lemma_inside_circle(a: int, b: int, d: int, k: int)
    requires
        0 <= a,
        0 <= b,
        0 < d,
        0 <= k,
        a * a + b * b == d * d,
    ensures
        0 <= (k * a) / d <= k,
        0 <= (k * b) / d <= k,
        ((k * a) / d) * ((k * a) / d) + ((k * b) / d) * ((k * b) / d) <= k * k,
{
    let x = (k * a) / d;
    let y = (k * b) / d;
    assert(a <= d && b <= d) by (nonlinear_arith)
        requires
            0 <= a,
            0 <= b,
            0 < d,
            a * a + b * b == d * d,
    ;
    assert(0 <= x && x * d <= k * a && x <= k) by (nonlinear_arith)
        requires
            x == (k * a) / d,
            0 <= a <= d,
            0 < d,
            0 <= k,
    ;
    assert(0 <= y && y * d <= k * b && y <= k) by (nonlinear_arith)
        requires
            y == (k * b) / d,
            0 <= b <= d,
            0 < d,
            0 <= k,
    ;
    assert((x * d) * (x * d) <= (k * a) * (k * a)) by (nonlinear_arith)
        requires
            0 <= x * d <= k * a,
    ;
    assert((y * d) * (y * d) <= (k * b) * (k * b)) by (nonlinear_arith)
        requires
            0 <= y * d <= k * b,
    ;
    assert((x * d) * (x * d) + (y * d) * (y * d) == (x * x + y * y) * (d * d))
        by (nonlinear_arith);
    assert((k * a) * (k * a) + (k * b) * (k * b) == (k * k) * (d * d)) by (nonlinear_arith)
        requires
            a * a + b * b == d * d,
    ;
    assert(x * x + y * y <= k * k) by (nonlinear_arith)
        requires
            (x * x + y * y) * (d * d) <= (k * k) * (d * d),
            0 < d,
    ;
}

/// The double-angle pair of `p` and `q` is a right triangle.
proof fn lemma_double_angle(p: int, q: int)
    requires
        0 <= p <= q,
        0 < q,
    ensures
        0 <= 2 * p * q,
        0 <= q * q - p * p,
        0 < p * p + q * q,
        (2 * p * q) * (2 * p * q) + (q * q - p * p) * (q * q - p * p) == (p * p + q * q) * (p * p
            + q * q),
{
    assert(0 <= 2 * p * q && 0 <= q * q - p * p && 0 < p * p + q * q) by (nonlinear_arith)
        requires
            0 <= p <= q,
            0 < q,
    ;
    assert((2 * p * q) * (2 * p * q) + (q * q - p * p) * (q * q - p * p) == (p * p + q * q) * (p
        * p + q * q)) by (nonlinear_arith);
}

/// On the first eighth of a turn sine and cosine lie between zero and one,
/// and the point they make lies within the unit circle.
pub proof fn lemma_octant(x: int)
    requires
        0 <= 2 * x <= QUARTER_TURN,
    ensures
        0 <= octant_sine(x) <= SCALE,
        0 <= octant_cosine(x) <= SCALE,
        octant_sine(x) * octant_sine(x) + octant_cosine(x) * octant_cosine(x) <= SCALE * SCALE,
{
    reveal(octant_sine);
    reveal(octant_cosine);
    let u = x * HALF_IN_FINE;
    lemma_half_bounds(u);
    let p = half_sine(u);
    let q = half_cosine(u);
    lemma_double_angle(p, q);
    lemma_inside_circle(2 * p * q, q * q - p * p, p * p + q * q, SCALE as int);
}

/// At the start of the turn the sine is zero and the cosine is one.
pub proof fn lemma_octant_start()
    ensures
        octant_sine(0) == 0,
        octant_cosine(0) == SCALE,
{
    reveal(octant_sine);
    reveal(octant_cosine);
    let w = FINE as int;
    assert(0int * (HALF_IN_FINE as int) == 0);
    assert((0int * 0int) / w == 0);
    assert(forall|s: int, c: int| c >= 1 ==> #[trigger] term(0, s, c) == w) by {
        assert forall|s: int, c: int| c >= 1 implies #[trigger] term(0, s, c) == w by {
            assert(0 * s == 0);
            assert(0int / (c * w) == 0) by (nonlinear_arith)
                requires
                    c >= 1,
                    w == 100_000_000_000_000,
            ;
        }
    }
    assert(half_cosine(0) == w);
    assert((0 * w) / w == 0);
    assert(half_sine(0) == 0);
    assert(w * w == 10_000_000_000_000_000_000_000_000_000);
    assert(2 * 0 * w == 0);
    assert(0 * 0 + w * w == w * w);
    assert(SCALE * 0 == 0);
    assert(0int / (w * w) == 0);
    assert((SCALE * (w * w - 0 * 0)) / (0 * 0 + w * w) == SCALE) by (nonlinear_arith)
        requires
            w * w == 10_000_000_000_000_000_000_000_000_000,
            SCALE == 1_000_000_000,
    ;
}

/// On the first quarter turn the sine lies between zero and one, and
/// together with the sine of what is left to the quarter it makes a point
/// within the unit circle.
pub proof fn lemma_wave(x: int)
    requires
        0 <= x <= QUARTER_TURN,
    ensures
        0 <= wave(x) <= SCALE,
        wave(x) * wave(x) + wave(QUARTER_TURN - x) * wave(QUARTER_TURN - x) <= SCALE * SCALE,
{
    if 2 * x <= QUARTER_TURN {
        lemma_octant(x);
    } else {
        lemma_octant(QUARTER_TURN - x);
    }
}

/// On the first half turn the sine lies between zero and one.
pub proof fn lemma_arch_bounds(x: int)
    requires
        0 <= x <= HALF_TURN,
    ensures
        0 <= arch(x) <= SCALE,
{
    if x <= QUARTER_TURN {
        lemma_wave(x);
    } else {
        lemma_wave(HALF_TURN - x);
    }
}

/// The first half turn is symmetric about the quarter turn.
pub proof fn lemma_arch_mirror(x: int)
    ensures
        arch(HALF_TURN - x) == arch(x),
{
}

/// The sine of zero is zero.
pub proof fn lemma_sine_zero()
    ensures
        sine(0) == 0,
        arch(0) == 0,
        arch(HALF_TURN as int) == 0,
{
    lemma_octant_start();
}

/// The sine of a quarter turn is one, and so is the cosine of zero.
pub proof fn lemma_sine_quarter()
    ensures
        sine(QUARTER_TURN as int) == SCALE,
        cosine(0) == SCALE,
{
    lemma_octant_start();
}

/// The sine never leaves the range from minus one to one.
pub proof fn lemma_sine_bounds(a: int)
    ensures
        -SCALE <= sine(a) <= SCALE,
{
    let r = a % (FULL_TURN as int);
    if r <= HALF_TURN {
        lemma_arch_bounds(r);
    } else {
        lemma_arch_bounds(r - HALF_TURN);
    }
}

/// The sine is odd: mirroring the angle mirrors the sine.
pub proof fn lemma_sine_odd(a: int)
    ensures
        sine(-a) == -sine(a),
{
    let t = FULL_TURN as int;
    let h = HALF_TURN as int;
    let r = a % t;
    let m = (-a) % t;
    lemma_sine_zero();
    if r == 0 {
        assert(m == 0);
    } else {
        assert(m == t - r);
        if r < h {
            lemma_arch_mirror(r);
        } else if r == h {
        } else {
            lemma_arch_mirror(r - h);
        }
    }
}

/// The sine repeats after a full turn.
pub proof fn lemma_sine_periodic(a: int)
    ensures
        sine(a + FULL_TURN) == sine(a),
{
    assert((a + FULL_TURN) % (FULL_TURN as int) == a % (FULL_TURN as int));
}

/// Half a turn further on the sine has the opposite sign.
pub proof fn lemma_sine_half_turn(a: int)
    ensures
        sine(a + HALF_TURN) == -sine(a),
{
    let t = FULL_TURN as int;
    let h = HALF_TURN as int;
    let r = a % t;
    let m = (a + h) % t;
    lemma_sine_zero();
    if r < h {
        assert(m == r + h);
    } else {
        assert(m == r - h);
    }
}

/// Sine and cosine of one angle make a point within the unit circle.
pub proof fn lemma_pythagoras(a: int)
    ensures
        sine(a) * sine(a) + cosine(a) * cosine(a) <= SCALE * SCALE,
{
    let t = FULL_TURN as int;
    let h = HALF_TURN as int;
    let q = QUARTER_TURN as int;
    let r = a % t;
    let m = (a + q) % t;
    lemma_sine_zero();
    lemma_octant_start();
    // The angle `x` of the first quarter turn of which the sine is, up to
    // its sign, `wave(x)` and the cosine `wave(q - x)`.
    let x = if r <= q {
        r
    } else if r <= h {
        h - r
    } else if r <= h + q {
        r - h
    } else {
        t - r
    };
    assert(m == if r < h + q {
        r + q
    } else {
        r + q - t
    });
    lemma_wave(x);
    let s = sine(a);
    let c = cosine(a);
    assert(s == wave(x) || s == -wave(x));
    assert(c == wave(q - x) || c == -wave(q - x));
    assert(s * s == wave(x) * wave(x)) by (nonlinear_arith)
        requires
            s == wave(x) || s == -wave(x),
    ;
    assert(c * c == wave(q - x) * wave(q - x)) by (nonlinear_arith)
        requires
            c == wave(q - x) || c == -wave(q - x),
    ;
}

/// The angle `a` brought into one full turn.
fn turn_remainder(a: i64) -> (r: i64)
    ensures
        r == (a as int) % (FULL_TURN as int),
        0 <= r < FULL_TURN,
{
    if a >= 0 {
        a % FULL_TURN
    } else {
        let k: i64 = (-(a + 1)) % FULL_TURN;
        FULL_TURN - 1 - k
    }
}

/// One factor of a series.
fn term_of(z: u128, s: u128, c: u128) -> (r: u128)
    requires
        z <= 15_500_000_000_000,
        s <= FINE,
        1 <= c <= 156,
    ensures
        r == term(z as int, s as int, c as int),
        FINE - z <= r <= FINE,
{
    proof {
        lemma_term_bounds(z as int, s as int, c as int);
        assert(z * s <= 15_500_000_000_000 * 100_000_000_000_000) by (nonlinear_arith)
            requires
                z <= 15_500_000_000_000,
                s <= 100_000_000_000_000,
        ;
    }
    (FINE as u128) - (z * s) / (c * (FINE as u128))
}

/// Sine and cosine on the first eighth of a turn.
fn octant_of(x: i64) -> (r: (i64, i64))
    requires
        0 <= 2 * x <= QUARTER_TURN,
    ensures
        r.0 == octant_sine(x as int),
        r.1 == octant_cosine(x as int),
        0 <= r.0 <= SCALE,
        0 <= r.1 <= SCALE,
{
    let w: u128 = FINE as u128;
    let k: u128 = HALF_IN_FINE as u128;
    assert(k == 50_000);
    let u: u128 = (x as u128) * k;
    proof {
        reveal(octant_sine);
        reveal(octant_cosine);
        assert(u == x * 50_000);
        lemma_half_bounds(u as int);
        lemma_octant(x as int);
        assert(u * u <= 39_269_908_150_000 * 39_269_908_150_000) by (nonlinear_arith)
            requires
                0 <= u <= 39_269_908_150_000,
        ;
    }
    let z: u128 = (u * u) / w;
    let s1: u128 = term_of(
        z,
        term_of(z, term_of(z, term_of(z, term_of(z, term_of(z, w, 156), 110), 72), 42), 20),
        6,
    );
    proof {
        assert(u * s1 <= 39_269_908_150_000 * 100_000_000_000_000) by (nonlinear_arith)
            requires
                0 <= u <= 39_269_908_150_000,
                0 <= s1 <= 100_000_000_000_000,
        ;
    }
    let p: u128 = (u * s1) / w;
    let q: u128 = term_of(
        z,
        term_of(z, term_of(z, term_of(z, term_of(z, term_of(z, w, 132), 90), 56), 30), 12),
        2,
    );
    proof {
        lemma_double_angle(p as int, q as int);
        assert(p * q <= 39_269_908_150_000 * 100_000_000_000_000 && p * p <= 39_269_908_150_000
            * 39_269_908_150_000 && q * q <= 100_000_000_000_000 * 100_000_000_000_000
            && p * p <= q * q) by (nonlinear_arith)
            requires
                0 <= p <= 39_269_908_150_000,
                84_000_000_000_000 <= q <= 100_000_000_000_000,
        ;
        assert(2 * p * q == 2 * (p * q)) by (nonlinear_arith);
    }
    let pq: u128 = p * q;
    let pp: u128 = p * p;
    let qq: u128 = q * q;
    let d: u128 = pp + qq;
    let s: u128 = ((SCALE as u128) * (2 * pq)) / d;
    let c: u128 = ((SCALE as u128) * (qq - pp)) / d;
    (s as i64, c as i64)
}

/// The sine on the first quarter turn.
fn wave_of(x: i64) -> (r: i64)
    requires
        0 <= x <= QUARTER_TURN,
    ensures
        r == wave(x as int),
        0 <= r <= SCALE,
{
    if 2 * x <= QUARTER_TURN {
        octant_of(x).0
    } else {
        octant_of(QUARTER_TURN - x).1
    }
}

/// The sine on the first half turn.
fn arch_of(x: i64) -> (r: i64)
    requires
        0 <= x <= HALF_TURN,
    ensures
        r == arch(x as int),
        0 <= r <= SCALE,
{
    if x <= QUARTER_TURN {
        wave_of(x)
    } else {
        wave_of(HALF_TURN - x)
    }
}

/// The sine of the angle `a`.
pub fn sin(a: i64) -> (r: i64)
    ensures
        r == sine(a as int),
        -SCALE <= r <= SCALE,
{
    let t: i64 = turn_remainder(a);
    if t <= HALF_TURN {
        arch_of(t)
    } else {
        -arch_of(t - HALF_TURN)
    }
}

/// The cosine of the angle `a`.
pub fn cos(a: i64) -> (r: i64)
    ensures
        r == cosine(a as int),
        -SCALE <= r <= SCALE,
{
    let t: i64 = turn_remainder(a);
    assert((a + QUARTER_TURN) % (FULL_TURN as int) == (t + QUARTER_TURN) % (FULL_TURN as int));
    sin(t + QUARTER_TURN)
}

} // verus!
