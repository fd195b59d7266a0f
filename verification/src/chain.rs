//! The chain: an ordered row of pendulums, advanced one tick at a time.
//!
//! A tick visits the links once, from the pivot outward. Each link is damped
//! and integrated, and the influence it returns goes to its two neighbours
//! at once: half of it to the link before, all of it to the link after. The
//! link after therefore feels the influence before its own integration in
//! the same tick, while the link before feels it only in the next one. The
//! influences are not first gathered and then applied together.

use vstd::prelude::*;
use crate::error::SimError;
use crate::fixed::{
    checked_difference, checked_product, fits, half, halved, lemma_product_bounded, magnitude,
    product, quot, SCALE,
};
use crate::pendulum::{
    damped, influence_of, influenced, integrated, integrates, lemma_moderate_gain,
    lemma_no_damping, LinkState, Pendulum, GRAVITY,
};
use crate::trig::{cos, cosine, lemma_pythagoras, lemma_sine_bounds, sin, sine, QUARTER_TURN};

verus! {

/// What a chain is built from.
#[derive(Clone, Copy, Debug)]
pub struct ChainConfig {
    /// How many links the chain has.
    pub link_count: usize,
    /// The angle of the link at the pivot.
    pub base_angle: i64,
    /// By how much the starting angle falls from one link to the next.
    pub angle_step: i64,
    /// The arm length of every link.
    pub arm_length: i64,
    /// The gravity that pulls on every link.
    pub gravity: i64,
    /// The factor that scales every speed once per tick: one keeps the
    /// motion, less lets it die down, more feeds it.
    pub damping: i64,
}

/// The starting angle of link `i` of a chain built from `config`.
pub open spec fn initial_angle(config: ChainConfig, i: int) -> int {
    config.base_angle - i * config.angle_step
}

/// The state of a chain as mathematical values.
pub struct ChainState {
    /// The links, from the pivot outward.
    pub links: Seq<LinkState>,
    /// The gravity that pulls on every link.
    pub gravity: int,
    /// The factor that scales every speed once per tick.
    pub damping: int,
}

impl ChainState {
    /// Whether every value of the visit to link `i` over the time `dt` can
    /// be held.
    pub open spec fn steps(self, i: int, dt: int) -> bool {
        let own = damped(self.links[i], self.damping);
        let v = influence_of(own, self.gravity, dt);
        &&& fits(own.speed)
        &&& integrates(own, self.gravity, dt)
        &&& (i > 0 ==> fits(influenced(self.links[i - 1], halved(v)).speed))
        &&& (i + 1 < self.links.len() ==> fits(influenced(self.links[i + 1], v).speed))
    }

    /// The chain after the visit to link `i`: the link is damped and
    /// integrated, then the link before takes up half of its influence and
    /// the link after all of it.
    pub open spec fn stepped(self, i: int, dt: int) -> ChainState {
        let own = damped(self.links[i], self.damping);
        let v = influence_of(own, self.gravity, dt);
        let at = self.links.update(i, integrated(own, self.gravity, dt));
        let before = if i > 0 {
            at.update(i - 1, influenced(at[i - 1], halved(v)))
        } else {
            at
        };
        let after = if i + 1 < self.links.len() {
            before.update(i + 1, influenced(before[i + 1], v))
        } else {
            before
        };
        ChainState { links: after, ..self }
    }

    /// The chain after the first `k` links have been visited in order.
    pub open spec fn swept(self, k: nat, dt: int) -> ChainState
        decreases k,
    {
        if k == 0 {
            self
        } else {
            self.swept((k - 1) as nat, dt).stepped(k - 1, dt)
        }
    }

    /// Whether every value of the visits to the first `k` links can be held.
    pub open spec fn sweeps(self, k: nat, dt: int) -> bool
        decreases k,
    {
        if k == 0 {
            true
        } else {
            self.sweeps((k - 1) as nat, dt) && self.swept((k - 1) as nat, dt).steps(k - 1, dt)
        }
    }

    /// Whether a whole tick over the time `dt` can be held.
    pub open spec fn ticks(self, dt: int) -> bool {
        self.sweeps(self.links.len(), dt)
    }

    /// The chain after a whole tick over the time `dt`.
    pub open spec fn ticked(self, dt: int) -> ChainState {
        self.swept(self.links.len(), dt)
    }

    /// The chain after one call of `tick`: a tick that cannot be held
    /// leaves the chain as it was.
    pub open spec fn advanced(self, dt: int) -> ChainState {
        if self.ticks(dt) {
            self.ticked(dt)
        } else {
            self
        }
    }

    /// The chain after one call of `tick` for each time of `dts`, in order.
    pub open spec fn run(self, dts: Seq<int>) -> ChainState
        decreases dts.len(),
    {
        if dts.len() == 0 {
            self
        } else {
            self.run(dts.drop_last()).advanced(dts.last())
        }
    }
}

/// The link `s` on an arm of the length `length`.
pub open spec fn rearmed(s: LinkState, length: int) -> LinkState {
    LinkState { length, ..s }
}

/// The arm length that lets a chain of `n` links, fully stretched from the
/// middle of a window, still fit into it with one arm's length to spare:
/// the smaller side of the window over `2 * (n + 1)`, rounded toward zero.
pub open spec fn fitted_length(width: int, height: int, n: int) -> int {
    quot(if width <= height { width } else { height }, 2 * (n + 1))
}

/// Where the first `k` links end, relative to the pivot. Each link adds its
/// own arm, turned by its own angle from the downward vertical: `x` falls by
/// `sin(angle) * length` and `y`, which points down, grows by
/// `cos(angle) * length`.
pub open spec fn tip(links: Seq<LinkState>, k: nat) -> (int, int)
    decreases k,
{
    if k == 0 {
        (0, 0)
    } else {
        let (x, y) = tip(links, (k - 1) as nat);
        let link = links[k - 1];
        (
            x - product(sine(link.angle), link.length),
            y + product(cosine(link.angle), link.length),
        )
    }
}

/// How far the end of the first `k` links can be from the pivot: the sum of
/// their arm lengths.
pub open spec fn reach(links: Seq<LinkState>, k: nat) -> int
    decreases k,
{
    if k == 0 {
        0
    } else {
        reach(links, (k - 1) as nat) + links[k - 1].length
    }
}

/// Whether the point `(x, y)` lies within the distance `r` of the pivot.
#[verifier::opaque]
pub open spec fn within(x: int, y: int, r: int) -> bool {
    0 <= r && x * x + y * y <= r * r
}

/// The step that one link adds to the path from the pivot is no longer than
/// its arm.
pub proof fn lemma_arm_within_length(link: LinkState)
    requires
        link.length > 0,
    ensures
        ({
            let across = product(sine(link.angle), link.length);
            let down = product(cosine(link.angle), link.length);
            &&& -link.length <= across <= link.length
            &&& -link.length <= down <= link.length
            &&& within(-across, down, link.length)
        }),
{
    reveal(within);
    let s = sine(link.angle);
    let c = cosine(link.angle);
    let l = link.length;
    let k = SCALE as int;
    let x = product(s, l);
    let y = product(c, l);
    lemma_sine_bounds(link.angle);
    lemma_sine_bounds(link.angle + QUARTER_TURN);
    lemma_pythagoras(link.angle);
    lemma_product_bounded(s, l);
    lemma_product_bounded(c, l);
    let mx = magnitude(x);
    let my = magnitude(y);
    let ms = magnitude(s);
    let mc = magnitude(c);
    assert(magnitude(s * l) == ms * l && magnitude(c * l) == mc * l) by (nonlinear_arith)
        requires
            l > 0,
            ms == magnitude(s),
            mc == magnitude(c),
    ;
    assert(mx == (ms * l) / k && my == (mc * l) / k);
    assert(mx * k <= ms * l && my * k <= mc * l) by (nonlinear_arith)
        requires
            mx == (ms * l) / k,
            my == (mc * l) / k,
            k == 1_000_000_000,
    ;
    assert((mx * k) * (mx * k) <= (ms * l) * (ms * l)) by (nonlinear_arith)
        requires
            0 <= mx * k <= ms * l,
    ;
    assert((my * k) * (my * k) <= (mc * l) * (mc * l)) by (nonlinear_arith)
        requires
            0 <= my * k <= mc * l,
    ;
    assert(ms * ms == s * s && mc * mc == c * c && mx * mx == x * x && my * my == y * y)
        by (nonlinear_arith)
        requires
            ms == magnitude(s),
            mc == magnitude(c),
            mx == magnitude(x),
            my == magnitude(y),
    ;
    assert((mx * k) * (mx * k) + (my * k) * (my * k) == (x * x + y * y) * (k * k))
        by (nonlinear_arith)
        requires
            mx * mx == x * x,
            my * my == y * y,
    ;
    assert((ms * l) * (ms * l) + (mc * l) * (mc * l) <= (l * l) * (k * k)) by (nonlinear_arith)
        requires
            ms * ms == s * s,
            mc * mc == c * c,
            s * s + c * c <= k * k,
    ;
    assert(x * x + y * y <= l * l) by (nonlinear_arith)
        requires
            (x * x + y * y) * (k * k) <= (l * l) * (k * k),
            k == 1_000_000_000,
    ;
    assert((-x) * (-x) == x * x) by (nonlinear_arith);
}

/// What it means to lie within a distance of the pivot.
pub proof fn lemma_within(x: int, y: int, r: int)
    ensures
        within(x, y, r) <==> 0 <= r && x * x + y * y <= r * r,
{
    reveal(within);
}

/// A point within a distance of the pivot lies within that distance along
/// each axis.
pub proof fn lemma_within_box(x: int, y: int, r: int)
    requires
        within(x, y, r),
    ensures
        -r <= x <= r,
        -r <= y <= r,
{
    reveal(within);
    assert(-r <= x <= r && -r <= y <= r) by (nonlinear_arith)
        requires
            0 <= r,
            x * x + y * y <= r * r,
    ;
}

/// The reach of `k` arms of one length is `k` times that length.
pub proof fn lemma_reach_of_equal_arms(links: Seq<LinkState>, k: nat, length: int)
    requires
        k <= links.len(),
        forall|j: int| 0 <= j < k ==> (#[trigger] links[j]).length == length,
    ensures
        reach(links, k) == k * length,
    decreases k,
{
    if k > 0 {
        lemma_reach_of_equal_arms(links, (k - 1) as nat, length);
        assert((k - 1) * length + length == k * length) by (nonlinear_arith);
    } else {
        assert(0 * length == 0);
    }
}

/// The triangle inequality: a step of at most `l` from a point within `r`
/// of the pivot ends within `r + l` of it.
pub proof fn lemma_triangle(x: int, y: int, a: int, b: int, r: int, l: int)
    requires
        within(x, y, r),
        within(a, b, l),
    ensures
        within(x + a, y + b, r + l),
{
    reveal(within);
    let xx = x * x;
    let yy = y * y;
    let aa = a * a;
    let bb = b * b;
    let xa = x * a;
    let yb = y * b;
    let xb = x * b;
    let ya = y * a;
    let rl = r * l;
    assert(xx >= 0 && yy >= 0 && aa >= 0 && bb >= 0 && rl >= 0) by (nonlinear_arith)
        requires
            xx == x * x,
            yy == y * y,
            aa == a * a,
            bb == b * b,
            rl == r * l,
            0 <= r,
            0 <= l,
    ;
    assert(xa * xa == xx * aa) by (nonlinear_arith)
        requires
            xa == x * a,
            xx == x * x,
            aa == a * a,
    ;
    assert(yb * yb == yy * bb) by (nonlinear_arith)
        requires
            yb == y * b,
            yy == y * y,
            bb == b * b,
    ;
    assert(xb * xb == xx * bb) by (nonlinear_arith)
        requires
            xb == x * b,
            xx == x * x,
            bb == b * b,
    ;
    assert(ya * ya == yy * aa) by (nonlinear_arith)
        requires
            ya == y * a,
            yy == y * y,
            aa == a * a,
    ;
    assert(xa * yb == xb * ya) by (nonlinear_arith)
        requires
            xa == x * a,
            yb == y * b,
            xb == x * b,
            ya == y * a,
    ;
    let dot = xa + yb;
    let cross = xb - ya;
    assert(dot * dot == xa * xa + 2 * (xa * yb) + yb * yb) by (nonlinear_arith)
        requires
            dot == xa + yb,
    ;
    assert(cross * cross == xb * xb - 2 * (xb * ya) + ya * ya) by (nonlinear_arith)
        requires
            cross == xb - ya,
    ;
    assert(cross * cross >= 0) by (nonlinear_arith);
    assert((xx + yy) * (aa + bb) == xx * aa + xx * bb + yy * aa + yy * bb) by (nonlinear_arith);
    assert((xx + yy) * (aa + bb) <= (r * r) * (l * l)) by (nonlinear_arith)
        requires
            0 <= xx + yy <= r * r,
            0 <= aa + bb <= l * l,
    ;
    assert((r * r) * (l * l) == rl * rl) by (nonlinear_arith)
        requires
            rl == r * l,
    ;
    assert(dot * dot <= rl * rl);
    assert(dot <= rl) by (nonlinear_arith)
        requires
            dot * dot <= rl * rl,
            0 <= rl,
    ;
    assert((x + a) * (x + a) == xx + 2 * xa + aa) by (nonlinear_arith)
        requires
            xx == x * x,
            xa == x * a,
            aa == a * a,
    ;
    assert((y + b) * (y + b) == yy + 2 * yb + bb) by (nonlinear_arith)
        requires
            yy == y * y,
            yb == y * b,
            bb == b * b,
    ;
    assert((r + l) * (r + l) == r * r + 2 * rl + l * l) by (nonlinear_arith)
        requires
            rl == r * l,
    ;
}

/// The end of the first `k` links lies within their reach of the pivot.
pub proof fn lemma_tip_within_reach(links: Seq<LinkState>, k: nat)
    requires
        k <= links.len(),
        forall|j: int| 0 <= j < k ==> (#[trigger] links[j]).length > 0,
    ensures
        within(tip(links, k).0, tip(links, k).1, reach(links, k)),
    decreases k,
{
    if k == 0 {
        reveal(within);
    } else {
        lemma_tip_within_reach(links, (k - 1) as nat);
        let link = links[k - 1];
        let (x, y) = tip(links, (k - 1) as nat);
        lemma_arm_within_length(link);
        let across = product(sine(link.angle), link.length);
        let down = product(cosine(link.angle), link.length);
        lemma_triangle(x, y, -across, down, reach(links, (k - 1) as nat), link.length);
    }
}

/// A chain with the fitted arm length, stretched out straight from the
/// middle of the window, ends inside the window.
pub proof fn lemma_fitted_chain_fits(width: int, height: int, n: int)
    requires
        n >= 0,
        fitted_length(width, height, n) > 0,
    ensures
        2 * (n * fitted_length(width, height, n)) < width,
        2 * (n * fitted_length(width, height, n)) < height,
{
    let side = if width <= height {
        width
    } else {
        height
    };
    let parts = 2 * (n + 1);
    let length = fitted_length(width, height, n);
    assert(side > 0 && length == side / parts && length * parts <= side) by (nonlinear_arith)
        requires
            length == quot(side, parts),
            length > 0,
            parts >= 2,
    ;
    assert(length * parts == 2 * (n * length) + 2 * length) by (nonlinear_arith)
        requires
            parts == 2 * (n + 1),
    ;
}

/// The states of a row of pendulums.
pub open spec fn states(links: Seq<Pendulum>) -> Seq<LinkState> {
    Seq::new(links.len(), |i: int| links[i]@)
}

/// A visit changes neither the number of links nor gravity and damping.
pub proof fn lemma_stepped_shape(c: ChainState, i: int, dt: int)
    requires
        0 <= i < c.links.len(),
    ensures
        c.stepped(i, dt).links.len() == c.links.len(),
        c.stepped(i, dt).gravity == c.gravity,
        c.stepped(i, dt).damping == c.damping,
        forall|j: int|
            0 <= j < c.links.len() ==> (#[trigger] c.stepped(i, dt).links[j]).length
                == c.links[j].length,
{
}

/// A sweep changes neither the number of links, nor their arm lengths, nor
/// gravity and damping.
pub proof fn lemma_swept_shape(c: ChainState, k: nat, dt: int)
    requires
        k <= c.links.len(),
    ensures
        c.swept(k, dt).links.len() == c.links.len(),
        c.swept(k, dt).gravity == c.gravity,
        c.swept(k, dt).damping == c.damping,
        forall|j: int|
            0 <= j < c.links.len() ==> (#[trigger] c.swept(k, dt).links[j]).length
                == c.links[j].length,
    decreases k,
{
    if k > 0 {
        lemma_swept_shape(c, (k - 1) as nat, dt);
        lemma_stepped_shape(c.swept((k - 1) as nat, dt), k - 1, dt);
    }
}

/// A chain of pendulums with the gravity and damping it was built with. It
/// always has at least one link.
pub struct Chain {
    links: Vec<Pendulum>,
    gravity: i64,
    damping: i64,
}

/// A link with the neighbours it has, before or after a visit to it.
struct Window {
    before: Option<Pendulum>,
    own: Pendulum,
    after: Option<Pendulum>,
}

/// Visits the link in the middle of the window: damps and integrates it,
/// then hands half of its influence to the link before and all of it to the
/// link after. Returns the window after the visit, or `None` where a value
/// of the visit cannot be held.
fn visit(window: Window, gravity: i64, damping: i64, dt: i64) -> (r: Option<Window>)
    ensures
        ({
            let own = damped(window.own@, damping as int);
            let v = influence_of(own, gravity as int, dt as int);
            let held = {
                &&& fits(own.speed)
                &&& integrates(own, gravity as int, dt as int)
                &&& (window.before matches Some(p) ==> fits(influenced(p@, halved(v)).speed))
                &&& (window.after matches Some(p) ==> fits(influenced(p@, v).speed))
            };
            match r {
                Some(w) => {
                    &&& held
                    &&& w.own@ == integrated(own, gravity as int, dt as int)
                    &&& match (window.before, w.before) {
                        (Some(p), Some(q)) => q@ == influenced(p@, halved(v)),
                        (None, None) => true,
                        _ => false,
                    }
                    &&& match (window.after, w.after) {
                        (Some(p), Some(q)) => q@ == influenced(p@, v),
                        (None, None) => true,
                        _ => false,
                    }
                },
                None => !held,
            }
        }),
{
    let mut own: Pendulum = window.own;
    if own.damp(damping).is_err() {
        return None;
    }
    let v: i64 = match own.integrate(gravity, dt) {
        Ok(v) => v,
        Err(_) => {
            return None;
        },
    };
    let before: Option<Pendulum> = match window.before {
        Some(p) => {
            let mut p: Pendulum = p;
            if p.angle_influence(half(v)).is_err() {
                return None;
            }
            Some(p)
        },
        None => None,
    };
    let after: Option<Pendulum> = match window.after {
        Some(p) => {
            let mut p: Pendulum = p;
            if p.angle_influence(v).is_err() {
                return None;
            }
            Some(p)
        },
        None => None,
    };
    Some(Window { before, own, after })
}

/// The step that a link adds to the path from the pivot: how far it
/// reaches across, against the direction of `x`, and how far down.
fn arm(link: Pendulum) -> (r: (i64, i64))
    ensures
        0 < link@.length <= i64::MAX,
        r.0 == product(sine(link@.angle), link@.length),
        r.1 == product(cosine(link@.angle), link@.length),
        -link@.length <= r.0 <= link@.length,
        -link@.length <= r.1 <= link@.length,
        within(-r.0, r.1 as int, link@.length),
{
    let angle: i64 = link.angle();
    let length: i64 = link.arm_length();
    proof {
        lemma_arm_within_length(link@);
    }
    // Neither part is longer than the arm, so both can be held.
    let across: i64 = checked_product(sin(angle), length).unwrap();
    let down: i64 = checked_product(cos(angle), length).unwrap();
    (across, down)
}

impl Chain {
    #[verifier::type_invariant]
    spec fn has_links(self) -> bool {
        self.links.len() > 0
    }

    /// The state of the chain.
    pub closed spec fn view(&self) -> ChainState {
        ChainState {
            links: states(self.links@),
            gravity: self.gravity as int,
            damping: self.damping as int,
        }
    }

    /// A chain built from `config`: link `i` starts at rest at the angle
    /// `base_angle - i * angle_step`. A chain without links is refused, then
    /// an arm length of zero or less, then a starting angle that cannot be
    /// held.
    pub fn new(config: &ChainConfig) -> (r: Result<Chain, SimError>)
        ensures
            match r {
                Ok(c) => {
                    &&& config.link_count > 0
                    &&& config.arm_length > 0
                    &&& forall|i: int|
                        0 <= i < config.link_count ==> fits(#[trigger] initial_angle(*config, i))
                    &&& c@.gravity == config.gravity
                    &&& c@.damping == config.damping
                    &&& c@.links.len() == config.link_count
                    &&& forall|i: int|
                        0 <= i < config.link_count ==> #[trigger] c@.links[i] == (LinkState {
                            angle: initial_angle(*config, i),
                            speed: 0,
                            length: config.arm_length as int,
                        })
                },
                Err(e) => if config.link_count == 0 {
                    e == SimError::InvalidChain
                } else if config.arm_length <= 0 {
                    e == SimError::InvalidLength
                } else {
                    e == SimError::NonFinite && exists|i: int|
                        0 <= i < config.link_count && !fits(#[trigger] initial_angle(*config, i))
                },
            },
    {
        if config.link_count == 0 {
            return Err(SimError::InvalidChain);
        }
        if config.arm_length <= 0 {
            return Err(SimError::InvalidLength);
        }
        let n = config.link_count;
        let mut links: Vec<Pendulum> = Vec::new();
        let mut angle: i64 = config.base_angle;
        let mut i: usize = 0;
        assert(0 * config.angle_step == 0);
        loop
            invariant_except_break
                i < n,
                angle == initial_angle(*config, i as int),
            invariant
                n == config.link_count,
                config.arm_length > 0,
                i <= n,
                links.len() == i,
                forall|j: int| 0 <= j < i ==> fits(#[trigger] initial_angle(*config, j)),
                forall|j: int|
                    0 <= j < i ==> (#[trigger] links@[j])@ == (LinkState {
                        angle: initial_angle(*config, j),
                        speed: 0,
                        length: config.arm_length as int,
                    }),
            ensures
                i == n,
            decreases n - i,
        {
            links.push(Pendulum::new(angle, 0, config.arm_length).unwrap());
            i += 1;
            if i == n {
                break ;
            }
            assert(initial_angle(*config, i as int) == angle - config.angle_step)
                by (nonlinear_arith)
                requires
                    angle == config.base_angle - (i - 1) * config.angle_step,
            ;
            match checked_difference(angle, config.angle_step) {
                Some(next) => {
                    angle = next;
                },
                None => {
                    return Err(SimError::NonFinite);
                },
            }
        }
        Ok(Chain { links, gravity: config.gravity, damping: config.damping })
    }

    /// A chain of the given links, from the pivot outward. A chain without
    /// links is refused.
    pub fn from_links(links: Vec<Pendulum>, gravity: i64, damping: i64) -> (r: Result<
        Chain,
        SimError,
    >)
        ensures
            match r {
                Ok(c) => links.len() > 0 && c@ == (ChainState {
                    links: states(links@),
                    gravity: gravity as int,
                    damping: damping as int,
                }),
                Err(e) => links.len() == 0 && e == SimError::InvalidChain,
            },
    {
        if links.len() == 0 {
            Err(SimError::InvalidChain)
        } else {
            Ok(Chain { links, gravity, damping })
        }
    }

    /// The number of links, which is at least one.
    pub fn len(&self) -> (n: usize)
        ensures
            n == self@.links.len(),
            n > 0,
    {
        proof {
            use_type_invariant(self);
        }
        self.links.len()
    }

    /// Link `i`, counted from the pivot, or `None` past the end of the chain.
    pub fn link(&self, i: usize) -> (r: Option<Pendulum>)
        ensures
            match r {
                Some(p) => i < self@.links.len() && p@ == self@.links[i as int],
                None => i >= self@.links.len(),
            },
    {
        if i < self.links.len() {
            Some(self.links[i])
        } else {
            None
        }
    }

    /// The gravity that pulls on every link.
    pub fn gravity(&self) -> (g: i64)
        ensures
            g == self@.gravity,
    {
        self.gravity
    }

    /// The factor that scales every speed once per tick.
    pub fn damping(&self) -> (d: i64)
        ensures
            d == self@.damping,
    {
        self.damping
    }

    /// Gives every arm the length `length`. A length of zero or less is
    /// refused and leaves the chain as it was.
    pub fn set_arm_length(&mut self, length: i64) -> (r: Result<(), SimError>)
        ensures
            match r {
                Ok(_) => {
                    &&& length > 0
                    &&& final(self)@.gravity == old(self)@.gravity
                    &&& final(self)@.damping == old(self)@.damping
                    &&& final(self)@.links.len() == old(self)@.links.len()
                    &&& forall|i: int|
                        0 <= i < old(self)@.links.len() ==> #[trigger] final(self)@.links[i]
                            == rearmed(old(self)@.links[i], length as int)
                },
                Err(e) => length <= 0 && e == SimError::InvalidLength && final(self)@ == old(
                    self,
                )@,
            },
    {
        if length <= 0 {
            return Err(SimError::InvalidLength);
        }
        proof {
            use_type_invariant(&*self);
        }
        let ghost start = self.links@;
        let n = self.links.len();
        let mut i: usize = 0;
        while i < n
            invariant
                n == self.links.len(),
                n == start.len(),
                i <= n,
                length > 0,
                self.gravity == old(self).gravity,
                self.damping == old(self).damping,
                forall|j: int| 0 <= j < i ==> (#[trigger] self.links@[j])@ == rearmed(start[j]@, length as int),
                forall|j: int| i <= j < n ==> #[trigger] self.links@[j] == start[j],
            decreases n - i,
        {
            let mut p: Pendulum = self.links[i];
            let _ = p.set_arm_length(length);
            self.links[i] = p;
            i += 1;
        }
        Ok(())
    }

    /// Gives every arm the length that fits the chain into a window of the
    /// given width and height. Where that length would be zero or less the
    /// chain stays as it was.
    pub fn fit(&mut self, width: i64, height: i64) -> (r: Result<(), SimError>)
        ensures
            ({
                let length = fitted_length(
                    width as int,
                    height as int,
                    old(self)@.links.len() as int,
                );
                match r {
                    Ok(_) => {
                        &&& length > 0
                        &&& final(self)@.gravity == old(self)@.gravity
                        &&& final(self)@.damping == old(self)@.damping
                        &&& final(self)@.links.len() == old(self)@.links.len()
                        &&& forall|i: int|
                            0 <= i < old(self)@.links.len() ==> #[trigger] final(self)@.links[i]
                                == rearmed(old(self)@.links[i], length)
                    },
                    Err(e) => length <= 0 && e == SimError::InvalidLength && final(self)@ == old(
                        self,
                    )@,
                }
            }),
    {
        let side: i64 = if width <= height {
            width
        } else {
            height
        };
        let parts: u128 = 2 * (self.links.len() as u128 + 1);
        if side <= 0 {
            assert(magnitude(side as int) / (parts as int) >= 0) by (nonlinear_arith)
                requires
                    magnitude(side as int) >= 0,
                    parts > 0,
            ;
            return Err(SimError::InvalidLength);
        }
        let length: u128 = (side as u128) / parts;
        assert(length <= side) by (nonlinear_arith)
            requires
                length == (side as int) / (parts as int),
                side > 0,
                parts >= 1,
        ;
        self.set_arm_length(length as i64)
    }

    /// Where each link ends, relative to the pivot, from the pivot outward.
    /// No end lies further from the pivot than the arms up to it are long.
    pub fn positions(&self) -> (r: Vec<(i128, i128)>)
        ensures
            r.len() == self@.links.len(),
            forall|i: int|
                0 <= i < r.len() ==> (#[trigger] r[i]).0 == tip(self@.links, (i + 1) as nat).0
                    && r[i].1 == tip(self@.links, (i + 1) as nat).1,
            forall|i: int|
                0 <= i < r.len() ==> within(
                    (#[trigger] r[i]).0 as int,
                    r[i].1 as int,
                    reach(self@.links, (i + 1) as nat),
                ),
    {
        let n = self.links.len();
        let mut points: Vec<(i128, i128)> = Vec::new();
        let mut x: i128 = 0;
        let mut y: i128 = 0;
        let mut i: usize = 0;
        proof {
            reveal(within);
        }
        while i < n
            invariant
                n == self.links.len(),
                i <= n,
                points.len() == i,
                x == tip(self@.links, i as nat).0,
                y == tip(self@.links, i as nat).1,
                within(x as int, y as int, reach(self@.links, i as nat)),
                -(i * 0x7fff_ffff_ffff_ffff) <= x <= i * 0x7fff_ffff_ffff_ffff,
                -(i * 0x7fff_ffff_ffff_ffff) <= y <= i * 0x7fff_ffff_ffff_ffff,
                forall|j: int|
                    0 <= j < i ==> (#[trigger] points[j]).0 == tip(self@.links, (j + 1) as nat).0
                        && points[j].1 == tip(self@.links, (j + 1) as nat).1,
                forall|j: int|
                    0 <= j < i ==> within(
                        (#[trigger] points[j]).0 as int,
                        points[j].1 as int,
                        reach(self@.links, (j + 1) as nat),
                    ),
            decreases n - i,
        {
            let (across, down) = arm(self.links[i]);
            proof {
                lemma_triangle(
                    x as int,
                    y as int,
                    -across,
                    down as int,
                    reach(self@.links, i as nat),
                    self@.links[i as int].length,
                );
            }
            x = x - across as i128;
            y = y + down as i128;
            points.push((x, y));
            i += 1;
        }
        points
    }

    /// Where the chain ends, as seen from a pivot at `centre`.
    pub fn end_point(&self, centre: (i64, i64)) -> (r: (i128, i128))
        ensures
            r.0 == centre.0 + tip(self@.links, self@.links.len()).0,
            r.1 == centre.1 + tip(self@.links, self@.links.len()).1,
            within(r.0 - centre.0, r.1 - centre.1, reach(self@.links, self@.links.len())),
    {
        let n = self.links.len();
        let mut x: i128 = 0;
        let mut y: i128 = 0;
        let mut i: usize = 0;
        proof {
            reveal(within);
        }
        while i < n
            invariant
                n == self.links.len(),
                i <= n,
                x == tip(self@.links, i as nat).0,
                y == tip(self@.links, i as nat).1,
                within(x as int, y as int, reach(self@.links, i as nat)),
                -(i * 0x7fff_ffff_ffff_ffff) <= x <= i * 0x7fff_ffff_ffff_ffff,
                -(i * 0x7fff_ffff_ffff_ffff) <= y <= i * 0x7fff_ffff_ffff_ffff,
            decreases n - i,
        {
            let (across, down) = arm(self.links[i]);
            proof {
                lemma_triangle(
                    x as int,
                    y as int,
                    -across,
                    down as int,
                    reach(self@.links, i as nat),
                    self@.links[i as int].length,
                );
            }
            x = x - across as i128;
            y = y + down as i128;
            i += 1;
        }
        (centre.0 as i128 + x, centre.1 as i128 + y)
    }

    /// Whether a tick over the time `dt` can be held. The chain is only
    /// looked at.
    pub fn can_tick(&self, dt: i64) -> (r: bool)
        ensures
            r == self@.ticks(dt as int),
    {
        proof {
            use_type_invariant(self);
        }
        let ghost start = self@;
        let n = self.links.len();
        let mut before: Option<Pendulum> = None;
        let mut own: Pendulum = self.links[0];
        let mut i: usize = 0;
        loop
            invariant
                n == self.links.len(),
                start == self@,
                i < n,
                start.sweeps(i as nat, dt as int),
                own@ == start.swept(i as nat, dt as int).links[i as int],
                i == 0 ==> before is None,
                i > 0 ==> before is Some && before->0@ == start.swept(i as nat, dt as int).links[i
                    - 1],
                forall|j: int|
                    i < j < n ==> #[trigger] start.swept(i as nat, dt as int).links[j]
                        == start.links[j],
            decreases n - i,
        {
            proof {
                lemma_swept_shape(start, i as nat, dt as int);
            }
            let after: Option<Pendulum> = if i + 1 < n {
                Some(self.links[i + 1])
            } else {
                None
            };
            match visit(Window { before, own, after }, self.gravity, self.damping, dt) {
                Some(w) => {
                    if i + 1 == n {
                        return true;
                    }
                    before = Some(w.own);
                    own = w.after.unwrap();
                    i += 1;
                },
                None => {
                    proof {
                        if start.sweeps(n as nat, dt as int) {
                            lemma_sweeps_prefix(start, (i + 1) as nat, n as nat, dt as int);
                        }
                    }
                    return false;
                },
            }
        }
    }

    /// Advances the chain by one tick over the time `dt`, in place. A tick
    /// is all or nothing: where a value of it cannot be held, the fault is
    /// reported and the chain stays as it was. Over no time a tick only
    /// damps.
    pub fn tick(&mut self, dt: i64) -> (r: Result<(), SimError>)
        ensures
            match r {
                Ok(_) => old(self)@.ticks(dt as int) && final(self)@ == old(self)@.ticked(
                    dt as int,
                ),
                Err(e) => !old(self)@.ticks(dt as int) && e == SimError::NonFinite && final(self)@
                    == old(self)@,
            },
            final(self)@ == old(self)@.advanced(dt as int),
    {
        if !self.can_tick(dt) {
            return Err(SimError::NonFinite);
        }
        let ghost start = self@;
        let n = self.links.len();
        let mut i: usize = 0;
        while i < n
            invariant
                n == self.links.len(),
                n == start.links.len(),
                i <= n,
                start.sweeps(n as nat, dt as int),
                self@ == start.swept(i as nat, dt as int),
            decreases n - i,
        {
            proof {
                lemma_sweeps_prefix(start, (i + 1) as nat, n as nat, dt as int);
            }
            let ghost here = self@;
            let before: Option<Pendulum> = if i > 0 {
                Some(self.links[i - 1])
            } else {
                None
            };
            let after: Option<Pendulum> = if i + 1 < n {
                Some(self.links[i + 1])
            } else {
                None
            };
            let own: Pendulum = self.links[i];
            // The whole tick has been found to hold, and so does this visit.
            let w: Window = visit(
                Window { before, own, after },
                self.gravity,
                self.damping,
                dt,
            ).unwrap();
            self.links[i] = w.own;
            if let Some(p) = w.before {
                self.links[i - 1] = p;
            }
            if let Some(p) = w.after {
                self.links[i + 1] = p;
            }
            assert(self@.links =~= here.stepped(i as int, dt as int).links);
            i += 1;
        }
        Ok(())
    }
}

/// A chain of one link has no neighbours: a tick damps and integrates the
/// link and does nothing else.
pub proof fn lemma_single_link_tick(c: ChainState, dt: int)
    requires
        c.links.len() == 1,
    ensures
        ({
            let own = damped(c.links[0], c.damping);
            &&& c.ticks(dt) <==> fits(own.speed) && integrates(own, c.gravity, dt)
            &&& c.ticked(dt) == (ChainState {
                links: seq![integrated(own, c.gravity, dt)],
                ..c
            })
        }),
{
    reveal_with_fuel(ChainState::swept, 2);
    reveal_with_fuel(ChainState::sweeps, 2);
    let own = damped(c.links[0], c.damping);
    assert(c.ticked(dt).links =~= seq![integrated(own, c.gravity, dt)]);
}

/// Without damping, a tick of a chain of one link is one integration step
/// of that link.
pub proof fn lemma_single_link_undamped(c: ChainState, dt: int)
    requires
        c.links.len() == 1,
        c.damping == SCALE,
        fits(c.links[0].speed),
    ensures
        c.ticks(dt) <==> integrates(c.links[0], c.gravity, dt),
        c.ticked(dt) == (ChainState {
            links: seq![integrated(c.links[0], c.gravity, dt)],
            ..c
        }),
{
    lemma_single_link_tick(c, dt);
    lemma_no_damping(c.links[0]);
}

/// A run is determined by where it starts and by the times it is given:
/// two chains in the same state that are advanced over the same times end
/// in the same state.
pub proof fn lemma_run_is_determined(a: ChainState, b: ChainState, dts: Seq<int>)
    requires
        a == b,
    ensures
        a.run(dts) == b.run(dts),
{
}

/// A run over no time at all changes nothing, and a run can be split at any
/// point: running over `first` and then over `second` is running over both.
pub proof fn lemma_run_splits(c: ChainState, first: Seq<int>, second: Seq<int>)
    ensures
        c.run(Seq::empty()) == c,
        c.run(first + second) == c.run(first).run(second),
    decreases second.len(),
{
    if second.len() == 0 {
        assert(first + second =~= first);
    } else {
        lemma_run_splits(c, first, second.drop_last());
        assert((first + second).drop_last() =~= first + second.drop_last());
        assert((first + second).last() == second.last());
    }
}

/// Whether the link `s` is moderate with `room` influences taken up: its
/// arm is at least a thousandth, and its speed and angle are far from what
/// can still be held.
spec fn tame(s: LinkState, room: int) -> bool {
    &&& s.length >= 1_000_000
    &&& -(1_000_000_000_000_000 + room * 9_820_000_000_000) <= s.speed <= 1_000_000_000_000_000
        + room * 9_820_000_000_000
    &&& -2_019_640_000_000_000 <= s.angle <= 2_019_640_000_000_000
}

/// Whether the chain is moderate after the first `k` links of a moderate
/// chain have been visited.
spec fn moderate(c: ChainState, k: int) -> bool {
    &&& c.gravity == GRAVITY
    &&& c.damping == SCALE
    &&& forall|j: int|
        0 <= j < c.links.len() ==> {
            &&& tame(
                #[trigger] c.links[j],
                if j > k {
                    0
                } else if j == k {
                    1
                } else if j == k - 1 {
                    2
                } else {
                    3
                },
            )
            &&& (j >= k ==> -1_000_000_000_000_000 <= c.links[j].angle
                <= 1_000_000_000_000_000)
        }
}

/// A visit to link `k` of a chain that is moderate after `k` visits can be
/// held and leaves the chain moderate after `k + 1` visits.
proof fn lemma_moderate_visit(c: ChainState, k: int, dt: int)
    requires
        0 <= k < c.links.len(),
        moderate(c, k),
        0 <= dt <= 1_000_000_000,
    ensures
        c.steps(k, dt),
        moderate(c.stepped(k, dt), k + 1),
{
    let own = c.links[k];
    lemma_no_damping(own);
    lemma_moderate_gain(own, dt);
    let v = influence_of(own, c.gravity, dt);
    assert(-9_820_000_000_000 <= v <= 9_820_000_000_000);
    assert(-9_820_000_000_000 <= halved(v) <= 9_820_000_000_000);
    assert(-9_820_000_000_000 <= halved(halved(v)) <= 9_820_000_000_000);
    let after = c.stepped(k, dt);
    assert forall|j: int| 0 <= j < after.links.len() implies {
        &&& tame(
            #[trigger] after.links[j],
            if j > k + 1 {
                0
            } else if j == k + 1 {
                1
            } else if j == k {
                2
            } else {
                3
            },
        )
        &&& (j >= k + 1 ==> -1_000_000_000_000_000 <= after.links[j].angle
            <= 1_000_000_000_000_000)
    } by {
        assert(tame(c.links[j], 3) || j >= k - 1);
    }
}

/// Every sweep over a moderate chain can be held and leaves it moderate.
proof fn lemma_moderate_sweep(c: ChainState, k: nat, dt: int)
    requires
        moderate(c, 0),
        k <= c.links.len(),
        0 <= dt <= 1_000_000_000,
    ensures
        c.sweeps(k, dt),
        moderate(c.swept(k, dt), k as int),
    decreases k,
{
    if k > 0 {
        lemma_moderate_sweep(c, (k - 1) as nat, dt);
        lemma_swept_shape(c, (k - 1) as nat, dt);
        lemma_moderate_visit(c.swept((k - 1) as nat, dt), k - 1, dt);
    }
}

/// A tick never fails on a moderate chain: under standard gravity and
/// without damping, with every arm at least a thousandth long, every angle
/// and speed within a million millions, and over at most one second.
pub proof fn lemma_moderate_tick(c: ChainState, dt: int)
    requires
        c.gravity == GRAVITY,
        c.damping == SCALE,
        forall|j: int|
            0 <= j < c.links.len() ==> (#[trigger] c.links[j]).length >= 1_000_000
                && -1_000_000_000_000_000 <= c.links[j].angle <= 1_000_000_000_000_000
                && -1_000_000_000_000_000 <= c.links[j].speed <= 1_000_000_000_000_000,
        0 <= dt <= 1_000_000_000,
    ensures
        c.ticks(dt),
{
    lemma_moderate_sweep(c, c.links.len(), dt);
}

/// A sweep that can be held can be held up to every earlier link.
pub proof fn lemma_sweeps_prefix(c: ChainState, k: nat, n: nat, dt: int)
    requires
        k <= n,
        c.sweeps(n, dt),
    ensures
        c.sweeps(k, dt),
    decreases n,
{
    if k < n {
        lemma_sweeps_prefix(c, k, (n - 1) as nat, dt);
    }
}

} // verus!
