//! One link of the chain: a pendulum with its angle, angular speed and arm.

use vstd::prelude::*;
use crate::error::SimError;
use crate::fixed::{
    checked_difference, checked_product, checked_ratio, checked_sum, fits, half, halved,
    lemma_odd, lemma_product_bounded, lemma_product_one, lemma_quot_bounded, lemma_quot_sign,
    magnitude, product, ratio, SCALE,
};
use crate::trig::{
    lemma_arch_bounds, lemma_sine_bounds, lemma_sine_odd, lemma_sine_zero, sin, sine, FULL_TURN,
    HALF_TURN,
};

verus! {

/// Standard gravity, 9.82, in fixed point.
pub const GRAVITY: i64 = 9_820_000_000;

/// The state of a link as mathematical integers, each a count of billionths.
pub struct LinkState {
    /// Deviation from the downward vertical, in radians.
    pub angle: int,
    /// Change of the angle per step, in radians.
    pub speed: int,
    /// Length of the arm.
    pub length: int,
}

/// What one integration step adds to the speed of a link:
/// `sin(angle) * gravity / length * dt`, evaluated from left to right.
pub open spec fn speed_gain(s: LinkState, gravity: int, dt: int) -> int {
    product(ratio(product(sine(s.angle), gravity), s.length), dt)
}

/// Whether every value of one integration step can be held. A step over no
/// time computes nothing and can always be held.
pub open spec fn integrates(s: LinkState, gravity: int, dt: int) -> bool {
    let gain = speed_gain(s, gravity, dt);
    dt == 0 || {
        &&& fits(product(sine(s.angle), gravity))
        &&& fits(ratio(product(sine(s.angle), gravity), s.length))
        &&& fits(gain)
        &&& fits(-gain)
        &&& fits(s.speed + gain)
        &&& fits(s.angle - (s.speed + gain))
    }
}

/// The link after one integration step: the speed takes up the gain, then
/// the angle gives way by the new speed. A step over no time leaves the
/// link as it was.
pub open spec fn integrated(s: LinkState, gravity: int, dt: int) -> LinkState {
    if dt == 0 {
        s
    } else {
        let speed = s.speed + speed_gain(s, gravity, dt);
        LinkState { angle: s.angle - speed, speed, length: s.length }
    }
}

/// The signal that an integration step sends to the neighbours: the gain of
/// speed, negated. A step over no time sends none.
pub open spec fn influence_of(s: LinkState, gravity: int, dt: int) -> int {
    if dt == 0 {
        0
    } else {
        -speed_gain(s, gravity, dt)
    }
}

/// A step over no time is no step: it can always be held, leaves the link
/// as it was and sends no influence.
pub proof fn lemma_no_time(s: LinkState, gravity: int)
    ensures
        integrates(s, gravity, 0),
        integrated(s, gravity, 0) == s,
        influence_of(s, gravity, 0) == 0,
{
}

/// The link after it has taken up an influence: half of it goes into the
/// speed, and the angle stays.
pub open spec fn influenced(s: LinkState, influence: int) -> LinkState {
    LinkState { angle: s.angle, speed: s.speed + halved(influence), length: s.length }
}

/// The link after its speed has been scaled by the damping factor.
pub open spec fn damped(s: LinkState, damping: int) -> LinkState {
    LinkState { angle: s.angle, speed: product(s.speed, damping), length: s.length }
}

/// A pendulum hanging at rest stays at rest: with angle and speed zero, an
/// integration step of any length and under any gravity changes nothing and
/// sends no influence.
pub proof fn lemma_rest_is_fixed(length: int, gravity: int, dt: int)
    requires
        length > 0,
    ensures
        ({
            let s = LinkState { angle: 0, speed: 0, length };
            &&& integrates(s, gravity, dt)
            &&& integrated(s, gravity, dt) == s
            &&& influence_of(s, gravity, dt) == 0
        }),
{
    lemma_sine_zero();
    assert(0 * gravity == 0);
    assert(product(0, gravity) == 0);
    assert(0 * (SCALE as int) == 0);
    assert(0int / length == 0) by (nonlinear_arith)
        requires
            length > 0,
    ;
    assert(ratio(0, length) == 0);
    assert(0 * dt == 0);
    assert(product(0, dt) == 0);
}

/// Under standard gravity, on an arm of at least a thousandth and over at
/// most one second, a step gains no more speed than 9820 a second, and the
/// values on the way to it stay as small.
pub proof fn lemma_moderate_gain(s: LinkState, dt: int)
    requires
        s.length >= 1_000_000,
        0 <= dt <= 1_000_000_000,
    ensures
        -9_820_000_000 <= product(sine(s.angle), GRAVITY as int) <= 9_820_000_000,
        -9_820_000_000_000 <= ratio(product(sine(s.angle), GRAVITY as int), s.length)
            <= 9_820_000_000_000,
        -9_820_000_000_000 <= speed_gain(s, GRAVITY as int, dt) <= 9_820_000_000_000,
{
    let g = GRAVITY as int;
    let pull = product(sine(s.angle), g);
    lemma_sine_bounds(s.angle);
    lemma_product_bounded(sine(s.angle), g);
    let turn = ratio(pull, s.length);
    assert(magnitude(pull * SCALE) <= 9_820_000_000_000 * s.length) by (nonlinear_arith)
        requires
            -9_820_000_000 <= pull <= 9_820_000_000,
            s.length >= 1_000_000,
            SCALE == 1_000_000_000,
    ;
    lemma_quot_bounded(pull * SCALE, s.length, 9_820_000_000_000);
    assert(magnitude(turn * dt) <= 9_820_000_000_000 * SCALE) by (nonlinear_arith)
        requires
            -9_820_000_000_000 <= turn <= 9_820_000_000_000,
            0 <= dt <= 1_000_000_000,
            SCALE == 1_000_000_000,
    ;
    lemma_quot_bounded(turn * dt, SCALE as int, 9_820_000_000_000);
}

/// The pull is restoring: while the link hangs in the first half turn it
/// gains speed, which takes the angle back toward rest, and in the second
/// half turn it loses speed.
pub proof fn lemma_pull_is_restoring(s: LinkState, gravity: int, dt: int)
    requires
        s.length > 0,
        gravity >= 0,
        dt >= 0,
    ensures
        s.angle % (FULL_TURN as int) <= HALF_TURN ==> speed_gain(s, gravity, dt) >= 0,
        s.angle % (FULL_TURN as int) >= HALF_TURN ==> speed_gain(s, gravity, dt) <= 0,
{
    let r = s.angle % (FULL_TURN as int);
    let x = sine(s.angle);
    lemma_sine_zero();
    if r <= HALF_TURN {
        lemma_arch_bounds(r);
    }
    if r > HALF_TURN {
        lemma_arch_bounds(r - HALF_TURN);
    }
    let pull = product(x, gravity);
    assert(x >= 0 ==> x * gravity >= 0) by (nonlinear_arith)
        requires
            gravity >= 0,
    ;
    assert(x <= 0 ==> x * gravity <= 0) by (nonlinear_arith)
        requires
            gravity >= 0,
    ;
    lemma_quot_sign(x * gravity, SCALE as int);
    assert(pull >= 0 ==> pull * SCALE >= 0) by (nonlinear_arith)
        requires
            SCALE == 1_000_000_000,
    ;
    assert(pull <= 0 ==> pull * SCALE <= 0) by (nonlinear_arith)
        requires
            SCALE == 1_000_000_000,
    ;
    lemma_quot_sign(pull * SCALE, s.length);
    let turn = ratio(pull, s.length);
    assert(turn >= 0 ==> turn * dt >= 0) by (nonlinear_arith)
        requires
            dt >= 0,
    ;
    assert(turn <= 0 ==> turn * dt <= 0) by (nonlinear_arith)
        requires
            dt >= 0,
    ;
    lemma_quot_sign(turn * dt, SCALE as int);
}

/// The link `s` seen in a mirror: angle and speed change their sign.
pub open spec fn mirrored(s: LinkState) -> LinkState {
    LinkState { angle: -s.angle, speed: -s.speed, length: s.length }
}

/// The motion has no preferred side: the mirror image of a link gains the
/// opposite speed, sends the opposite influence and ends as the mirror
/// image of where the link itself ends.
pub proof fn lemma_mirror(s: LinkState, gravity: int, dt: int, influence: int, damping: int)
    requires
        s.length > 0,
    ensures
        speed_gain(mirrored(s), gravity, dt) == -speed_gain(s, gravity, dt),
        influence_of(mirrored(s), gravity, dt) == -influence_of(s, gravity, dt),
        integrated(mirrored(s), gravity, dt) == mirrored(integrated(s, gravity, dt)),
        influenced(mirrored(s), -influence) == mirrored(influenced(s, influence)),
        damped(mirrored(s), damping) == mirrored(damped(s, damping)),
{
    lemma_sine_odd(s.angle);
    let pull = product(sine(s.angle), gravity);
    lemma_odd(sine(s.angle), gravity);
    let turn = ratio(pull, s.length);
    lemma_odd(pull, s.length);
    lemma_odd(turn, dt);
    lemma_odd(influence, 1);
    lemma_odd(s.speed, damping);
}

/// An influence of zero leaves a link as it was.
pub proof fn lemma_no_influence(s: LinkState)
    ensures
        influenced(s, 0) == s,
{
}

/// A damping factor of one leaves a link as it was.
pub proof fn lemma_no_damping(s: LinkState)
    ensures
        damped(s, SCALE as int) == s,
{
    lemma_product_one(s.speed);
}

/// One link of a chain. Its arm length is always positive.
#[derive(Clone, Copy, Debug, PartialEq, Eq)]
pub struct Pendulum {
    current_angle: i64,
    angle_speed: i64,
    stick_length: i64,
}

impl Pendulum {
    #[verifier::type_invariant]
    spec fn has_arm(self) -> bool {
        self.stick_length > 0
    }

    /// The state of the link.
    pub closed spec fn view(&self) -> LinkState {
        LinkState {
            angle: self.current_angle as int,
            speed: self.angle_speed as int,
            length: self.stick_length as int,
        }
    }

    /// A pendulum at the given angle, moving at the given speed, on an arm of
    /// the given length. A length of zero or less is refused.
    pub fn new(current_angle: i64, angle_speed: i64, stick_length: i64) -> (r: Result<
        Pendulum,
        SimError,
    >)
        ensures
            match r {
                Ok(p) => stick_length > 0 && p@ == (LinkState {
                    angle: current_angle as int,
                    speed: angle_speed as int,
                    length: stick_length as int,
                }),
                Err(e) => stick_length <= 0 && e == SimError::InvalidLength,
            },
    {
        if stick_length <= 0 {
            Err(SimError::InvalidLength)
        } else {
            Ok(Pendulum { current_angle, angle_speed, stick_length })
        }
    }

    /// The current angle.
    pub fn angle(&self) -> (r: i64)
        ensures
            r == self@.angle,
    {
        self.current_angle
    }

    /// The current angular speed.
    pub fn speed(&self) -> (r: i64)
        ensures
            r == self@.speed,
    {
        self.angle_speed
    }

    /// The length of the arm, which is positive.
    pub fn arm_length(&self) -> (r: i64)
        ensures
            r == self@.length,
            r > 0,
    {
        proof {
            use_type_invariant(self);
        }
        self.stick_length
    }

    /// Gives the arm a new length. A length of zero or less is refused and
    /// leaves the pendulum as it was.
    pub fn set_arm_length(&mut self, stick_length: i64) -> (r: Result<(), SimError>)
        ensures
            match r {
                Ok(_) => stick_length > 0 && final(self)@ == (LinkState {
                    length: stick_length as int,
                    ..old(self)@
                }),
                Err(e) => stick_length <= 0 && e == SimError::InvalidLength && final(self)@ == old(
                    self,
                )@,
            },
    {
        if stick_length <= 0 {
            Err(SimError::InvalidLength)
        } else {
            self.stick_length = stick_length;
            Ok(())
        }
    }

    /// Scales the speed by the damping factor. Where the product cannot be
    /// held the pendulum stays as it was.
    pub fn damp(&mut self, damping: i64) -> (r: Result<(), SimError>)
        ensures
            match r {
                Ok(_) => fits(damped(old(self)@, damping as int).speed) && final(self)@ == damped(
                    old(self)@,
                    damping as int,
                ),
                Err(e) => !fits(damped(old(self)@, damping as int).speed) && e
                    == SimError::NonFinite && final(self)@ == old(self)@,
            },
    {
        proof {
            use_type_invariant(&*self);
        }
        match checked_product(self.angle_speed, damping) {
            Some(speed) => {
                self.angle_speed = speed;
                Ok(())
            },
            None => Err(SimError::NonFinite),
        }
    }

    /// One integration step under the given gravity over the time `dt`.
    /// Returns the influence to hand to the neighbours. A step over no time
    /// changes nothing and returns zero. Where a value of the step cannot be
    /// held the pendulum stays as it was.
    pub fn integrate(&mut self, gravity: i64, dt: i64) -> (r: Result<i64, SimError>)
        ensures
            match r {
                Ok(v) => {
                    &&& integrates(old(self)@, gravity as int, dt as int)
                    &&& final(self)@ == integrated(old(self)@, gravity as int, dt as int)
                    &&& v == influence_of(old(self)@, gravity as int, dt as int)
                },
                Err(e) => {
                    &&& !integrates(old(self)@, gravity as int, dt as int)
                    &&& e == SimError::NonFinite
                    &&& final(self)@ == old(self)@
                },
            },
    {
        proof {
            use_type_invariant(&*self);
        }
        if dt == 0 {
            return Ok(0);
        }
        let pull: i64 = match checked_product(sin(self.current_angle), gravity) {
            Some(x) => x,
            None => {
                return Err(SimError::NonFinite);
            },
        };
        let turn: i64 = match checked_ratio(pull, self.stick_length) {
            Some(x) => x,
            None => {
                return Err(SimError::NonFinite);
            },
        };
        let gain: i64 = match checked_product(turn, dt) {
            Some(x) => x,
            None => {
                return Err(SimError::NonFinite);
            },
        };
        let influence: i64 = match checked_difference(0, gain) {
            Some(x) => x,
            None => {
                return Err(SimError::NonFinite);
            },
        };
        let speed: i64 = match checked_sum(self.angle_speed, gain) {
            Some(x) => x,
            None => {
                return Err(SimError::NonFinite);
            },
        };
        let angle: i64 = match checked_difference(self.current_angle, speed) {
            Some(x) => x,
            None => {
                return Err(SimError::NonFinite);
            },
        };
        self.angle_speed = speed;
        self.current_angle = angle;
        Ok(influence)
    }

    /// One integration step under standard gravity over the time
    /// `time_in_seconds`.
    pub fn update_angle(&mut self, time_in_seconds: i64) -> (r: Result<i64, SimError>)
        ensures
            match r {
                Ok(v) => {
                    &&& integrates(old(self)@, GRAVITY as int, time_in_seconds as int)
                    &&& final(self)@ == integrated(
                        old(self)@,
                        GRAVITY as int,
                        time_in_seconds as int,
                    )
                    &&& v == influence_of(old(self)@, GRAVITY as int, time_in_seconds as int)
                },
                Err(e) => {
                    &&& !integrates(old(self)@, GRAVITY as int, time_in_seconds as int)
                    &&& e == SimError::NonFinite
                    &&& final(self)@ == old(self)@
                },
            },
    {
        self.integrate(GRAVITY, time_in_seconds)
    }

    /// Takes up the influence of a neighbour: half of it is added to the
    /// speed. The coupling is speed-only; the angle is left alone, since it
    /// already follows the speed at the next integration step. Where the new
    /// speed cannot be held the pendulum stays as it was.
    pub fn angle_influence(&mut self, influence: i64) -> (r: Result<(), SimError>)
        ensures
            match r {
                Ok(_) => fits(influenced(old(self)@, influence as int).speed) && final(self)@
                    == influenced(old(self)@, influence as int),
                Err(e) => !fits(influenced(old(self)@, influence as int).speed) && e
                    == SimError::NonFinite && final(self)@ == old(self)@,
            },
    {
        proof {
            use_type_invariant(&*self);
        }
        match checked_sum(self.angle_speed, half(influence)) {
            Some(speed) => {
                self.angle_speed = speed;
                Ok(())
            },
            None => Err(SimError::NonFinite),
        }
    }
}

} // verus!
