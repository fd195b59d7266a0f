//! A chain of coupled pendulums, advanced in discrete ticks of fixed-point
//! arithmetic.
//!
//! Every quantity is an `i64` that counts billionths of its unit; see
//! [`fixed`]. A [`pendulum::Pendulum`] integrates itself and takes up the
//! influence of its neighbours; a [`chain::Chain`] owns the links and drives
//! one pass over them per tick.

pub mod chain;
pub mod error;
pub mod fixed;
pub mod pendulum;
pub mod trace;
pub mod trig;
