//! Timing wheels.
//!
//! [`multiwheel`] holds the hierarchical wheel: a clock packed into one
//! word, action records packed the same way, and a wheel of five levels
//! that stores actions and reports the identifiers of those that expire at
//! each tick. [`timer`] holds single-level wheels that keep borrowed agents
//! and run them themselves.

pub mod multiwheel;
pub mod timer;
