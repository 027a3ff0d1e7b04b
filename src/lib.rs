//! Hereditary base-K notation and Goodstein sequences.
//!
//! `base` holds the positional base-K expansion of a natural number, `render`
//! its digit string, and `sequence` the hereditary state built on it, with its
//! base bump and subtract-one transforms and a run of the sequence.
pub mod arith;
pub mod base;
pub mod borrow;
pub mod render;
pub mod sequence;

pub use base::{check_reduced, is_power_of, Base, BaseError, Multiplier, Power, MAX_BASE, MIN_BASE};
pub use sequence::{
    run_sequence, GPow, GoodsteinRun, GoodsteinSeq, SequenceState, SequenceTerminated,
};
