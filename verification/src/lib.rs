//! Application Performance Index (Apdex) scoring.
//!
//! An [`Apdex`] accumulator sorts response times into the three Apdex zones
//! (satisfied, tolerating, frustrated) and derives the score, a rating word,
//! a display colour and the uniform text output from the three counts.
//!
//! Times, thresholds and scores are IEEE 754 binary64 numbers. They are carried
//! as bit patterns in [`Binary64`], and everything the accumulator does with
//! them (ordering, correctly rounded arithmetic, decimal output) is integer
//! code, so that it is covered by the proofs.

pub mod binary64;
pub mod rounding;
pub mod rounding_error;
pub mod arithmetic;
pub mod rating;
pub mod decimal;
pub mod text;
pub mod hit_rate;
pub mod laws;
pub mod score_range;
pub mod apdex;

pub use crate::apdex::Apdex;
pub use crate::binary64::Binary64;
