//! Monte Carlo estimation of how likely a synthetic group reproduces a target
//! trait profile, given reference trait frequencies and pairwise conditional
//! probabilities, with a Bonferroni-corrected chi-square screen of the result.
//!
//! Probabilities and frequencies are fixed-point integers in millionths
//! (see [`model::SCALE`]).

pub mod model;
pub mod random;
pub mod sampler;
pub mod engine;
pub mod analysis;
pub mod order;
