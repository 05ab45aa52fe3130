//! Exploration of Ducci self-subtraction sequences: a step-and-detect
//! engine for one state vector, an exhaustive per-length search over all
//! binary vectors, and tribonacci seed generators at machine-word and
//! arbitrary precision, the latter with a golden-ratio closed form.

pub mod model;
pub mod repr;
pub mod engine;
pub mod search;
pub mod trib;
pub mod bigint;
pub mod golden;
pub mod convergence;
mod rng;
