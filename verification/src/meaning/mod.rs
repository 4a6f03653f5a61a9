//! What the tables and the estimates mean, independently of the formulas that compute them.
//!
//! Some of the laws hold of every backend and speak of its operations alone. The others hold
//! where a backend computes without rounding, in the sense of [`crate::exact`], and say what the
//! results are as real numbers.
pub mod bank;
pub mod comb;
pub mod flow;
pub mod scale;
pub mod score;
pub mod steps;
