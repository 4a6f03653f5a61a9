//! SWIPE' pitch estimator with verified contracts.
//!
//! # Pipeline (per frame)
//! 1. For each window length `W` in the bank: take the most recent `W` samples, apply a Hann
//!    window, zero-pad to the longest window, compute the magnitude spectrum, and interpolate it
//!    linearly onto a mel axis ([`mel`]).
//! 2. Compute the score of each pitch candidate against each window's magnitudes: the inner
//!    product of the candidate's kernel ([`kernel`]) with the square roots of the magnitudes,
//!    over the square root of their sum.
//! 3. For each candidate, blend the scores of two adjacent windows by linear interpolation in the
//!    logarithm of the window length, to approximate the ideal of eight periods ([`windows`]).
//! 4. Take the maximum and refine it by a parabola on the logarithmic pitch axis ([`frame`]).
//!
//! # Streaming
//! Each emitted frame is right-aligned: it consumes the latest samples up to its right edge, as
//! many as the longest window has. The estimator emits one frame per [`HOP_SAMPLES`] (10 ms at
//! 48 kHz) of new audio ([`stream`]).
//!
//! # Arithmetic
//! The estimator is generic over its arithmetic and its Fourier transform ([`backend`]).
//! [`laws`] states what holds of the estimator as a whole, and [`meaning`] what its tables and
//! estimates are, among other things as real numbers where the arithmetic does not round
//! ([`exact`]).
use vstd::prelude::*;

pub mod backend;
pub mod error;
pub mod exact;
pub mod fold;
pub mod frame;
pub mod kernel;
pub mod laws;
pub mod meaning;
pub mod mel;
pub mod primes;
pub mod stream;
pub mod windows;

pub use backend::{Backend, Complex};
pub use error::Error;
pub use primes::is_swipe_prime;
pub use stream::{PitchFrame, Swipe};
pub use windows::windows_for_max;

verus! {

/// SWIPE always operates at 48 kHz internally. Resample your input to this rate before handing
/// it to the estimator.
pub const SAMPLE_RATE: u32 = 48_000;

/// Smallest analysis window of any bank.
pub const MIN_WINDOW: usize = 1024;

/// Default longest window. At 48 kHz it covers down to about 47 Hz (eight periods).
pub const DEFAULT_MAX_WINDOW: usize = 8192;

/// 10 ms hop at 48 kHz.
pub const HOP_SAMPLES: usize = 480;

/// Number of pitch candidates: 36 per octave from 27.5 Hz up.
pub const NUM_CANDIDATES: usize = 295;

/// Number of mel-spaced frequencies at which spectra and kernels are sampled.
pub const MEL_FREQS: usize = 1024;

} // verus!
