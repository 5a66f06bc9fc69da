//! Acquisition: peaks of correlation surfaces, detection and verification.

pub mod correlator;
pub mod detector;
pub mod fft_search;
pub mod ranking;
pub mod verification;
