//! Measurements handed to the position solver.

pub mod base;
pub mod cn0;
pub mod doppler;
pub mod pseudorange;
