//! Signal processing on integers and indices.

pub mod block;
pub mod code_laws;
pub mod code_utilities;
pub mod fft;
pub mod filter;
pub mod prn_code;
pub mod resampler;
pub mod signs;
