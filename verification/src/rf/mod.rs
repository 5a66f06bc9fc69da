//! Sources of IQ samples: formats, files, streams.

pub mod config;
pub mod error;
pub mod file;
pub mod format;
pub mod sdr;
pub mod stream;
