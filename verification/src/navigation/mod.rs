//! Navigation message: bits, words, subframes, ephemerides and time.

pub mod bit_sync;
pub mod bits;
pub mod ephemeris;
pub mod frame_decoder;
pub mod frame_laws;
pub mod nav_data;
pub mod parity;
pub mod sdsd;
