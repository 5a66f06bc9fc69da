//! The receiver as a whole.

pub mod receiver;
