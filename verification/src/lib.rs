//! Verified core of a GPS L1 C/A software receiver.

pub mod acquisition;
pub mod navigation;
pub mod observables;
pub mod pipeline;
pub mod rf;
pub mod rounding;
pub mod signal;
