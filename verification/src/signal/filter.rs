//! Window functions of the filter design.

use vstd::prelude::*;

verus! {

/// A window function.
#[derive(Debug, Clone, Copy, PartialEq, Eq, Structural)]
pub enum Window {
    /// No weighting.
    Rectangular,
    /// Hamming window.
    Hamming,
    /// Hann window.
    Hann,
    /// Blackman window.
    Blackman,
}

/// Delay of a symmetric filter of `num_taps` coefficients, in samples.
pub fn group_delay_samples(num_taps: usize) -> (delay: usize)
    requires
        num_taps > 0,
    ensures
        delay == (num_taps - 1) / 2,
        2 * delay < num_taps <= 2 * delay + 2,
{
    (num_taps - 1) / 2
}

} // verus!
