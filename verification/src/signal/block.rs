//! Blocks of samples behind the downconversion.

use vstd::prelude::*;

verus! {

/// A block of samples. Frequencies are in millihertz.
#[derive(Debug)]
pub struct SignalBlock<T> {
    /// The samples.
    pub samples: Vec<T>,
    /// Sample rate.
    pub sample_rate_mhz: u64,
    /// Centre frequency of the reception.
    pub center_freq_mhz: u64,
    /// Number of the first sample in the stream.
    pub start_sample: u64,
    /// Doppler shift that was removed.
    pub applied_doppler_mhz: i64,
}

impl<T> SignalBlock<T> {
    /// A block from which no Doppler shift was removed.
    pub fn new(
        samples: Vec<T>,
        sample_rate_mhz: u64,
        center_freq_mhz: u64,
        start_sample: u64,
    ) -> (block: Self)
        ensures
            block.samples@ == samples@,
            block.sample_rate_mhz == sample_rate_mhz,
            block.center_freq_mhz == center_freq_mhz,
            block.start_sample == start_sample,
            block.applied_doppler_mhz == 0,
    {
        SignalBlock {
            samples,
            sample_rate_mhz,
            center_freq_mhz,
            start_sample,
            applied_doppler_mhz: 0,
        }
    }

    /// Duration of the block in nanoseconds, rounded down.
    pub fn duration_ns(&self) -> (ns: u128)
        requires
            self.sample_rate_mhz > 0,
        ensures
            ns == self.samples@.len() as int * 1_000_000_000_000 / (self.sample_rate_mhz as int),
            ns * self.sample_rate_mhz <= self.samples@.len() * 1_000_000_000_000 < (ns + 1)
                * self.sample_rate_mhz,
    {
        proof {
            let rate = self.sample_rate_mhz as int;
            let x = self.samples@.len() as int * 1_000_000_000_000;
            vstd::arithmetic::div_mod::lemma_fundamental_div_mod(x, rate);
            vstd::arithmetic::div_mod::lemma_mod_bound(x, rate);
            let q = x / rate;
            assert(q * rate == rate * q && (q + 1) * rate == rate * q + rate) by (nonlinear_arith);
        }
        self.samples.len() as u128 * 1_000_000_000_000 / self.sample_rate_mhz as u128
    }

    /// Number of whole samples in a millisecond.
    pub fn samples_per_ms(&self) -> (n: u64)
        ensures
            n == self.sample_rate_mhz / 1_000_000,
            n * 1_000_000 <= self.sample_rate_mhz < (n + 1) * 1_000_000,
    {
        self.sample_rate_mhz / 1_000_000
    }

    /// The samples of the first millisecond, or all of a shorter block.
    pub fn first_ms(&self) -> (part: &[T])
        ensures
            part@ == self.samples@.take(
                if self.sample_rate_mhz / 1_000_000 <= self.samples@.len() {
                    (self.sample_rate_mhz / 1_000_000) as int
                } else {
                    self.samples@.len() as int
                },
            ),
    {
        let per_ms: u64 = self.samples_per_ms();
        let len: usize = self.samples.len();
        let n: usize = if per_ms <= len as u64 {
            per_ms as usize
        } else {
            len
        };
        vstd::slice::slice_subrange(self.samples.as_slice(), 0, n)
    }
}

} // verus!
