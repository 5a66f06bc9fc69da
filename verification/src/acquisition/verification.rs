//! Verification of a detection by a second search.
//!
//! A first, wide search may find a peak of noise. A second, narrow search around
//! the candidate has to find a peak of sufficient strength at nearly the same
//! Doppler shift; only then is the satellite confirmed.

use std::time::Duration;

use crate::acquisition::fft_search::{SearchConfig, SearchResult};
use crate::acquisition::ranking::{descending, rank_descending, ranked, Ranked};
use vstd::arithmetic::power2::pow2;
use vstd::prelude::*;

verus! {

/// Why a detection was not confirmed.
#[derive(Debug, Clone, Copy, PartialEq, Eq, Structural)]
pub enum MarginalReason {
    /// The second search gave no result.
    NoResult,
    /// The second peak is too weak.
    LowSnr,
    /// The second Doppler shift is too far from the first.
    DopplerMismatch,
    /// Both.
    LowSnrAndDopplerMismatch,
}

/// What the two searches have shown.
#[derive(Debug, Clone, Copy, PartialEq, Eq, Structural)]
pub enum VerificationVerdict {
    /// Both searches have found the satellite.
    Confirmed {
        /// Result of the second search.
        result: SearchResult,
        /// Carrier to noise density, in thousandths of a dB-Hz.
        cn0_mdb_hz: i32,
        /// Time taken, in nanoseconds.
        elapsed_ns: u128,
    },
    /// The first search has found a peak that the second does not confirm.
    Marginal {
        /// Result of the first search.
        result: SearchResult,
        /// Why it was not confirmed.
        reason: MarginalReason,
        /// Time taken, in nanoseconds.
        elapsed_ns: u128,
    },
    /// The first search has found nothing.
    Rejected {
        /// Number of the satellite.
        prn: u8,
        /// Ratio of peak to noise, in thousandths, if there was a result.
        peak_to_noise_milli: Option<u64>,
        /// Time taken, in nanoseconds.
        elapsed_ns: u128,
    },
}

/// A confirmed satellite, ready to be tracked.
#[derive(Debug, Clone, Copy, PartialEq, Eq, Structural)]
pub struct AcquisitionResult {
    /// Number of the satellite.
    pub prn: u8,
    /// Doppler shift in millihertz.
    pub doppler_mhz: i64,
    /// Code phase in samples.
    pub code_phase_samples: usize,
    /// Code phase in millionths of a chip.
    pub code_phase_microchips: u64,
    /// Carrier to noise density, in thousandths of a dB-Hz.
    pub cn0_mdb_hz: i32,
    /// Ratio of peak to noise, in thousandths.
    pub peak_to_noise_milli: u64,
}

/// How often and after which delay a rejected satellite is searched again.
#[derive(Debug, Clone, Copy, PartialEq, Eq, Structural)]
pub struct RetryPolicy {
    /// Largest number of attempts, the first included.
    pub max_attempts: usize,
    /// Delay before the second attempt, in milliseconds; it doubles with every
    /// further attempt.
    pub base_delay_ms: u64,
    /// Largest delay, in milliseconds.
    pub max_delay_ms: u64,
}

/// Configuration of the verification.
#[derive(Debug, Clone, Copy, PartialEq, Eq, Structural)]
pub struct VerifierConfig {
    /// The first, wide search.
    pub first_pass: SearchConfig,
    /// The second search; its largest Doppler shift is the half width of the
    /// search around the candidate.
    pub second_pass: SearchConfig,
    /// Largest difference of the two Doppler shifts, in millihertz.
    pub doppler_tolerance_mhz: u64,
    /// Retries.
    pub retry: RetryPolicy,
}

impl Default for RetryPolicy {
    fn default() -> (policy: Self)
        ensures
            policy.max_attempts == 3,
            policy.base_delay_ms == 20,
            policy.max_delay_ms == 100,
    {
        RetryPolicy { max_attempts: 3, base_delay_ms: 20, max_delay_ms: 100 }
    }
}

impl Default for VerifierConfig {
    fn default() -> (config: Self)
        ensures
            config.first_pass.doppler_min_mhz == -10_000_000,
            config.first_pass.doppler_max_mhz == 10_000_000,
            config.first_pass.doppler_step_mhz == 500_000,
            config.first_pass.cfar_threshold_milli == 3000,
            config.second_pass.doppler_min_mhz == -1_500_000,
            config.second_pass.doppler_max_mhz == 1_500_000,
            config.second_pass.doppler_step_mhz == 250_000,
            config.second_pass.cfar_threshold_milli == 2500,
            config.doppler_tolerance_mhz == 750_000,
            config.retry.max_attempts == 3,
            config.retry.base_delay_ms == 20,
            config.retry.max_delay_ms == 100,
    {
        VerifierConfig {
            first_pass: SearchConfig::default(),
            second_pass: SearchConfig {
                doppler_min_mhz: -1_500_000,
                doppler_max_mhz: 1_500_000,
                doppler_step_mhz: 250_000,
                cfar_threshold_milli: 2500,
            },
            doppler_tolerance_mhz: 750_000,
            retry: RetryPolicy::default(),
        }
    }
}

/// A length of time, as the standard library holds it.
pub uninterp spec fn duration_of(seconds: u64, nanos: u32) -> Duration;

/// `std::time::Duration::new`: the length of time of `seconds` and `nanos`.
#[verifier::external_body]
fn duration_new(seconds: u64, nanos: u32) -> (d: Duration)
    requires
        nanos < 1_000_000_000,
    ensures
        d == duration_of(seconds, nanos),
{
    Duration::new(seconds, nanos)
}

/// Delay before attempt `k`, counted from zero: none before the first, then the
/// base delay, doubled for every further attempt, but at most the largest one.
pub open spec fn delay_ms(policy: RetryPolicy, k: int) -> int {
    if k == 0 {
        0
    } else {
        let doubled = policy.base_delay_ms * pow2((k - 1) as nat);
        if doubled <= policy.max_delay_ms {
            doubled
        } else {
            policy.max_delay_ms as int
        }
    }
}

impl RetryPolicy {
    /// Delay before attempt `attempt`, counted from zero, in milliseconds.
    pub fn delay_ms_for(&self, attempt: usize) -> (ms: u64)
        ensures
            ms == delay_ms(*self, attempt as int),
    {
        if attempt == 0 {
            return 0;
        }
        let max: u64 = self.max_delay_ms;
        if self.base_delay_ms == 0 {
            assert(0 * pow2((attempt - 1) as nat) == 0);
            return 0;
        }
        let mut ms: u64 = self.base_delay_ms;
        let mut k: usize = 1;
        proof {
            vstd::arithmetic::power2::lemma2_to64();
            assert(pow2((k - 1) as nat) == 1);
        }
        while k < attempt
            invariant
                1 <= k <= attempt,
                max == self.max_delay_ms,
                ms == self.base_delay_ms * pow2((k - 1) as nat),
                ms > 0,
            decreases attempt - k,
        {
            proof {
                vstd::arithmetic::power2::lemma_pow2_unfold(k as nat);
                let base = self.base_delay_ms as int;
                let p = pow2((k - 1) as nat) as int;
                assert(base * (2 * p) == 2 * (base * p)) by (nonlinear_arith);
            }
            if ms > max || ms > max - ms {
                proof {
                    lemma_delay_grows(*self, k as int, attempt as int);
                }
                return max;
            }
            ms = ms + ms;
            k = k + 1;
        }
        if ms <= max {
            ms
        } else {
            max
        }
    }

    /// Delay before attempt `attempt`, counted from zero.
    pub fn delay_for(&self, attempt: usize) -> (delay: Duration)
        ensures
            delay == duration_of(
                (delay_ms(*self, attempt as int) / 1000) as u64,
                (delay_ms(*self, attempt as int) % 1000 * 1_000_000) as u32,
            ),
    {
        let ms: u64 = self.delay_ms_for(attempt);
        duration_new(ms / 1000, (ms % 1000 * 1_000_000) as u32)
    }
}

/// A later attempt has at least the doubled base delay of an earlier one.
proof fn lemma_delay_grows(policy: RetryPolicy, j: int, k: int)
    requires
        1 <= j < k,
    ensures
        policy.base_delay_ms * pow2(j as nat) <= policy.base_delay_ms * pow2((k - 1) as nat),
{
    let base = policy.base_delay_ms as int;
    if j < k - 1 {
        vstd::arithmetic::power2::lemma_pow2_strictly_increases(j as nat, (k - 1) as nat);
    }
    let a = pow2(j as nat) as int;
    let b = pow2((k - 1) as nat) as int;
    assert(base * a <= base * b) by (nonlinear_arith)
        requires
            a <= b,
            base >= 0,
    ;
}

/// The delays never decrease and never exceed the largest one.
pub proof fn law_delays_grow_up_to_a_limit(policy: RetryPolicy, j: int, k: int)
    requires
        0 <= j <= k,
    ensures
        0 <= delay_ms(policy, j) <= delay_ms(policy, k) <= policy.max_delay_ms,
{
    let base = policy.base_delay_ms as int;
    if j >= 1 {
        let a = pow2((j - 1) as nat) as int;
        let b = pow2((k - 1) as nat) as int;
        if j < k {
            vstd::arithmetic::power2::lemma_pow2_strictly_increases(
                (j - 1) as nat,
                (k - 1) as nat,
            );
        }
        assert(0 <= base * a <= base * b) by (nonlinear_arith)
            requires
                0 <= a <= b,
                base >= 0,
        ;
    } else if k >= 1 {
        let b = pow2((k - 1) as nat) as int;
        assert(0 <= base * b) by (nonlinear_arith)
            requires
                0 <= b,
                base >= 0,
        ;
    }
}

/// What is handed on of a confirmed satellite.
pub open spec fn acquisition_of(result: SearchResult, cn0_mdb_hz: i32) -> AcquisitionResult {
    AcquisitionResult {
        prn: result.prn,
        doppler_mhz: result.doppler_fine_mhz,
        code_phase_samples: result.code_phase_samples,
        code_phase_microchips: result.code_phase_microchips,
        cn0_mdb_hz,
        peak_to_noise_milli: result.peak_to_noise_milli,
    }
}

/// What a verdict hands on to the tracking: something only if it is confirmed.
pub open spec fn handed_on(verdict: VerificationVerdict) -> Option<AcquisitionResult> {
    match verdict {
        VerificationVerdict::Confirmed { result, cn0_mdb_hz, elapsed_ns } => Some(
            acquisition_of(result, cn0_mdb_hz),
        ),
        _ => None,
    }
}

/// Time that a verdict has taken.
pub open spec fn elapsed_of(verdict: VerificationVerdict) -> u128 {
    match verdict {
        VerificationVerdict::Confirmed { result, cn0_mdb_hz, elapsed_ns } => elapsed_ns,
        VerificationVerdict::Marginal { result, reason, elapsed_ns } => elapsed_ns,
        VerificationVerdict::Rejected { prn, peak_to_noise_milli, elapsed_ns } => elapsed_ns,
    }
}

impl AcquisitionResult {
    /// What is handed on of a confirmed satellite.
    pub fn from_search_result(result: &SearchResult, cn0_mdb_hz: i32) -> (r: Self)
        ensures
            r == acquisition_of(*result, cn0_mdb_hz),
    {
        AcquisitionResult {
            prn: result.prn,
            doppler_mhz: result.doppler_fine_mhz,
            code_phase_samples: result.code_phase_samples,
            code_phase_microchips: result.code_phase_microchips,
            cn0_mdb_hz,
            peak_to_noise_milli: result.peak_to_noise_milli,
        }
    }
}

impl VerificationVerdict {
    /// Whether the satellite is confirmed.
    pub fn is_confirmed(&self) -> (confirmed: bool)
        ensures
            confirmed <==> self is Confirmed,
    {
        match self {
            VerificationVerdict::Confirmed { .. } => true,
            _ => false,
        }
    }

    /// What is handed on to the tracking, if the satellite is confirmed.
    pub fn acquisition_result(&self) -> (r: Option<AcquisitionResult>)
        ensures
            r == handed_on(*self),
            r is Some <==> self is Confirmed,
    {
        match self {
            VerificationVerdict::Confirmed { result, cn0_mdb_hz, .. } => Some(
                AcquisitionResult::from_search_result(result, *cn0_mdb_hz),
            ),
            _ => None,
        }
    }

    /// The search result behind the verdict, for diagnosis only.
    pub fn search_result_diagnostic(&self) -> (r: Option<&SearchResult>)
        ensures
            match *self {
                VerificationVerdict::Confirmed { result, cn0_mdb_hz, elapsed_ns } => r == Some(
                    &result,
                ),
                VerificationVerdict::Marginal { result, reason, elapsed_ns } => r == Some(&result),
                VerificationVerdict::Rejected {
                    prn,
                    peak_to_noise_milli,
                    elapsed_ns,
                } => r is None,
            },
    {
        match self {
            VerificationVerdict::Confirmed { result, .. } => Some(result),
            VerificationVerdict::Marginal { result, .. } => Some(result),
            VerificationVerdict::Rejected { .. } => None,
        }
    }

    /// Time taken, in nanoseconds.
    pub fn elapsed_ns(&self) -> (ns: u128)
        ensures
            ns == elapsed_of(*self),
    {
        match self {
            VerificationVerdict::Confirmed { elapsed_ns, .. } => *elapsed_ns,
            VerificationVerdict::Marginal { elapsed_ns, .. } => *elapsed_ns,
            VerificationVerdict::Rejected { elapsed_ns, .. } => *elapsed_ns,
        }
    }
}

/// Whether the first search calls for a second one.
pub open spec fn is_candidate(first: Option<SearchResult>) -> bool {
    first matches Some(r) && r.detected
}

/// Whether the second peak is strong enough.
pub open spec fn snr_ok(second: SearchResult, config: VerifierConfig) -> bool {
    second.peak_to_noise_milli >= config.second_pass.cfar_threshold_milli
}

/// Whether the two Doppler shifts agree.
pub open spec fn doppler_ok(
    first: SearchResult,
    second: SearchResult,
    config: VerifierConfig,
) -> bool {
    -config.doppler_tolerance_mhz <= second.doppler_fine_mhz - first.doppler_coarse_mhz
        <= config.doppler_tolerance_mhz
}

/// The verdict on the results of the two searches.
pub open spec fn verdict_on(
    prn: u8,
    first: Option<SearchResult>,
    second: Option<SearchResult>,
    cn0_mdb_hz: i32,
    config: VerifierConfig,
    elapsed_ns: u128,
) -> VerificationVerdict {
    match first {
        Some(f) if f.detected => match second {
            Some(s) if snr_ok(s, config) && doppler_ok(f, s, config) =>
                VerificationVerdict::Confirmed { result: s, cn0_mdb_hz, elapsed_ns },
            Some(s) => VerificationVerdict::Marginal {
                result: f,
                reason: if snr_ok(s, config) {
                    MarginalReason::DopplerMismatch
                } else if doppler_ok(f, s, config) {
                    MarginalReason::LowSnr
                } else {
                    MarginalReason::LowSnrAndDopplerMismatch
                },
                elapsed_ns,
            },
            None => VerificationVerdict::Marginal {
                result: f,
                reason: MarginalReason::NoResult,
                elapsed_ns,
            },
        },
        Some(f) => VerificationVerdict::Rejected {
            prn,
            peak_to_noise_milli: Some(f.peak_to_noise_milli),
            elapsed_ns,
        },
        None => VerificationVerdict::Rejected { prn, peak_to_noise_milli: None, elapsed_ns },
    }
}

impl VerifierConfig {
    /// The second search, around the candidate that the first has found; `None`
    /// when the first search calls for no second.
    pub fn narrow_search(&self, first: &Option<SearchResult>) -> (narrow: Option<SearchConfig>)
        requires
            *first matches Some(f) ==> i64::MIN <= f.doppler_coarse_mhz
                - self.second_pass.doppler_max_mhz && f.doppler_coarse_mhz
                - self.second_pass.doppler_max_mhz <= i64::MAX && i64::MIN <= f.doppler_coarse_mhz
                + self.second_pass.doppler_max_mhz && f.doppler_coarse_mhz
                + self.second_pass.doppler_max_mhz <= i64::MAX,
        ensures
            narrow is Some <==> is_candidate(*first),
            narrow matches Some(n) ==> {
                &&& n.doppler_min_mhz == first->0.doppler_coarse_mhz
                    - self.second_pass.doppler_max_mhz
                &&& n.doppler_max_mhz == first->0.doppler_coarse_mhz
                    + self.second_pass.doppler_max_mhz
                &&& n.doppler_step_mhz == self.second_pass.doppler_step_mhz
                &&& n.cfar_threshold_milli == self.second_pass.cfar_threshold_milli
                &&& n.doppler_min_mhz + n.doppler_max_mhz == 2 * first->0.doppler_coarse_mhz
                &&& n.doppler_max_mhz - n.doppler_min_mhz == 2 * self.second_pass.doppler_max_mhz
            },
    {
        match first {
            Some(f) => {
                if f.detected {
                    Some(
                        SearchConfig {
                            doppler_min_mhz: f.doppler_coarse_mhz
                                - self.second_pass.doppler_max_mhz,
                            doppler_max_mhz: f.doppler_coarse_mhz
                                + self.second_pass.doppler_max_mhz,
                            doppler_step_mhz: self.second_pass.doppler_step_mhz,
                            cfar_threshold_milli: self.second_pass.cfar_threshold_milli,
                        },
                    )
                } else {
                    None
                }
            },
            None => None,
        }
    }
}

/// The verdict on the results of the two searches for satellite `prn`. The second
/// is of no account unless the first is a candidate, and the carrier to noise
/// density, that of the second peak, unless the verdict is confirmed.
pub fn verify_prn_pure(
    prn: u8,
    first: Option<SearchResult>,
    second: Option<SearchResult>,
    cn0_mdb_hz: i32,
    config: &VerifierConfig,
    elapsed_ns: u128,
) -> (verdict: VerificationVerdict)
    ensures
        verdict == verdict_on(prn, first, second, cn0_mdb_hz, *config, elapsed_ns),
{
    let first = match first {
        Some(first) => first,
        None => {
            return VerificationVerdict::Rejected { prn, peak_to_noise_milli: None, elapsed_ns };
        },
    };
    if !first.detected {
        return VerificationVerdict::Rejected {
            prn,
            peak_to_noise_milli: Some(first.peak_to_noise_milli),
            elapsed_ns,
        };
    }
    let second = match second {
        Some(second) => second,
        None => {
            return VerificationVerdict::Marginal {
                result: first,
                reason: MarginalReason::NoResult,
                elapsed_ns,
            };
        },
    };
    let strong = second.peak_to_noise_milli >= config.second_pass.cfar_threshold_milli;
    let difference: i128 = second.doppler_fine_mhz as i128 - first.doppler_coarse_mhz as i128;
    let tolerance: i128 = config.doppler_tolerance_mhz as i128;
    let near = -tolerance <= difference && difference <= tolerance;
    if strong && near {
        return VerificationVerdict::Confirmed { result: second, cn0_mdb_hz, elapsed_ns };
    }
    let reason = if strong {
        MarginalReason::DopplerMismatch
    } else if near {
        MarginalReason::LowSnr
    } else {
        MarginalReason::LowSnrAndDopplerMismatch
    };
    VerificationVerdict::Marginal { result: first, reason, elapsed_ns }
}

/// Only what both searches have found is handed on: a satellite that is handed
/// on to the tracking was detected by the first search, and by the second with
/// sufficient strength at an agreeing Doppler shift.
pub proof fn law_only_confirmed_is_handed_on(
    prn: u8,
    first: Option<SearchResult>,
    second: Option<SearchResult>,
    cn0_mdb_hz: i32,
    config: VerifierConfig,
    elapsed_ns: u128,
)
    ensures
        handed_on(verdict_on(prn, first, second, cn0_mdb_hz, config, elapsed_ns)) is Some <==> {
            &&& is_candidate(first)
            &&& second is Some
            &&& snr_ok(second->0, config)
            &&& doppler_ok(first->0, second->0, config)
        },
{
}

/// Counters of a verifier.
#[derive(Debug, Clone, Copy)]
pub struct VerifierStats {
    /// Verifications.
    pub total_calls: u64,
    /// Confirmed satellites.
    pub confirmed: u64,
    /// Marginal verdicts.
    pub marginal: u64,
    /// Rejected satellites.
    pub rejected: u64,
    /// Verifications with at least one retry.
    pub retried: u64,
    /// Time taken by all verifications, in nanoseconds.
    pub total_elapsed_ns: u128,
}

/// The counters of a verifier, as mathematical values.
pub struct StatsModel {
    /// Verifications.
    pub total_calls: int,
    /// Confirmed satellites.
    pub confirmed: int,
    /// Marginal verdicts.
    pub marginal: int,
    /// Rejected satellites.
    pub rejected: int,
    /// Verifications with a retry.
    pub retried: int,
    /// Time taken by all verifications, in nanoseconds.
    pub elapsed_ns: int,
}

/// Counters of a verifier that has verified nothing.
pub open spec fn stats_zero() -> StatsModel {
    StatsModel { total_calls: 0, confirmed: 0, marginal: 0, rejected: 0, retried: 0, elapsed_ns: 0 }
}

/// The counters after one more verdict.
pub open spec fn stats_record(
    m: StatsModel,
    verdict: VerificationVerdict,
    retried: bool,
) -> StatsModel {
    StatsModel {
        total_calls: m.total_calls + 1,
        confirmed: m.confirmed + if verdict is Confirmed {
            1int
        } else {
            0int
        },
        marginal: m.marginal + if verdict is Marginal {
            1int
        } else {
            0int
        },
        rejected: m.rejected + if verdict is Rejected {
            1int
        } else {
            0int
        },
        retried: m.retried + if retried {
            1int
        } else {
            0int
        },
        elapsed_ns: m.elapsed_ns + elapsed_of(verdict),
    }
}

/// The sum of the counters of two verifiers.
pub open spec fn stats_sum(a: StatsModel, b: StatsModel) -> StatsModel {
    StatsModel {
        total_calls: a.total_calls + b.total_calls,
        confirmed: a.confirmed + b.confirmed,
        marginal: a.marginal + b.marginal,
        rejected: a.rejected + b.rejected,
        retried: a.retried + b.retried,
        elapsed_ns: a.elapsed_ns + b.elapsed_ns,
    }
}

/// Whether counters fit into their words.
pub open spec fn stats_fit(m: StatsModel) -> bool {
    &&& m.total_calls <= u64::MAX
    &&& m.confirmed <= u64::MAX
    &&& m.marginal <= u64::MAX
    &&& m.rejected <= u64::MAX
    &&& m.retried <= u64::MAX
    &&& m.elapsed_ns <= u128::MAX
}

/// Whether every verification has one outcome.
pub open spec fn stats_balanced(m: StatsModel) -> bool {
    m.total_calls == m.confirmed + m.marginal + m.rejected
}

/// Every verification is counted under one outcome: this holds at first and is
/// kept by counting a verdict and by adding the counters of another verifier.
pub proof fn law_outcomes_add_up(
    m: StatsModel,
    other: StatsModel,
    verdict: VerificationVerdict,
    retried: bool,
)
    requires
        stats_balanced(m),
        stats_balanced(other),
    ensures
        stats_balanced(stats_zero()),
        stats_balanced(stats_record(m, verdict, retried)),
        stats_balanced(stats_sum(m, other)),
{
}

impl Default for VerifierStats {
    fn default() -> (stats: Self)
        ensures
            stats@ == stats_zero(),
    {
        VerifierStats {
            total_calls: 0,
            confirmed: 0,
            marginal: 0,
            rejected: 0,
            retried: 0,
            total_elapsed_ns: 0,
        }
    }
}

impl VerifierStats {
    /// The counters, as mathematical values.
    pub open spec fn view(&self) -> StatsModel {
        StatsModel {
            total_calls: self.total_calls as int,
            confirmed: self.confirmed as int,
            marginal: self.marginal as int,
            rejected: self.rejected as int,
            retried: self.retried as int,
            elapsed_ns: self.total_elapsed_ns as int,
        }
    }

    /// Marginal verdicts among those that passed the first search, as numerator
    /// and denominator; zero of one when there was none.
    pub fn marginal_rate(&self) -> (rate: (u64, u128))
        ensures
            rate.1 > 0,
            rate.0 <= rate.1,
            self@.confirmed + self@.marginal == 0 ==> rate == (0u64, 1u128),
            self@.confirmed + self@.marginal > 0 ==> rate.0 == self@.marginal && rate.1
                == self@.confirmed + self@.marginal,
    {
        let denominator: u128 = self.confirmed as u128 + self.marginal as u128;
        if denominator == 0 {
            (0, 1)
        } else {
            (self.marginal, denominator)
        }
    }

    /// Another name of [`VerifierStats::marginal_rate`].
    pub fn false_alarm_rate(&self) -> (rate: (u64, u128))
        ensures
            rate.1 > 0,
            rate.0 <= rate.1,
            self@.confirmed + self@.marginal == 0 ==> rate == (0u64, 1u128),
            self@.confirmed + self@.marginal > 0 ==> rate.0 == self@.marginal && rate.1
                == self@.confirmed + self@.marginal,
    {
        self.marginal_rate()
    }

    /// Mean time of a verification, in whole nanoseconds; zero when there was
    /// none. Of a mean beyond 64 bits the low ones count.
    pub fn mean_elapsed(&self) -> (mean: Duration)
        ensures
            mean == ({
                let ns = if self@.total_calls == 0 {
                    0
                } else {
                    (self@.elapsed_ns / self@.total_calls) % 0x1_0000_0000_0000_0000
                };
                duration_of((ns / 1_000_000_000) as u64, (ns % 1_000_000_000) as u32)
            }),
    {
        if self.total_calls == 0 {
            return duration_new(0, 0);
        }
        let mean: u128 = self.total_elapsed_ns / self.total_calls as u128;
        let ns: u64 = (mean % 0x1_0000_0000_0000_0000) as u64;
        duration_new(ns / 1_000_000_000, (ns % 1_000_000_000) as u32)
    }

    /// Counts a verdict.
    pub fn record(&mut self, verdict: &VerificationVerdict, retried: bool)
        requires
            stats_fit(stats_record(old(self)@, *verdict, retried)),
        ensures
            final(self)@ == stats_record(old(self)@, *verdict, retried),
    {
        self.total_calls = self.total_calls + 1;
        if retried {
            self.retried = self.retried + 1;
        }
        self.total_elapsed_ns = self.total_elapsed_ns + verdict.elapsed_ns();
        match verdict {
            VerificationVerdict::Confirmed { .. } => {
                self.confirmed = self.confirmed + 1;
            },
            VerificationVerdict::Marginal { .. } => {
                self.marginal = self.marginal + 1;
            },
            VerificationVerdict::Rejected { .. } => {
                self.rejected = self.rejected + 1;
            },
        }
    }

    /// Adds the counters of another verifier.
    pub fn merge(&mut self, other: &VerifierStats)
        requires
            stats_fit(stats_sum(old(self)@, other@)),
        ensures
            final(self)@ == stats_sum(old(self)@, other@),
    {
        self.total_calls = self.total_calls + other.total_calls;
        self.confirmed = self.confirmed + other.confirmed;
        self.marginal = self.marginal + other.marginal;
        self.rejected = self.rejected + other.rejected;
        self.retried = self.retried + other.retried;
        self.total_elapsed_ns = self.total_elapsed_ns + other.total_elapsed_ns;
    }
}

/// What follows an attempt to verify a satellite.
#[derive(Debug, Clone, Copy, PartialEq, Eq, Structural)]
pub enum RetryAction {
    /// The verdict stands.
    Finish,
    /// Try again.
    Retry {
        /// Number of the next attempt, counted from zero.
        attempt: usize,
        /// Delay before it, in milliseconds.
        delay_ms: u64,
    },
}

/// Verification of satellites with retries, and its counters.
pub struct AcquisitionVerifier {
    /// Configuration.
    pub config: VerifierConfig,
    /// Counters.
    pub stats: VerifierStats,
}

/// Whether a verdict after attempt `attempt` is followed by another attempt.
pub open spec fn retries(
    policy: RetryPolicy,
    attempt: int,
    verdict: VerificationVerdict,
) -> bool {
    verdict is Rejected && attempt + 1 < policy.max_attempts
}

impl AcquisitionVerifier {
    /// A verifier that has verified nothing.
    pub fn new(config: VerifierConfig) -> (v: Self)
        ensures
            v.config == config,
            v.stats@ == stats_zero(),
    {
        AcquisitionVerifier { config, stats: VerifierStats::default() }
    }

    /// Takes the verdict of attempt `attempt`, counted from zero. A rejected
    /// satellite is tried again while attempts are left; any other verdict, and
    /// that of the last attempt, stands and is counted.
    pub fn after_attempt(&mut self, attempt: usize, verdict: &VerificationVerdict) -> (action:
        RetryAction)
        requires
            attempt < old(self).config.retry.max_attempts,
            retries(old(self).config.retry, attempt as int, *verdict) || stats_fit(
                stats_record(old(self).stats@, *verdict, attempt > 0),
            ),
        ensures
            final(self).config == old(self).config,
            action is Retry <==> *verdict is Rejected && attempt + 1 < old(
                self,
            ).config.retry.max_attempts,
            retries(old(self).config.retry, attempt as int, *verdict) ==> {
                &&& action == (RetryAction::Retry {
                    attempt: (attempt + 1) as usize,
                    delay_ms: delay_ms(old(self).config.retry, attempt + 1) as u64,
                })
                &&& final(self).stats == old(self).stats
            },
            !retries(old(self).config.retry, attempt as int, *verdict) ==> {
                &&& action == RetryAction::Finish
                &&& final(self).stats@ == stats_record(old(self).stats@, *verdict, attempt > 0)
            },
    {
        let rejected = match verdict {
            VerificationVerdict::Rejected { .. } => true,
            _ => false,
        };
        if rejected && attempt + 1 < self.config.retry.max_attempts {
            let next: usize = attempt + 1;
            RetryAction::Retry { attempt: next, delay_ms: self.config.retry.delay_ms_for(next) }
        } else {
            self.stats.record(verdict, attempt > 0);
            RetryAction::Finish
        }
    }

    /// Clears the counters.
    pub fn reset_stats(&mut self)
        ensures
            final(self).config == old(self).config,
            final(self).stats@ == stats_zero(),
    {
        self.stats = VerifierStats::default();
    }

    /// Adds counters gathered elsewhere.
    pub fn absorb_stats(&mut self, other: &VerifierStats)
        requires
            stats_fit(stats_sum(old(self).stats@, other@)),
        ensures
            final(self).config == old(self).config,
            final(self).stats@ == stats_sum(old(self).stats@, other@),
    {
        self.stats.merge(other);
    }
}

/// The verdict that stands of a row of attempts: the first that is not rejected,
/// or the last that is allowed.
pub open spec fn standing_attempt(
    policy: RetryPolicy,
    attempts: Seq<VerificationVerdict>,
    k: int,
) -> int
    decreases attempts.len() - k,
{
    if 0 <= k < attempts.len() && retries(policy, k, attempts[k]) {
        standing_attempt(policy, attempts, k + 1)
    } else {
        k
    }
}

/// A verification ends: no more attempts are made than the policy allows, the
/// attempts before the last were all rejected, and the last was not or there
/// was none left.
pub proof fn law_attempts_are_bounded(policy: RetryPolicy, attempts: Seq<VerificationVerdict>)
    requires
        1 <= policy.max_attempts <= attempts.len(),
    ensures
        ({
            let last = standing_attempt(policy, attempts, 0);
            &&& 0 <= last < policy.max_attempts
            &&& forall|k: int| 0 <= k < last ==> (#[trigger] attempts[k]) is Rejected
            &&& !(attempts[last] is Rejected) || last == policy.max_attempts - 1
        }),
{
    lemma_standing_attempt(policy, attempts, 0);
}

proof fn lemma_standing_attempt(policy: RetryPolicy, attempts: Seq<VerificationVerdict>, k: int)
    requires
        0 <= k < policy.max_attempts <= attempts.len(),
    ensures
        ({
            let last = standing_attempt(policy, attempts, k);
            &&& k <= last < policy.max_attempts
            &&& forall|j: int| k <= j < last ==> (#[trigger] attempts[j]) is Rejected
            &&& !(attempts[last] is Rejected) || last == policy.max_attempts - 1
        }),
    decreases policy.max_attempts - k,
{
    if retries(policy, k, attempts[k]) {
        lemma_standing_attempt(policy, attempts, k + 1);
    }
}

impl Ranked for AcquisitionResult {
    open spec fn key(&self) -> int {
        self.cn0_mdb_hz as int
    }

    fn rank(&self) -> (k: i128) {
        self.cn0_mdb_hz as i128
    }
}

/// Confirmed satellites and the counters of their verification.
#[derive(Debug)]
pub struct ParallelVerifyOutput {
    /// Confirmed satellites, strongest first.
    pub results: Vec<AcquisitionResult>,
    /// Counters.
    pub stats: VerifierStats,
}

/// What verdicts hand on to the tracking, in order.
pub open spec fn all_handed_on(verdicts: Seq<VerificationVerdict>) -> Seq<AcquisitionResult>
    decreases verdicts.len(),
{
    if verdicts.len() == 0 {
        Seq::empty()
    } else {
        let head = all_handed_on(verdicts.drop_last());
        match handed_on(verdicts.last()) {
            Some(r) => head.push(r),
            None => head,
        }
    }
}

/// The counters after verdicts without retries.
pub open spec fn all_recorded(verdicts: Seq<VerificationVerdict>) -> StatsModel
    decreases verdicts.len(),
{
    if verdicts.len() == 0 {
        stats_zero()
    } else {
        stats_record(all_recorded(verdicts.drop_last()), verdicts.last(), false)
    }
}

/// Gathers the confirmed satellites, strongest first.
pub fn confirmed_strongest_first(verdicts: &[VerificationVerdict]) -> (results: Vec<
    AcquisitionResult,
>)
    ensures
        results@ == ranked(all_handed_on(verdicts@)),
        descending(results@),
{
    let mut results: Vec<AcquisitionResult> = Vec::new();
    let mut i: usize = 0;
    while i < verdicts.len()
        invariant
            i <= verdicts@.len(),
            results@ == all_handed_on(verdicts@.take(i as int)),
        decreases verdicts@.len() - i,
    {
        assert(verdicts@.take(i + 1).drop_last() =~= verdicts@.take(i as int));
        match verdicts[i].acquisition_result() {
            Some(r) => {
                results.push(r);
            },
            None => {},
        }
        i = i + 1;
    }
    assert(verdicts@.take(i as int) =~= verdicts@);
    rank_descending(&results)
}

/// Gathers the verdicts of verifications that were run at the same time, one per
/// satellite and without retries.
pub fn gather_verdicts(verdicts: &[VerificationVerdict]) -> (output: ParallelVerifyOutput)
    requires
        all_recorded(verdicts@).elapsed_ns <= u128::MAX,
    ensures
        output.results@ == ranked(all_handed_on(verdicts@)),
        descending(output.results@),
        output.stats@ == all_recorded(verdicts@),
{
    let mut stats = VerifierStats::default();
    let mut i: usize = 0;
    while i < verdicts.len()
        invariant
            i <= verdicts@.len(),
            all_recorded(verdicts@).elapsed_ns <= u128::MAX,
            stats@ == all_recorded(verdicts@.take(i as int)),
            stats@.total_calls == i,
            stats_balanced(stats@),
            stats@.retried == 0,
        decreases verdicts@.len() - i,
    {
        assert(verdicts@.take(i + 1).drop_last() =~= verdicts@.take(i as int));
        proof {
            lemma_elapsed_grows(verdicts@, i + 1);
        }
        stats.record(&verdicts[i], false);
        i = i + 1;
    }
    assert(verdicts@.take(i as int) =~= verdicts@);
    ParallelVerifyOutput { results: confirmed_strongest_first(verdicts), stats }
}

/// The time counted grows with the verdicts.
proof fn lemma_elapsed_grows(verdicts: Seq<VerificationVerdict>, k: int)
    requires
        0 <= k <= verdicts.len(),
    ensures
        all_recorded(verdicts.take(k)).elapsed_ns <= all_recorded(verdicts).elapsed_ns,
    decreases verdicts.len(),
{
    if k == verdicts.len() {
        assert(verdicts.take(k) =~= verdicts);
    } else {
        lemma_elapsed_grows(verdicts.drop_last(), k);
        assert(verdicts.drop_last().take(k) =~= verdicts.take(k));
    }
}

/// The delays double: none before the first attempt, the base delay before the
/// second, and before each later one twice that before the last; the largest delay
/// where that would be more.
pub proof fn law_delays_double(policy: RetryPolicy, k: int)
    requires
        1 <= k,
    ensures
        delay_ms(policy, 0) == 0,
        delay_ms(policy, 1) == if policy.base_delay_ms <= policy.max_delay_ms {
            policy.base_delay_ms
        } else {
            policy.max_delay_ms
        },
        delay_ms(policy, k + 1) == if 2 * delay_ms(policy, k) <= policy.max_delay_ms {
            2 * delay_ms(policy, k)
        } else {
            policy.max_delay_ms as int
        },
{
    vstd::arithmetic::power2::lemma2_to64();
    assert(policy.base_delay_ms * pow2(0) == policy.base_delay_ms);
    assert((1 - 1) as nat == 0);
    vstd::arithmetic::power2::lemma_pow2_unfold(k as nat);
    let base = policy.base_delay_ms as int;
    let p = pow2((k - 1) as nat) as int;
    assert(pow2((k + 1 - 1) as nat) == 2 * p);
    assert(base * (2 * p) == 2 * (base * p)) by (nonlinear_arith);
}

/// A satellite is confirmed exactly when the first search has detected it and the
/// second has found a peak that reaches the threshold of the second search, at a
/// Doppler shift no farther from the first than the tolerance, in either direction.
/// The reason that is given for a candidate that is not confirmed is true of it.
pub proof fn law_confirmed_means_found_twice(
    prn: u8,
    first: Option<SearchResult>,
    second: Option<SearchResult>,
    cn0_mdb_hz: i32,
    config: VerifierConfig,
    elapsed_ns: u128,
)
    ensures
        ({
            let verdict = verdict_on(prn, first, second, cn0_mdb_hz, config, elapsed_ns);
            let candidate = first is Some && first->0.detected;
            let strong = second->0.peak_to_noise_milli >= config.second_pass.cfar_threshold_milli;
            let apart = second->0.doppler_fine_mhz - first->0.doppler_coarse_mhz;
            let near = apart <= config.doppler_tolerance_mhz && -apart
                <= config.doppler_tolerance_mhz;
            &&& verdict is Rejected <==> !candidate
            &&& verdict is Confirmed <==> candidate && second is Some && strong && near
            &&& verdict is Marginal ==> {
                &&& verdict->Marginal_result == first->0
                &&& verdict->reason == MarginalReason::NoResult <==> second is None
                &&& second is Some ==> (verdict->reason == MarginalReason::LowSnr <==> !strong
                    && near)
                &&& second is Some ==> (verdict->reason == MarginalReason::DopplerMismatch <==> strong
                    && !near)
                &&& second is Some ==> (verdict->reason == MarginalReason::LowSnrAndDopplerMismatch
                    <==> !strong && !near)
            }
            &&& verdict is Confirmed ==> verdict->Confirmed_result == second->0
                && verdict->cn0_mdb_hz == cn0_mdb_hz
            &&& verdict is Rejected ==> verdict->prn == prn && (verdict->peak_to_noise_milli is Some
                <==> first is Some)
            &&& verdict is Rejected && first is Some ==> verdict->peak_to_noise_milli == Some(
                first->0.peak_to_noise_milli,
            )
            &&& elapsed_of(verdict) == elapsed_ns
        }),
{
}

/// What is handed on to the tracking is what the second search has found: its
/// satellite, its interpolated Doppler shift, its code phase and its strength.
pub proof fn law_second_search_is_handed_on(
    prn: u8,
    first: Option<SearchResult>,
    second: Option<SearchResult>,
    cn0_mdb_hz: i32,
    config: VerifierConfig,
    elapsed_ns: u128,
)
    ensures
        handed_on(verdict_on(prn, first, second, cn0_mdb_hz, config, elapsed_ns)) matches Some(r)
            ==> {
            &&& second is Some
            &&& r.prn == second->0.prn
            &&& r.doppler_mhz == second->0.doppler_fine_mhz
            &&& r.code_phase_samples == second->0.code_phase_samples
            &&& r.code_phase_microchips == second->0.code_phase_microchips
            &&& r.peak_to_noise_milli == second->0.peak_to_noise_milli
            &&& r.cn0_mdb_hz == cn0_mdb_hz
        },
{
}

/// A verdict is counted once under its outcome and its time is added; merging adds
/// every counter, whichever of the two comes first.
pub proof fn law_verdict_is_counted(
    m: StatsModel,
    other: StatsModel,
    verdict: VerificationVerdict,
    retried: bool,
)
    ensures
        ({
            let after = stats_record(m, verdict, retried);
            &&& after.total_calls == m.total_calls + 1
            &&& verdict is Confirmed ==> after.confirmed == m.confirmed + 1 && after.marginal
                == m.marginal && after.rejected == m.rejected
            &&& verdict is Marginal ==> after.confirmed == m.confirmed && after.marginal
                == m.marginal + 1 && after.rejected == m.rejected
            &&& verdict is Rejected ==> after.confirmed == m.confirmed && after.marginal
                == m.marginal && after.rejected == m.rejected + 1
            &&& retried ==> after.retried == m.retried + 1
            &&& !retried ==> after.retried == m.retried
            &&& after.elapsed_ns == m.elapsed_ns + elapsed_of(verdict)
        }),
        stats_sum(m, other) == stats_sum(other, m),
        stats_sum(m, stats_zero()) == m,
        stats_sum(stats_record(m, verdict, retried), other) == stats_record(
            stats_sum(m, other),
            verdict,
            retried,
        ),
{
}

/// What is handed on of a row of verdicts is what its confirmed ones hand on: as many
/// satellites as confirmed verdicts are counted, and nothing that none of them hands
/// on.
pub proof fn law_every_confirmed_satellite_is_handed_on(verdicts: Seq<VerificationVerdict>)
    ensures
        all_recorded(verdicts).total_calls == verdicts.len(),
        all_recorded(verdicts).retried == 0,
        all_handed_on(verdicts).len() == all_recorded(verdicts).confirmed,
        forall|r: AcquisitionResult| #[trigger]
            all_handed_on(verdicts).contains(r) ==> exists|k: int|
                0 <= k < verdicts.len() && (#[trigger] verdicts[k]) is Confirmed && handed_on(
                    verdicts[k],
                ) == Some(r),
        forall|k: int|
            0 <= k < verdicts.len() && (#[trigger] verdicts[k]) is Confirmed ==> all_handed_on(
                verdicts,
            ).contains(handed_on(verdicts[k])->0),
    decreases verdicts.len(),
{
    if verdicts.len() > 0 {
        let rest = verdicts.drop_last();
        let last = verdicts.last();
        law_every_confirmed_satellite_is_handed_on(rest);
        let all = all_handed_on(verdicts);
        let head = all_handed_on(rest);
        assert forall|r: AcquisitionResult| #[trigger] all.contains(r) implies exists|k: int|
            0 <= k < verdicts.len() && (#[trigger] verdicts[k]) is Confirmed && handed_on(
                verdicts[k],
            ) == Some(r) by {
            let i = all.index_of(r);
            if i < head.len() {
                assert(head[i] == r);
                assert(head.contains(r));
                let k = choose|k: int|
                    0 <= k < rest.len() && (#[trigger] rest[k]) is Confirmed && handed_on(rest[k])
                        == Some(r);
                assert(verdicts[k] == rest[k]);
            } else {
                assert(verdicts[verdicts.len() - 1] == last);
            }
        }
        assert forall|k: int| 0 <= k < verdicts.len() && (#[trigger] verdicts[k]) is Confirmed implies
            all.contains(handed_on(verdicts[k])->0) by {
            if k < rest.len() {
                assert(rest[k] == verdicts[k]);
                let i = head.index_of(handed_on(rest[k])->0);
                assert(head.contains(handed_on(rest[k])->0));
                assert(all[i] == head[i]);
            } else {
                assert(all[all.len() - 1] == handed_on(last)->0);
            }
        }
    }
}

} // verus!
