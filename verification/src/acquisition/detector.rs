//! Decision on a correlation peak: its height above the noise and its strongest
//! rival.
//!
//! Ratios are in thousandths; powers are order keys, as in
//! [`fft_search`](crate::acquisition::fft_search).

use vstd::prelude::*;

verus! {

/// Decision on a peak.
#[derive(Debug, Clone, Copy, PartialEq, Eq)]
pub enum DetectionVerdict {
    /// The peak is a signal.
    Detected {
        /// Confidence, in thousandths.
        confidence_milli: u64,
    },
    /// The peak is too low.
    BelowThreshold {
        /// Ratio of peak to noise.
        peak_to_noise_milli: u64,
        /// Smallest ratio that would do.
        threshold_milli: u64,
    },
    /// The peak is high enough but has a rival.
    FalseAlarm {
        /// Why the peak does not count.
        reason: &'static str,
    },
}

/// Configuration of a detector.
#[derive(Debug, Clone, Copy, PartialEq, Eq, Structural)]
pub struct DetectorConfig {
    /// Smallest ratio of peak to noise.
    pub cfar_threshold_milli: u64,
    /// Smallest number of Doppler trials for an interpolated shift.
    pub min_doppler_bins_for_fine: usize,
    /// Largest ratio of the second peak to the first.
    pub second_peak_ratio_limit_milli: u64,
    /// Number of samples around the peak that belong to it.
    pub second_peak_exclusion: usize,
}

impl Default for DetectorConfig {
    fn default() -> (config: Self)
        ensures
            config.cfar_threshold_milli == 3000,
            config.min_doppler_bins_for_fine == 3,
            config.second_peak_ratio_limit_milli == 500,
            config.second_peak_exclusion == 10,
    {
        DetectorConfig {
            cfar_threshold_milli: 3000,
            min_doppler_bins_for_fine: 3,
            second_peak_ratio_limit_milli: 500,
            second_peak_exclusion: 10,
        }
    }
}

/// Distance of two integers.
pub open spec fn gap(a: int, b: int) -> int {
    if a >= b {
        a - b
    } else {
        b - a
    }
}

/// Whether sample `i` of `n` lies outside the zone of `excluded` samples around
/// the peak, on the circle of code phases.
pub open spec fn outside_zone(i: int, main_peak: int, n: int, excluded: int) -> bool {
    gap(i, main_peak) > excluded && gap(n, gap(i, main_peak)) > excluded
}

/// Whether `power` is that of the strongest cell outside the zone around the
/// peak, or zero where there is none.
pub open spec fn is_second_peak(
    surface: Seq<u32>,
    main_peak: int,
    excluded: int,
    power: u32,
) -> bool {
    let n = surface.len() as int;
    &&& forall|i: int|
        0 <= i < n && outside_zone(i, main_peak, n, excluded) ==> #[trigger] surface[i] <= power
    &&& power > 0 ==> exists|i: int|
        0 <= i < n && outside_zone(i, main_peak, n, excluded) && #[trigger] surface[i] == power
}

/// Confidence in a peak, in thousandths: one half at the threshold, rising to
/// one at five times the threshold; without a threshold always one.
pub open spec fn confidence_of(peak_to_noise_milli: int, threshold_milli: int) -> int {
    let ramp = 500 + 500 * (peak_to_noise_milli - threshold_milli) / (4 * threshold_milli);
    if threshold_milli > 0 && ramp <= 1000 {
        ramp
    } else {
        1000
    }
}

/// The decision on a peak.
pub open spec fn decision_on(
    config: DetectorConfig,
    peak_to_noise_milli: u64,
    second_ratio_milli: Option<u64>,
) -> DetectionVerdict {
    if peak_to_noise_milli < config.cfar_threshold_milli {
        DetectionVerdict::BelowThreshold {
            peak_to_noise_milli,
            threshold_milli: config.cfar_threshold_milli,
        }
    } else if second_ratio_milli matches Some(r) && r > config.second_peak_ratio_limit_milli {
        DetectionVerdict::FalseAlarm { reason: "second peak too close to main peak" }
    } else {
        DetectionVerdict::Detected {
            confidence_milli: confidence_of(
                peak_to_noise_milli as int,
                config.cfar_threshold_milli as int,
            ) as u64,
        }
    }
}

impl DetectionVerdict {
    /// Whether the peak is a signal.
    pub fn is_detected(&self) -> (detected: bool)
        ensures
            detected <==> self is Detected,
    {
        match self {
            DetectionVerdict::Detected { .. } => true,
            _ => false,
        }
    }

    /// Confidence in the peak, in thousandths; zero unless it is a signal.
    pub fn confidence(&self) -> (confidence_milli: u64)
        ensures
            confidence_milli == match *self {
                DetectionVerdict::Detected { confidence_milli } => confidence_milli,
                _ => 0,
            },
    {
        match self {
            DetectionVerdict::Detected { confidence_milli } => *confidence_milli,
            _ => 0,
        }
    }
}

/// Decides on correlation peaks.
pub struct Detector {
    /// Configuration.
    pub config: DetectorConfig,
}

impl Detector {
    /// A detector.
    pub fn new(config: DetectorConfig) -> (d: Self)
        ensures
            d.config == config,
    {
        Detector { config }
    }

    /// A detector with the default configuration.
    pub fn with_defaults() -> (d: Self)
        ensures
            d.config.cfar_threshold_milli == 3000,
            d.config.min_doppler_bins_for_fine == 3,
            d.config.second_peak_ratio_limit_milli == 500,
            d.config.second_peak_exclusion == 10,
    {
        Self::new(DetectorConfig::default())
    }

    /// Power of the strongest cell outside the zone around the peak.
    pub fn find_second_peak(&self, surface: &[u32], main_peak: usize) -> (power: u32)
        ensures
            is_second_peak(
                surface@,
                main_peak as int,
                self.config.second_peak_exclusion as int,
                power,
            ),
    {
        let n: usize = surface.len();
        let excluded: usize = self.config.second_peak_exclusion;
        let mut power: u32 = 0;
        let ghost mut witness: int = 0;
        let mut i: usize = 0;
        while i < n
            invariant
                i <= n,
                n == surface@.len(),
                excluded == self.config.second_peak_exclusion,
                forall|j: int|
                    0 <= j < i && outside_zone(j, main_peak as int, n as int, excluded as int)
                        ==> #[trigger] surface@[j] <= power,
                power > 0 ==> 0 <= witness < i && outside_zone(
                    witness,
                    main_peak as int,
                    n as int,
                    excluded as int,
                ) && surface@[witness] == power,
            decreases n - i,
        {
            let distance: usize = if i >= main_peak {
                i - main_peak
            } else {
                main_peak - i
            };
            let around: usize = if n >= distance {
                n - distance
            } else {
                distance - n
            };
            if distance > excluded && around > excluded && surface[i] > power {
                power = surface[i];
                proof {
                    witness = i as int;
                }
            }
            i = i + 1;
        }
        power
    }

    /// Decides on a peak, given its ratio to the noise, and the ratio of the
    /// second peak to it where there is a second peak.
    pub fn evaluate(&self, peak_to_noise_milli: u64, second_ratio_milli: Option<u64>) -> (verdict:
        DetectionVerdict)
        ensures
            verdict == decision_on(self.config, peak_to_noise_milli, second_ratio_milli),
    {
        let threshold: u64 = self.config.cfar_threshold_milli;
        if peak_to_noise_milli < threshold {
            return DetectionVerdict::BelowThreshold {
                peak_to_noise_milli,
                threshold_milli: threshold,
            };
        }
        match second_ratio_milli {
            Some(ratio) => {
                if ratio > self.config.second_peak_ratio_limit_milli {
                    return DetectionVerdict::FalseAlarm {
                        reason: "second peak too close to main peak",
                    };
                }
            },
            None => {},
        }
        if threshold == 0 {
            return DetectionVerdict::Detected { confidence_milli: 1000 };
        }
        let excess: u128 = 500 * (peak_to_noise_milli - threshold) as u128;
        let ramp: u128 = 500 + excess / (4 * threshold as u128);
        let confidence_milli: u64 = if ramp <= 1000 {
            ramp as u64
        } else {
            1000
        };
        DetectionVerdict::Detected { confidence_milli }
    }
}

/// A detection is never doubtful: its confidence lies between one half and one.
pub proof fn law_confidence_of_a_detection(
    config: DetectorConfig,
    peak_to_noise_milli: u64,
    second_ratio_milli: Option<u64>,
)
    ensures
        decision_on(config, peak_to_noise_milli, second_ratio_milli)
            matches DetectionVerdict::Detected { confidence_milli } ==> 500 <= confidence_milli
            <= 1000,
{
    if peak_to_noise_milli >= config.cfar_threshold_milli && config.cfar_threshold_milli > 0 {
        let d = 4 * config.cfar_threshold_milli;
        let x = 500 * (peak_to_noise_milli - config.cfar_threshold_milli);
        vstd::arithmetic::div_mod::lemma_div_pos_is_pos(x, d);
    }
}

/// Number of cells that a trimmed mean keeps of `len`, when a fraction of them,
/// in thousandths, is left out; at least one.
pub fn kept_cells(len: usize, trim_milli: u32) -> (kept: usize)
    ensures
        kept == ({
            let trimmed = len * (if trim_milli <= 1000 {
                trim_milli as int
            } else {
                1000
            }) / 1000;
            if len - trimmed >= 1 {
                len - trimmed
            } else {
                1
            }
        }),
        kept >= 1,
        trim_milli <= 1000 && kept > 1 ==> 1000 * (kept - 1) < len * (1000 - trim_milli) <= 1000
            * kept,
        trim_milli >= 1000 ==> kept == 1,
{
    let fraction: u128 = if trim_milli <= 1000 {
        trim_milli as u128
    } else {
        1000
    };
    assert(0 <= len * fraction <= len * 1000) by (nonlinear_arith)
        requires
            0 <= fraction <= 1000,
            0 <= len,
    ;
    assert(len * (1000 - fraction) == len * 1000 - len * fraction) by (nonlinear_arith);
    let trimmed: u128 = len as u128 * fraction / 1000;
    let kept: u128 = len as u128 - trimmed;
    if kept >= 1 {
        kept as usize
    } else {
        1
    }
}

/// The zone around the peak is a stretch of the circle of code phases: a sample lies
/// in it exactly when it is reached from the peak in at most `excluded` steps in
/// either direction, past the end of the code too.
pub proof fn law_zone_is_a_stretch_of_the_circle(
    i: int,
    main_peak: int,
    n: int,
    excluded: int,
    steps: int,
)
    requires
        0 <= i < n,
        0 <= main_peak < n,
        0 <= excluded,
    ensures
        -excluded <= steps <= excluded && (main_peak + steps) % n == i ==> !outside_zone(
            i,
            main_peak,
            n,
            excluded,
        ),
        !outside_zone(i, main_peak, n, excluded) ==> exists|k: int|
            -excluded <= k <= excluded && #[trigger] ((main_peak + k) % n) == i,
{
    if -excluded <= steps <= excluded && (main_peak + steps) % n == i {
        let q = (main_peak + steps) / n;
        vstd::arithmetic::div_mod::lemma_fundamental_div_mod(main_peak + steps, n);
        assert(q == 0 || gap(n, gap(i, main_peak)) <= excluded) by {
            if q > 0 {
                assert(n * q >= n) by (nonlinear_arith)
                    requires
                        q >= 1,
                        n > 0,
                ;
            } else if q < 0 {
                assert(n * q <= -n) by (nonlinear_arith)
                    requires
                        q <= -1,
                        n > 0,
                ;
            }
        }
        assert(q == 0 ==> n * q == 0) by (nonlinear_arith);
    }
    if !outside_zone(i, main_peak, n, excluded) {
        let d = i - main_peak;
        if gap(i, main_peak) <= excluded {
            vstd::arithmetic::div_mod::lemma_small_mod(i as nat, n as nat);
            assert((main_peak + d) % n == i);
        } else if d > 0 {
            vstd::arithmetic::div_mod::lemma_fundamental_div_mod_converse(
                main_peak + (d - n),
                n,
                -1,
                i,
            );
            assert((main_peak + (d - n)) % n == i);
        } else {
            vstd::arithmetic::div_mod::lemma_fundamental_div_mod_converse(
                main_peak + (d + n),
                n,
                1,
                i,
            );
            assert((main_peak + (d + n)) % n == i);
        }
    }
}

/// The confidence rises in a straight line, from one half at the threshold to one at
/// five times the threshold, and stays at one from there on; a higher peak is never
/// trusted less.
pub proof fn law_confidence_rises_with_the_peak(
    peak_to_noise_milli: int,
    higher_milli: int,
    threshold_milli: int,
)
    requires
        0 < threshold_milli <= peak_to_noise_milli <= higher_milli,
    ensures
        ({
            let c = confidence_of(peak_to_noise_milli, threshold_milli);
            &&& 500 <= c <= 1000
            &&& peak_to_noise_milli <= 5 * threshold_milli ==> 4 * threshold_milli * (c - 500)
                <= 500 * (peak_to_noise_milli - threshold_milli) < 4 * threshold_milli * (c - 499)
            &&& peak_to_noise_milli >= 5 * threshold_milli ==> c == 1000
            &&& c <= confidence_of(higher_milli, threshold_milli)
        }),
{
    let d = 4 * threshold_milli;
    let x = 500 * (peak_to_noise_milli - threshold_milli);
    let y = 500 * (higher_milli - threshold_milli);
    let q = x / d;
    vstd::arithmetic::div_mod::lemma_fundamental_div_mod(x, d);
    vstd::arithmetic::div_mod::lemma_mod_bound(x, d);
    vstd::arithmetic::div_mod::lemma_div_is_ordered(x, y, d);
    vstd::arithmetic::div_mod::lemma_div_pos_is_pos(x, d);
    assert(x <= 500 * d ==> q <= 500) by (nonlinear_arith)
        requires
            d * q <= x,
            d > 0,
    ;
    assert(x >= 500 * d ==> q >= 500) by (nonlinear_arith)
        requires
            x < d * q + d,
            d > 0,
    ;
    assert(d * (q + 1) == d * q + d) by (nonlinear_arith);
}

/// A peak counts as a signal exactly when it reaches the threshold and no rival
/// exceeds the limit; the reason that is given for the others is true of them.
pub proof fn law_signal_is_high_and_alone(
    config: DetectorConfig,
    peak_to_noise_milli: u64,
    second_ratio_milli: Option<u64>,
)
    ensures
        ({
            let verdict = decision_on(config, peak_to_noise_milli, second_ratio_milli);
            let high = config.cfar_threshold_milli <= peak_to_noise_milli;
            let alone = second_ratio_milli is None || second_ratio_milli->0
                <= config.second_peak_ratio_limit_milli;
            &&& verdict is Detected <==> high && alone
            &&& verdict is BelowThreshold <==> !high
            &&& verdict is FalseAlarm <==> high && !alone
            &&& verdict matches DetectionVerdict::BelowThreshold {
                peak_to_noise_milli: p,
                threshold_milli: t,
            } ==> p == peak_to_noise_milli && t == config.cfar_threshold_milli
            &&& config.cfar_threshold_milli == 0 && alone ==> verdict
                == (DetectionVerdict::Detected { confidence_milli: 1000 })
        }),
{
}

/// The second peak is the strongest outside the zone: no cell farther than
/// `excluded` from the peak on the circle of code phases is stronger, and where there
/// is a second peak it is the power of such a cell.
pub proof fn law_second_peak_is_the_strongest_rival(
    surface: Seq<u32>,
    main_peak: int,
    excluded: int,
    power: u32,
    i: int,
)
    requires
        is_second_peak(surface, main_peak, excluded, power),
        0 <= main_peak < surface.len(),
        0 <= i < surface.len(),
        0 <= excluded,
    ensures
        ({
            let n = surface.len() as int;
            let ahead = (i - main_peak) % n;
            let back = (main_peak - i) % n;
            ahead > excluded && back > excluded ==> surface[i] <= power
        }),
        power > 0 ==> exists|k: int|
            0 <= k < surface.len() && #[trigger] surface[k] == power && (k - main_peak) % (
            surface.len() as int) > excluded && (main_peak - k) % (surface.len() as int) > excluded,
        (forall|k: int| 0 <= k < surface.len() ==> #[trigger] surface[k] == 0) ==> power == 0,
{
    let n = surface.len() as int;
    lemma_distances_on_the_circle(i, main_peak, n, excluded);
    if power > 0 {
        let k = choose|k: int|
            0 <= k < n && outside_zone(k, main_peak, n, excluded) && #[trigger] surface[k] == power;
        lemma_distances_on_the_circle(k, main_peak, n, excluded);
        assert(surface[k] == power);
    }
}

/// Whether a sample lies outside the zone, by the steps to it in either direction.
proof fn lemma_distances_on_the_circle(i: int, main_peak: int, n: int, excluded: int)
    requires
        0 <= i < n,
        0 <= main_peak < n,
        0 <= excluded,
    ensures
        outside_zone(i, main_peak, n, excluded) <==> (i - main_peak) % n > excluded && (main_peak
            - i) % n > excluded,
{
    let d = i - main_peak;
    if d > 0 {
        vstd::arithmetic::div_mod::lemma_small_mod(d as nat, n as nat);
        vstd::arithmetic::div_mod::lemma_fundamental_div_mod_converse(-d, n, -1, n - d);
    } else if d < 0 {
        vstd::arithmetic::div_mod::lemma_small_mod((-d) as nat, n as nat);
        vstd::arithmetic::div_mod::lemma_fundamental_div_mod_converse(d, n, -1, n + d);
    } else {
        vstd::arithmetic::div_mod::lemma_small_mod(0, n as nat);
    }
}

} // verus!
