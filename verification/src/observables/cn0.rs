//! Quality of a signal by its carrier to noise density, in thousandths of a
//! dB-Hz.

use vstd::prelude::*;

verus! {

/// Smallest number of correlations for an estimate.
pub const MIN_SAMPLES_FOR_CN0: usize = 2;

/// Density from which on a signal is good, in dB-Hz.
pub const GOOD_SIGNAL_CN0_THRESHOLD: i32 = 38;

/// Density below which a signal is weak, in dB-Hz.
pub const WEAK_SIGNAL_CN0_THRESHOLD: i32 = 30;

/// Density below which a signal is lost, in dB-Hz.
pub const LOST_SIGNAL_CN0_THRESHOLD: i32 = 25;

/// Quality of a signal.
#[derive(Debug, Clone, Copy, PartialEq, Eq, Structural)]
pub enum SignalQuality {
    /// 38 dB-Hz or more.
    Good,
    /// 30 dB-Hz or more.
    Marginal,
    /// 25 dB-Hz or more.
    Weak,
    /// Less than 25 dB-Hz.
    Lost,
}

/// Quality of a signal of the given density.
pub open spec fn quality_of(cn0_mdb_hz: int) -> SignalQuality {
    if cn0_mdb_hz >= 38_000 {
        SignalQuality::Good
    } else if cn0_mdb_hz >= 30_000 {
        SignalQuality::Marginal
    } else if cn0_mdb_hz >= 25_000 {
        SignalQuality::Weak
    } else {
        SignalQuality::Lost
    }
}

impl SignalQuality {
    /// Quality of a signal of the given density.
    pub fn of(cn0_mdb_hz: i32) -> (quality: SignalQuality)
        ensures
            quality == quality_of(cn0_mdb_hz as int),
    {
        if cn0_mdb_hz >= 1000 * GOOD_SIGNAL_CN0_THRESHOLD {
            SignalQuality::Good
        } else if cn0_mdb_hz >= 1000 * WEAK_SIGNAL_CN0_THRESHOLD {
            SignalQuality::Marginal
        } else if cn0_mdb_hz >= 1000 * LOST_SIGNAL_CN0_THRESHOLD {
            SignalQuality::Weak
        } else {
            SignalQuality::Lost
        }
    }
}

/// The quality goes by three limits, 38, 30 and 25 dB-Hz, each of which belongs to
/// the better side.
pub proof fn law_quality_goes_by_three_limits(cn0_mdb_hz: int)
    ensures
        quality_of(cn0_mdb_hz) == SignalQuality::Good <==> cn0_mdb_hz >= 38_000,
        quality_of(cn0_mdb_hz) == SignalQuality::Marginal <==> 30_000 <= cn0_mdb_hz < 38_000,
        quality_of(cn0_mdb_hz) == SignalQuality::Weak <==> 25_000 <= cn0_mdb_hz < 30_000,
        quality_of(cn0_mdb_hz) == SignalQuality::Lost <==> cn0_mdb_hz < 25_000,
{
}

} // verus!
