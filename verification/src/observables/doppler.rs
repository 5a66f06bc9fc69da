//! Doppler shifts and rates of pseudoranges.
//!
//! Frequencies are in millihertz, times in nanoseconds and rates in nanometres
//! per second.

use crate::navigation::ephemeris::{corrected_diff, ClockParams, Ephemeris};
use crate::observables::pseudorange::GPS_L1_CARRIER_HZ;
use crate::rounding::{
    lemma_rounding_error, lemma_rounding_recovers, round_quotient, rounded_quotient,
};
use vstd::prelude::*;

verus! {

/// What a Doppler measurement is computed from.
#[derive(Debug, Clone, Copy, PartialEq, Eq, Structural)]
pub struct DopplerInput {
    /// Number of the satellite.
    pub prn: u8,
    /// Frequency of the received carrier.
    pub carrier_freq_mhz: i64,
    /// Time of transmission within the week.
    pub t_tx_ns: i64,
}

/// A Doppler measurement.
#[derive(Debug, Clone, Copy, PartialEq, Eq, Structural)]
pub struct DopplerObservable {
    /// Number of the satellite.
    pub prn: u8,
    /// Shift of the carrier; positive when the satellite comes nearer.
    pub doppler_mhz: i128,
    /// Rate of the pseudorange.
    pub rate_raw_nm_s: i128,
    /// Rate of the pseudorange without that of the satellite's clock.
    pub rate_corrected_nm_s: i128,
    /// What the satellite's clock contributes.
    pub clock_rate_correction_nm_s: i128,
}

/// Rate of the pseudorange of a Doppler shift: the shift times the wavelength of
/// the carrier, with the opposite sign.
pub open spec fn rate_of_doppler(doppler_mhz: int) -> int {
    rounded_quotient(-doppler_mhz * 299_792_458_000_000, 1_575_420_000)
}

/// Doppler shift of a rate of the pseudorange.
pub open spec fn doppler_of_rate(rate_nm_s: int) -> int {
    rounded_quotient(-rate_nm_s * 1_575_420_000, 299_792_458_000_000)
}

/// What the rate of the satellite's clock contributes to that of the pseudorange:
/// the rate at the time of transmission times the speed of light, with the
/// opposite sign.
pub open spec fn clock_rate_correction(clock: ClockParams, t_ns: int) -> int {
    let dt = corrected_diff(t_ns, clock.toc * 1_000_000_000);
    rounded_quotient(
        -(clock.af1 * 4_096_000_000_000 + 2 * clock.af2 * dt) * 299_792_458,
        36_028_797_018_963_968,
    )
}

/// The rate of the pseudorange that belongs to a Doppler shift, to within half a
/// nanometre per second.
pub fn doppler_hz_to_pseudorange_rate(doppler_mhz: i64) -> (rate_nm_s: i128)
    ensures
        rate_nm_s == rate_of_doppler(doppler_mhz as int),
        -1_575_420_000 <= 2 * (1_575_420_000 * rate_nm_s + doppler_mhz * 299_792_458_000_000)
            <= 1_575_420_000,
{
    proof {
        lemma_rounding_error(-(doppler_mhz as int) * 299_792_458_000_000, 1_575_420_000);
    }
    round_quotient(-(doppler_mhz as i128) * 299_792_458_000_000, 1_575_420_000)
}

/// The Doppler shift that belongs to a rate of the pseudorange, to within half a
/// millihertz.
pub fn pseudorange_rate_to_doppler_hz(rate_nm_s: i64) -> (doppler_mhz: i128)
    ensures
        doppler_mhz == doppler_of_rate(rate_nm_s as int),
        -299_792_458_000_000 <= 2 * (299_792_458_000_000 * doppler_mhz + rate_nm_s * 1_575_420_000)
            <= 299_792_458_000_000,
{
    proof {
        lemma_rounding_error(-(rate_nm_s as int) * 1_575_420_000, 299_792_458_000_000);
    }
    round_quotient(-(rate_nm_s as i128) * 1_575_420_000, 299_792_458_000_000)
}

/// Whether `obs` is the Doppler measurement that belongs to an input and the
/// ephemerides of the satellite.
pub open spec fn is_doppler(obs: DopplerObservable, input: DopplerInput, eph: Ephemeris) -> bool {
    &&& obs.prn == input.prn
    &&& obs.doppler_mhz == input.carrier_freq_mhz - 1000 * GPS_L1_CARRIER_HZ
    &&& obs.rate_raw_nm_s == rate_of_doppler(obs.doppler_mhz as int)
    &&& obs.clock_rate_correction_nm_s == clock_rate_correction(eph.clock, input.t_tx_ns as int)
    &&& obs.rate_corrected_nm_s == obs.rate_raw_nm_s + obs.clock_rate_correction_nm_s
}

/// Computes a Doppler measurement.
pub fn compute_doppler(input: &DopplerInput, eph: &Ephemeris) -> (obs: DopplerObservable)
    ensures
        is_doppler(obs, *input, *eph),
        1_575_420_000_000 + obs.doppler_mhz == input.carrier_freq_mhz,
{
    let doppler_mhz: i128 = input.carrier_freq_mhz as i128 - 1000 * GPS_L1_CARRIER_HZ as i128;
    let path: i128 = -doppler_mhz * 299_792_458_000_000;
    proof {
        lemma_rounding_error(path as int, 1_575_420_000);
    }
    let rate_raw_nm_s: i128 = round_quotient(path, 1_575_420_000);
    let toc_ns: i64 = eph.clock.toc as i64 * 1_000_000_000;
    let dt: i128 = Ephemeris::corrected_time_diff(input.t_tx_ns, toc_ns);
    let af2: i128 = eph.clock.af2 as i128;
    assert(-0x8000_0000_0000_0000_0000_0000 <= af2 * dt <= 0x8000_0000_0000_0000_0000_0000)
        by (nonlinear_arith)
        requires
            -0x8000_0000 <= af2 <= 0x8000_0000,
            -0x1_0000_0000_0000_0000 <= dt <= 0x1_0000_0000_0000_0000,
    ;
    let clock_rate: i128 = eph.clock.af1 as i128 * 4_096_000_000_000 + 2 * (af2 * dt);
    assert(2 * af2 * dt == 2 * (af2 * dt)) by (nonlinear_arith);
    let clock_path: i128 = -clock_rate * 299_792_458;
    proof {
        lemma_rounding_error(clock_path as int, 36_028_797_018_963_968);
    }
    let clock_rate_correction_nm_s: i128 = round_quotient(clock_path, 36_028_797_018_963_968);
    DopplerObservable {
        prn: input.prn,
        doppler_mhz,
        rate_raw_nm_s,
        rate_corrected_nm_s: rate_raw_nm_s + clock_rate_correction_nm_s,
        clock_rate_correction_nm_s,
    }
}

/// The shift and the nominal carrier make up the received carrier, below the nominal
/// one as well as above it; and the rate is the shift times the wavelength with the
/// opposite sign, to within half a nanometre per second: a carrier below the nominal
/// one has a negative shift and a rising pseudorange, one above it a positive shift
/// and a falling one.
pub proof fn law_shift_makes_up_the_received_carrier(
    obs: DopplerObservable,
    input: DopplerInput,
    eph: Ephemeris,
)
    requires
        is_doppler(obs, input, eph),
    ensures
        obs.prn == input.prn,
        1_575_420_000_000 + obs.doppler_mhz == input.carrier_freq_mhz,
        -1_575_420_000 <= 2 * (1_575_420_000 * obs.rate_raw_nm_s + obs.doppler_mhz
            * 299_792_458_000_000) <= 1_575_420_000,
        input.carrier_freq_mhz < 1_575_420_000_000 ==> obs.doppler_mhz < 0 && obs.rate_raw_nm_s > 0,
        input.carrier_freq_mhz > 1_575_420_000_000 ==> obs.doppler_mhz > 0 && obs.rate_raw_nm_s < 0,
        input.carrier_freq_mhz == 1_575_420_000_000 ==> obs.rate_raw_nm_s == 0,
        obs.rate_corrected_nm_s == obs.rate_raw_nm_s + obs.clock_rate_correction_nm_s,
{
    lemma_rounding_error(-(obs.doppler_mhz as int) * 299_792_458_000_000, 1_575_420_000);
}

/// The rate of the satellite's clock at the time of transmission, before or after its
/// reference time, is its linear coefficient plus twice the quadratic one times the
/// signed time from the reference time; it is taken out as a length per second with
/// the opposite sign, to within half a nanometre per second.
pub proof fn law_clock_rate_is_taken_out(
    obs: DopplerObservable,
    input: DopplerInput,
    eph: Ephemeris,
    dt_ns: int,
)
    requires
        is_doppler(obs, input, eph),
        ({
            let plain = input.t_tx_ns - eph.clock.toc * 1_000_000_000;
            ||| dt_ns == plain && -302_400_000_000_000 <= plain <= 302_400_000_000_000
            ||| dt_ns == plain - 604_800_000_000_000 && plain > 302_400_000_000_000
            ||| dt_ns == plain + 604_800_000_000_000 && plain < -302_400_000_000_000
        }),
    ensures
        ({
            let rate = eph.clock.af1 * 4_096_000_000_000 + 2 * (eph.clock.af2 * dt_ns);
            -36_028_797_018_963_968 <= 2 * (36_028_797_018_963_968 * obs.clock_rate_correction_nm_s
                + rate * 299_792_458) <= 36_028_797_018_963_968
        }),
{
    let rate = eph.clock.af1 * 4_096_000_000_000 + 2 * eph.clock.af2 * dt_ns;
    assert(2 * eph.clock.af2 * dt_ns == 2 * (eph.clock.af2 * dt_ns)) by (nonlinear_arith);
    lemma_rounding_error(-rate * 299_792_458, 36_028_797_018_963_968);
}

/// A Doppler shift comes back from the rate that it belongs to.
pub proof fn law_doppler_comes_back(doppler_mhz: int)
    ensures
        doppler_of_rate(rate_of_doppler(doppler_mhz)) == doppler_mhz,
{
    let a = -doppler_mhz * 299_792_458_000_000;
    let rate = rate_of_doppler(doppler_mhz);
    lemma_rounding_error(a, 1_575_420_000);
    let error = -rate * 1_575_420_000 - doppler_mhz * 299_792_458_000_000;
    lemma_rounding_recovers(doppler_mhz, 299_792_458_000_000, error);
}

/// A satellite that comes nearer has a falling pseudorange, and one that goes
/// away with the same shift a pseudorange that rises as fast.
pub proof fn law_rate_is_opposite_to_doppler(doppler_mhz: int)
    ensures
        doppler_mhz > 0 ==> rate_of_doppler(doppler_mhz) < 0,
        rate_of_doppler(-doppler_mhz) == -rate_of_doppler(doppler_mhz),
{
}

} // verus!
