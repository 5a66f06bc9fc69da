//! Pseudoranges: times of flight and their corrections.
//!
//! Times are in picoseconds unless a name says otherwise, code phases in units of
//! 10^-9 chips, frequencies in millihertz and lengths in micrometres.

use crate::navigation::ephemeris::SPEED_OF_LIGHT;
use crate::rounding::{lemma_rounding_error, round_quotient, rounded_quotient};
use vstd::prelude::*;

verus! {

/// Chip rate of GPS L1 C/A in hertz.
pub const GPS_L1_CHIP_RATE: i64 = 1_023_000;

/// Chips in a period of GPS L1 C/A.
pub const GPS_L1_CODE_CHIPS: i64 = 1023;

/// Carrier of GPS L1 in hertz.
pub const GPS_L1_CARRIER_HZ: i64 = 1_575_420_000;

/// Picoseconds in a GPS week.
pub const WEEK_PS: i128 = 604_800_000_000_000_000;

/// Picoseconds in half a GPS week.
pub const HALF_WEEK_PS: i128 = 302_400_000_000_000_000;

/// Smallest pseudorange that makes sense, in metres.
pub const MIN_PSEUDORANGE_M: i64 = 20_000_000;

/// Largest pseudorange that makes sense, in metres.
pub const MAX_PSEUDORANGE_M: i64 = 27_000_000;

/// Start of the current subframe in seconds of the week. The count in a handover
/// word is that of the next subframe, in units of six seconds; zero stands for
/// the start of the week.
pub open spec fn subframe_start(tow_count: int) -> int {
    if tow_count == 0 {
        0
    } else {
        (tow_count - 1) * 6
    }
}

/// The start of the current subframe, in seconds of the week.
pub fn tow_count_to_seconds(tow_count: u32) -> (seconds: u64)
    ensures
        seconds == subframe_start(tow_count as int),
{
    if tow_count == 0 {
        0
    } else {
        (tow_count - 1) as u64 * 6
    }
}

/// Time of flight from the difference of a time of reception and a time of
/// transmission, both within a week.
pub open spec fn flight_time(delta_ps: int) -> int {
    if delta_ps < 0 {
        delta_ps + WEEK_PS
    } else if delta_ps > HALF_WEEK_PS {
        delta_ps - WEEK_PS
    } else {
        delta_ps
    }
}

/// A time of flight of up to half a week is found from the two times of the week,
/// also when the signal was on its way while a new week began.
pub proof fn law_flight_time_is_recovered(sent_ps: int, flight_ps: int)
    requires
        0 <= sent_ps < WEEK_PS,
        0 <= flight_ps <= HALF_WEEK_PS,
    ensures
        flight_time((sent_ps + flight_ps) % (WEEK_PS as int) - sent_ps) == flight_ps,
{
    if sent_ps + flight_ps >= WEEK_PS {
        vstd::arithmetic::div_mod::lemma_fundamental_div_mod_converse(
            sent_ps + flight_ps,
            WEEK_PS as int,
            1,
            sent_ps + flight_ps - WEEK_PS,
        );
    } else {
        vstd::arithmetic::div_mod::lemma_small_mod(
            (sent_ps + flight_ps) as nat,
            WEEK_PS as nat,
        );
    }
}

/// Length that light covers in a time, in micrometres, rounded to the nearest.
pub open spec fn light_path(time_ps: int) -> int {
    rounded_quotient(time_ps * SPEED_OF_LIGHT, 1_000_000)
}

/// Whether a pseudorange makes sense.
pub open spec fn makes_sense(length_um: int) -> bool {
    MIN_PSEUDORANGE_M * 1_000_000 <= length_um <= MAX_PSEUDORANGE_M * 1_000_000
}

/// Whether a pseudorange lies within the limits that make sense.
pub fn is_valid_pseudorange(corrected_um: i128) -> (valid: bool)
    ensures
        valid <==> makes_sense(corrected_um as int),
{
    MIN_PSEUDORANGE_M as i128 * 1_000_000 <= corrected_um && corrected_um <= MAX_PSEUDORANGE_M as i128
        * 1_000_000
}

/// What a pseudorange is computed from.
#[derive(Debug, Clone, Copy, PartialEq, Eq, Structural)]
pub struct PseudorangeInput {
    /// Number of the satellite.
    pub prn: u8,
    /// Code phase.
    pub code_phase_nanochips: i64,
    /// Chip rate; the nominal one is used unless it is positive.
    pub chip_rate_mhz: i64,
    /// Time of reception within the week.
    pub receiver_time_ps: i64,
    /// Start of the subframe within the week, in microseconds.
    pub tow_us: i64,
}

/// Corrections of a pseudorange: each is added to the raw pseudorange.
#[derive(Debug, Clone, Copy, PartialEq, Eq, Structural)]
pub struct PseudorangeCorrections {
    /// Added for the satellite's clock.
    pub satellite_clock_um: i128,
    /// Added for the ionosphere.
    pub ionosphere_um: i64,
    /// Added for the troposphere.
    pub troposphere_um: i64,
}

/// A pseudorange.
#[derive(Debug, Clone, Copy, PartialEq, Eq, Structural)]
pub struct PseudorangeResult {
    /// Number of the satellite.
    pub prn: u8,
    /// Pseudorange without corrections.
    pub raw_um: i128,
    /// Pseudorange with corrections.
    pub corrected_um: i128,
    /// Time of transmission.
    pub t_tx_ps: i128,
    /// Time of reception.
    pub t_rx_ps: i64,
    /// The corrections.
    pub corrections: PseudorangeCorrections,
    /// Whether the pseudorange makes sense.
    pub valid: bool,
}

/// Time that the satellite's clock shows at the transmission.
pub open spec fn transmission_time(input: PseudorangeInput) -> int {
    let rate = if input.chip_rate_mhz > 0 {
        input.chip_rate_mhz as int
    } else {
        1000 * GPS_L1_CHIP_RATE
    };
    input.tow_us * 1_000_000 + rounded_quotient(
        input.code_phase_nanochips * 1_000_000,
        rate,
    )
}

/// Sum of the corrections.
pub open spec fn total_of(c: PseudorangeCorrections) -> int {
    c.satellite_clock_um + c.ionosphere_um + c.troposphere_um
}

/// Whether `r` is the pseudorange that belongs to an input, a correction of the
/// satellite's clock and corrections for the atmosphere, which are added to the raw
/// pseudorange.
pub open spec fn is_pseudorange(
    r: PseudorangeResult,
    input: PseudorangeInput,
    clock_ps: int,
    ionosphere_um: int,
    troposphere_um: int,
) -> bool {
    let sent = transmission_time(input) - clock_ps;
    &&& r.prn == input.prn
    &&& r.t_tx_ps == sent
    &&& r.t_rx_ps == input.receiver_time_ps
    &&& r.raw_um == light_path(flight_time(input.receiver_time_ps - sent))
    &&& r.corrections.satellite_clock_um == light_path(-clock_ps)
    &&& r.corrections.ionosphere_um == ionosphere_um
    &&& r.corrections.troposphere_um == troposphere_um
    &&& r.corrected_um == r.raw_um + total_of(r.corrections)
    &&& r.valid <==> makes_sense(r.corrected_um as int)
}

/// A rounded quotient is no larger than its dividend.
proof fn lemma_quotient_size(a: int, b: int)
    requires
        b >= 1,
    ensures
        a >= 0 ==> 0 <= rounded_quotient(a, b) <= a,
        a <= 0 ==> a <= rounded_quotient(a, b) <= 0,
{
    let q = rounded_quotient(a, b);
    lemma_rounding_error(a, b);
    if a >= 0 {
        assert(0 <= q <= a) by (nonlinear_arith)
            requires
                -b <= 2 * (b * q - a) <= b,
                b >= 1,
                a >= 0,
        ;
    }
    if a <= 0 {
        assert(a <= q <= 0) by (nonlinear_arith)
            requires
                -b <= 2 * (b * q - a) <= b,
                b >= 1,
                a <= 0,
        ;
    }
}

/// Chips per second, in thousandths: those of the input, or the nominal ones of GPS
/// L1 C/A where the input has none.
pub open spec fn chips_per_second(input: PseudorangeInput) -> int {
    if input.chip_rate_mhz > 0 {
        input.chip_rate_mhz as int
    } else {
        1_023_000_000
    }
}

/// The time of transmission lies as far behind the start of the subframe as the code
/// phase lasts at the chip rate, whatever the code phase: the chips sent in between
/// are those of the code phase, to within half a picosecond.
pub proof fn law_code_phase_tells_the_time_of_transmission(input: PseudorangeInput)
    ensures
        ({
            let rate = chips_per_second(input);
            let elapsed_ps = transmission_time(input) - input.tow_us * 1_000_000;
            -rate <= 2 * (rate * elapsed_ps - input.code_phase_nanochips * 1_000_000) <= rate
        }),
{
    lemma_rounding_error(input.code_phase_nanochips * 1_000_000, chips_per_second(input));
}

/// Of two signals that are received with the same subframe and chip rate, the one
/// with the larger code phase was not sent earlier, and one that is a whole number
/// of code periods ahead was sent that many milliseconds later at the nominal rate.
pub proof fn law_larger_code_phase_was_sent_later(
    early: PseudorangeInput,
    late: PseudorangeInput,
    periods: int,
)
    requires
        early.tow_us == late.tow_us,
        early.chip_rate_mhz == late.chip_rate_mhz,
    ensures
        early.code_phase_nanochips <= late.code_phase_nanochips ==> transmission_time(early)
            <= transmission_time(late),
        late.chip_rate_mhz == 1_023_000_000 && late.code_phase_nanochips
            == early.code_phase_nanochips + 1_023_000_000_000 * periods ==> -1 <= transmission_time(
            late,
        ) - transmission_time(early) - 1_000_000_000 * periods <= 1,
{
    let rate = chips_per_second(early);
    let a = transmission_time(early) - early.tow_us * 1_000_000;
    let b = transmission_time(late) - late.tow_us * 1_000_000;
    let x = early.code_phase_nanochips * 1_000_000;
    let y = late.code_phase_nanochips * 1_000_000;
    law_code_phase_tells_the_time_of_transmission(early);
    law_code_phase_tells_the_time_of_transmission(late);
    if early.code_phase_nanochips == late.code_phase_nanochips {
        assert(a == b);
    } else if early.code_phase_nanochips < late.code_phase_nanochips {
        crate::rounding::law_rounding_is_to_the_nearest(x, rate, b);
        crate::rounding::law_rounding_is_to_the_nearest(y, rate, a);
        assert(a <= b) by (nonlinear_arith)
            requires
                rate > 0,
                -rate <= 2 * (rate * a - x) <= rate,
                -rate <= 2 * (rate * b - y) <= rate,
                2 * (rate * a - x) == rate ==> x > 0,
                2 * (rate * a - x) == -rate ==> x < 0,
                2 * (rate * b - y) == rate ==> y > 0,
                2 * (rate * b - y) == -rate ==> y < 0,
                x < y,
        ;
    }
}

/// What a pseudorange is: the length that light covers in the time of flight, from
/// the time of transmission, corrected by the satellite's clock, to the time of
/// reception, to within half a micrometre; with a correction for the clock, of the
/// opposite sign, and those for the atmosphere added. It makes sense from 20,000 to
/// 27,000 kilometres.
pub proof fn law_pseudorange_is_the_flight_of_light(
    r: PseudorangeResult,
    input: PseudorangeInput,
    clock_ps: int,
    ionosphere_um: int,
    troposphere_um: int,
)
    requires
        is_pseudorange(r, input, clock_ps, ionosphere_um, troposphere_um),
    ensures
        r.prn == input.prn,
        r.t_rx_ps == input.receiver_time_ps,
        ({
            let rate = chips_per_second(input);
            let elapsed_ps = r.t_tx_ps + clock_ps - input.tow_us * 1_000_000;
            -rate <= 2 * (rate * elapsed_ps - input.code_phase_nanochips * 1_000_000) <= rate
        }),
        0 <= input.receiver_time_ps - r.t_tx_ps <= 302_400_000_000_000_000 ==> -1_000_000 <= 2 * (
        1_000_000 * r.raw_um - (input.receiver_time_ps - r.t_tx_ps) * 299_792_458) <= 1_000_000,
        input.receiver_time_ps - r.t_tx_ps < 0 ==> -1_000_000 <= 2 * (
        1_000_000 * r.raw_um - (input.receiver_time_ps - r.t_tx_ps + 604_800_000_000_000_000)
            * 299_792_458) <= 1_000_000,
        302_400_000_000_000_000 < input.receiver_time_ps - r.t_tx_ps ==> -1_000_000 <= 2 * (1_000_000
            * r.raw_um - (input.receiver_time_ps - r.t_tx_ps - 604_800_000_000_000_000)
            * 299_792_458) <= 1_000_000,
        -1_000_000 <= 2 * (1_000_000 * r.corrections.satellite_clock_um + clock_ps * 299_792_458)
            <= 1_000_000,
        r.corrections.ionosphere_um == ionosphere_um,
        r.corrections.troposphere_um == troposphere_um,
        r.corrected_um == r.raw_um + r.corrections.satellite_clock_um + ionosphere_um
            + troposphere_um,
        r.valid <==> 20_000_000_000_000 <= r.corrected_um <= 27_000_000_000_000,
{
    law_code_phase_tells_the_time_of_transmission(input);
    let flight = flight_time(input.receiver_time_ps - r.t_tx_ps);
    lemma_rounding_error(flight * SPEED_OF_LIGHT, 1_000_000);
    lemma_rounding_error(-clock_ps * SPEED_OF_LIGHT, 1_000_000);
}

/// The length that light covers in a time.
fn light_path_um(time_ps: i128) -> (length: i128)
    requires
        -0x20_0000_0000_0000_0000_0000 <= time_ps <= 0x20_0000_0000_0000_0000_0000,
    ensures
        length == light_path(time_ps as int),
        -0x4000_0000_0000_0000_0000_0000 <= length <= 0x4000_0000_0000_0000_0000_0000,
{
    proof {
        lemma_rounding_error(time_ps * SPEED_OF_LIGHT, 1_000_000);
    }
    round_quotient(time_ps * SPEED_OF_LIGHT as i128, 1_000_000)
}

/// Time that the satellite's clock shows at the transmission.
pub fn uncorrected_transmission_time(input: &PseudorangeInput) -> (t_tx_ps: i128)
    ensures
        t_tx_ps == transmission_time(*input),
        ({
            let rate = chips_per_second(*input);
            let elapsed_ps = t_tx_ps - input.tow_us * 1_000_000;
            -rate <= 2 * (rate * elapsed_ps - input.code_phase_nanochips * 1_000_000) <= rate
        }),
        -0x10_0000_0000_0000_0000_0000 <= t_tx_ps <= 0x10_0000_0000_0000_0000_0000,
{
    let rate: i64 = if input.chip_rate_mhz > 0 {
        input.chip_rate_mhz
    } else {
        1000 * GPS_L1_CHIP_RATE
    };
    let phase: i128 = input.code_phase_nanochips as i128 * 1_000_000;
    proof {
        lemma_quotient_size(phase as int, rate as int);
        law_code_phase_tells_the_time_of_transmission(*input);
    }
    input.tow_us as i128 * 1_000_000 + round_quotient(phase, rate as i128)
}

/// Computes a pseudorange from the time of flight, the correction of the
/// satellite's clock in picoseconds, and the corrections for the ionosphere and the
/// troposphere, which are added to the raw pseudorange.
pub fn compute_pseudorange(
    input: &PseudorangeInput,
    clock_correction_ps: i64,
    ionosphere_um: i64,
    troposphere_um: i64,
) -> (result: PseudorangeResult)
    ensures
        is_pseudorange(
            result,
            *input,
            clock_correction_ps as int,
            ionosphere_um as int,
            troposphere_um as int,
        ),
{
    let t_tx_ps: i128 = uncorrected_transmission_time(input) - clock_correction_ps as i128;
    let delta: i128 = input.receiver_time_ps as i128 - t_tx_ps;
    let flight: i128 = if delta < 0 {
        delta + WEEK_PS
    } else if delta > HALF_WEEK_PS {
        delta - WEEK_PS
    } else {
        delta
    };
    let raw_um: i128 = light_path_um(flight);
    let corrections = PseudorangeCorrections {
        satellite_clock_um: light_path_um(-(clock_correction_ps as i128)),
        ionosphere_um,
        troposphere_um,
    };
    let corrected_um: i128 = raw_um + corrections.satellite_clock_um + ionosphere_um as i128
        + troposphere_um as i128;
    PseudorangeResult {
        prn: input.prn,
        raw_um,
        corrected_um,
        t_tx_ps,
        t_rx_ps: input.receiver_time_ps,
        corrections,
        valid: is_valid_pseudorange(corrected_um),
    }
}

impl PseudorangeCorrections {
    /// Sum of the corrections.
    pub fn total_um(&self) -> (total: i128)
        requires
            i128::MIN <= total_of(*self) <= i128::MAX,
        ensures
            total == total_of(*self),
    {
        let atmosphere: i128 = self.ionosphere_um as i128 + self.troposphere_um as i128;
        self.satellite_clock_um + atmosphere
    }
}

impl PseudorangeResult {
    /// Difference from a reference in micrometres.
    pub fn validate_against_rinex(&self, rinex_pseudorange_um: i64) -> (difference: i128)
        requires
            i128::MIN <= self.corrected_um - rinex_pseudorange_um <= i128::MAX,
        ensures
            difference == self.corrected_um - rinex_pseudorange_um,
    {
        self.corrected_um - rinex_pseudorange_um as i128
    }

    /// Whether the difference from a reference is within a limit.
    pub fn is_within_rinex_tolerance(&self, rinex_pseudorange_um: i64, threshold_um: u64) -> (within:
        bool)
        requires
            i128::MIN <= self.corrected_um - rinex_pseudorange_um <= i128::MAX,
        ensures
            within <==> -threshold_um <= self.corrected_um - rinex_pseudorange_um <= threshold_um,
    {
        let difference: i128 = self.validate_against_rinex(rinex_pseudorange_um);
        -(threshold_um as i128) <= difference && difference <= threshold_um as i128
    }
}

/// An error of the satellite's clock cancels: the corrected pseudorange does not
/// depend on the correction of the clock, up to a micrometre of rounding, as long
/// as the time of flight stays within its week.
pub proof fn law_clock_error_cancels(
    input: PseudorangeInput,
    clock_ps: int,
    ionosphere_um: int,
    troposphere_um: int,
    with_correction: PseudorangeResult,
    without_correction: PseudorangeResult,
)
    requires
        is_pseudorange(with_correction, input, clock_ps, ionosphere_um, troposphere_um),
        is_pseudorange(without_correction, input, 0, ionosphere_um, troposphere_um),
        ({
            let delta = input.receiver_time_ps - transmission_time(input);
            flight_time(delta + clock_ps) == flight_time(delta) + clock_ps
        }),
    ensures
        -1 <= with_correction.corrected_um - without_correction.corrected_um <= 1,
{
    let delta = input.receiver_time_ps - transmission_time(input);
    let flight = flight_time(delta);
    assert(input.receiver_time_ps - (transmission_time(input) - clock_ps) == delta + clock_ps);
    lemma_rounding_error((flight + clock_ps) * SPEED_OF_LIGHT, 1_000_000);
    lemma_rounding_error(flight * SPEED_OF_LIGHT, 1_000_000);
    lemma_rounding_error(-clock_ps * SPEED_OF_LIGHT, 1_000_000);
    lemma_rounding_error(0, 1_000_000);
    assert(-0 * SPEED_OF_LIGHT == 0);
    assert(light_path(-0) == 0);
}

/// Subframes follow every six seconds from the start of the week on: the count in a
/// handover word is that of the next subframe, so the subframe itself begins six
/// seconds before the time that the count stands for.
pub proof fn law_subframes_follow_every_six_seconds(tow_count: int)
    requires
        1 <= tow_count,
    ensures
        subframe_start(0) == 0,
        subframe_start(1) == 0,
        subframe_start(tow_count + 1) == subframe_start(tow_count) + 6,
        subframe_start(tow_count) + 6 == 6 * tow_count,
{
}

} // verus!
