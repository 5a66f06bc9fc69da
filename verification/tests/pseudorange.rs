//! Pseudoranges from times of flight, and the satellite's clock.

use glrx::navigation::ephemeris::{ClockParams, Ephemeris, OrbitPart1, OrbitPart2, SPEED_OF_LIGHT};
use glrx::observables::pseudorange::{
    compute_pseudorange, is_valid_pseudorange, uncorrected_transmission_time,
    PseudorangeCorrections, PseudorangeInput, PseudorangeResult, GPS_L1_CHIP_RATE,
    MAX_PSEUDORANGE_M, MIN_PSEUDORANGE_M, WEEK_PS,
};

/// A time in seconds, in picoseconds.
fn ps(seconds: f64) -> i64 {
    (seconds * 1e12).round() as i64
}

/// A time in seconds, in microseconds.
fn us(seconds: f64) -> i64 {
    (seconds * 1e6).round() as i64
}

/// A length in micrometres, in metres.
fn metres(um: i128) -> f64 {
    um as f64 / 1e6
}

fn nominal_input(prn: u8) -> PseudorangeInput {
    let tow_s = 100.0_f64;
    let code_phase_chips = 100.0;
    let fractional_s = code_phase_chips / GPS_L1_CHIP_RATE as f64;
    let t_tx = tow_s + fractional_s;
    let expected_range_m = 20_200_000.0;
    let flight_time_s = expected_range_m / SPEED_OF_LIGHT as f64;
    let t_rx = t_tx + flight_time_s;

    PseudorangeInput {
        prn,
        code_phase_nanochips: (code_phase_chips * 1e9) as i64,
        chip_rate_mhz: 1000 * GPS_L1_CHIP_RATE,
        receiver_time_ps: ps(t_rx),
        tow_us: us(tow_s),
    }
}

/// The delay at sea level.
const TROPOSPHERE_UM: i64 = 2_300_000;

fn compute(input: &PseudorangeInput, clock_s: f64) -> PseudorangeResult {
    compute_pseudorange(input, ps(clock_s), 0, TROPOSPHERE_UM)
}

#[test]
fn test_compute_pseudorange_raw_is_positive_and_in_range() {
    let result = compute(&nominal_input(1), 0.0);

    assert!(metres(result.raw_um) > 0.0, "raw pseudorange must be positive");
    assert!(metres(result.raw_um) >= MIN_PSEUDORANGE_M as f64);
    assert!(metres(result.raw_um) <= MAX_PSEUDORANGE_M as f64);
    assert!((metres(result.raw_um) - 20_200_000.0).abs() < 1.0);
}

#[test]
fn test_compute_pseudorange_valid_flag_set_for_nominal_input() {
    let result = compute(&nominal_input(1), 0.0);

    assert!(result.valid, "nominal GPS pseudorange must be valid");
}

#[test]
fn test_compute_pseudorange_t_tx_less_than_t_rx() {
    let result = compute(&nominal_input(1), 0.0);

    assert!(result.t_tx_ps < i128::from(result.t_rx_ps));
}

#[test]
fn test_compute_pseudorange_prn_preserved() {
    let mut input = nominal_input(7);

    input.prn = 7;

    let result = compute(&input, 0.0);

    assert_eq!(result.prn, 7);
}

#[test]
fn test_satellite_clock_correction_compensates_clock_bias() {
    let input = nominal_input(1);

    let r0 = compute(&input, 0.0);
    let r1 = compute(&input, 1e-6);

    let diff = (metres(r1.corrected_um) - metres(r0.corrected_um)).abs();

    assert!(
        diff < 1e-3,
        "satellite clock correction should compensate clock bias, diff={diff}"
    );
}

#[test]
fn test_satellite_clock_bias_changes_raw_pseudorange() {
    let input = nominal_input(1);

    let r0 = compute(&input, 0.0);
    let r1 = compute(&input, 1e-6);

    let diff = (metres(r1.raw_um) - metres(r0.raw_um)).abs();

    assert!((diff - SPEED_OF_LIGHT as f64 * 1e-6).abs() < 1.0, "got {diff} m");
}

#[test]
fn test_corrections_satellite_clock_m_opposite_sign_to_af0() {
    let result = compute(&nominal_input(1), 1e-6);

    assert!(
        result.corrections.satellite_clock_um < 0,
        "positive af0 should produce negative satellite_clock correction, got {}",
        result.corrections.satellite_clock_um
    );
}

#[test]
fn test_ionosphere_correction_without_model_is_zero() {
    let result = compute(&nominal_input(1), 0.0);

    assert!((result.corrections.ionosphere_um as f64).abs() < 1e-12);
}

#[test]
fn test_corrections_total_m_matches_individual_sum() {
    let result = compute_pseudorange(&nominal_input(1), 77_000, 4_200_000, TROPOSPHERE_UM);
    let expected = result.corrections.satellite_clock_um
        + i128::from(result.corrections.ionosphere_um)
        + i128::from(result.corrections.troposphere_um);

    assert_eq!(result.corrections.total_um(), expected, "total must equal sum of components");
}

#[test]
fn test_corrected_equals_raw_plus_total_corrections() {
    let result = compute(&nominal_input(1), 0.0);
    let expected = result.raw_um + result.corrections.total_um();

    assert_eq!(result.corrected_um, expected);
}

#[test]
fn test_validate_against_rinex_zero_difference() {
    let result = compute(&nominal_input(1), 0.0);
    let diff = result.validate_against_rinex(result.corrected_um as i64);

    assert_eq!(diff, 0, "self-comparison must be zero");
}

#[test]
fn test_validate_against_rinex_known_difference() {
    let result = compute(&nominal_input(1), 0.0);
    let diff = result.validate_against_rinex(result.corrected_um as i64 - 5_000_000);

    assert!((metres(diff) - 5.0).abs() < 1e-6, "should report 5 m excess over the reference");
}

#[test]
fn test_is_within_rinex_tolerance_pass() {
    let result = compute(&nominal_input(1), 0.0);

    assert!(result.is_within_rinex_tolerance(result.corrected_um as i64 + 500_000, 1_000_000));
}

#[test]
fn test_is_within_rinex_tolerance_fail() {
    let result = compute(&nominal_input(1), 0.0);

    assert!(!result.is_within_rinex_tolerance(result.corrected_um as i64 + 2_000_000, 1_000_000));
}

#[test]
fn test_invalid_pseudorange_detected_for_near_zero_flight_time() {
    let mut input = nominal_input(1);
    input.receiver_time_ps = input.tow_us * 1_000_000 + ps(100.0 / GPS_L1_CHIP_RATE as f64 + 0.001);
    let result = compute(&input, 0.0);

    assert!(!result.valid, "near-zero flight time should produce invalid pseudorange");
}

#[test]
fn test_fractional_code_phase_affects_t_tx() {
    let input_a = PseudorangeInput { code_phase_nanochips: 0, ..nominal_input(1) };
    let input_b = PseudorangeInput {
        code_phase_nanochips: 511_500_000_000,
        receiver_time_ps: input_a.receiver_time_ps + ps(511.5 / GPS_L1_CHIP_RATE as f64),
        ..nominal_input(1)
    };
    let ra = compute(&input_a, 0.0);
    let rb = compute(&input_b, 0.0);

    assert!((metres(ra.raw_um) - metres(rb.raw_um)).abs() < 1000.0);
}

#[test]
fn test_default_chip_rate_used_when_chip_freq_is_zero() {
    let mut input = nominal_input(1);

    input.chip_rate_mhz = 0;

    assert_eq!(compute(&input, 0.0), compute(&nominal_input(1), 0.0));
}

#[test]
fn test_week_boundary_wraparound_handled() {
    let mut input = nominal_input(1);

    input.tow_us = us(604_799.0);
    input.code_phase_nanochips = 50_000_000_000;
    input.receiver_time_ps = ps(604_799.0 + 50.0 / GPS_L1_CHIP_RATE as f64 + 0.0674);

    let result = compute(&input, 0.0);

    assert!((metres(result.raw_um) - 0.0674 * SPEED_OF_LIGHT as f64).abs() < 1.0);
}

#[test]
fn a_flight_across_the_end_of_the_week_keeps_its_length() {
    let input = PseudorangeInput {
        prn: 1,
        code_phase_nanochips: 0,
        chip_rate_mhz: 0,
        receiver_time_ps: 70_000_000_000 - 1_000_000,
        tow_us: (WEEK_PS / 1_000_000) as i64 - 1,
    };
    let result = compute_pseudorange(&input, 0, 0, 0);
    assert_eq!(result.raw_um, 20_985_472_060_000);
    assert!(result.valid);
    // A time of reception far ahead is taken to lie in the week before.
    let late = PseudorangeInput { tow_us: 0, receiver_time_ps: WEEK_PS as i64, ..input };
    assert_eq!(compute_pseudorange(&late, 0, 0, 0).raw_um, 0);
}

#[test]
fn code_phase_is_turned_into_time() {
    let input = nominal_input(1);
    // 100 chips at 1.023 MHz last 97 751 711 ps.
    assert_eq!(uncorrected_transmission_time(&input), 100_000_000_000_000 + 97_751_711);
    let back = PseudorangeInput { code_phase_nanochips: -100_000_000_000, ..input };
    assert_eq!(uncorrected_transmission_time(&back), 100_000_000_000_000 - 97_751_711);
}

#[test]
fn limits_of_a_pseudorange_are_inclusive() {
    assert!(is_valid_pseudorange(20_000_000_000_000));
    assert!(is_valid_pseudorange(27_000_000_000_000));
    assert!(!is_valid_pseudorange(20_000_000_000_000 - 1));
    assert!(!is_valid_pseudorange(27_000_000_000_000 + 1));
    let c = PseudorangeCorrections { satellite_clock_um: -5, ionosphere_um: 3, troposphere_um: 4 };
    assert_eq!(c.total_um(), 2);
}

// Clock of the satellite

/// A time in attoseconds, in seconds.
fn seconds_of(attoseconds: i64) -> f64 {
    attoseconds as f64 * 1e-18
}

/// One second in nanoseconds.
const SECOND: i64 = 1_000_000_000;

fn typical_gps_ephemeris() -> Ephemeris {
    let clock = ClockParams {
        week_number: 2300,
        ura_index: 0,
        sv_health: 0,
        iodc: 0x0010,
        toc: 0,
        af2: 0,
        af1: 0,
        af0: 0,
    };
    let orbit1 = OrbitPart1 {
        iode: 0x10,
        crs: 0,
        delta_n: 0,
        m0: 0,
        cuc: 0,
        e: (0.001 * 8_589_934_592.0) as u32,
        cus: 0,
        sqrt_a: (5153.65 * 524_288.0) as u32,
        toe: 0,
    };
    let orbit2 = OrbitPart2 {
        cic: 0,
        omega0: 0,
        cis: 0,
        i0: (55.0 / 180.0 * 2_147_483_648.0) as i32,
        crc: 0,
        omega: 0,
        omega_dot: 0,
        iode: 0x10,
        idot: 0,
    };
    Ephemeris::new(1, clock, orbit1, orbit2)
}

#[test]
fn test_clock_correction_zero_at_toc_with_zero_coefficients() {
    let eph = typical_gps_ephemeris();
    let correction = seconds_of(eph.clock_correction(i64::from(eph.clock.toc) * SECOND));

    assert!(correction.abs() < 1e-12);
}

#[test]
fn test_clock_correction_linear_term_scales_with_time() {
    let mut eph = typical_gps_ephemeris();

    eph.clock.af1 = (1e-10 * 8_796_093_022_208.0) as i32;
    eph.clock.toc = 0;

    let c1000 = seconds_of(eph.clock_correction(1000 * SECOND));
    let c2000 = seconds_of(eph.clock_correction(2000 * SECOND));

    assert!((c2000 - 2.0 * c1000).abs() < 1e-15);
}

#[test]
fn test_clock_correction_handles_week_boundary_wrap() {
    let mut eph = typical_gps_ephemeris();

    eph.clock.toc = 604_800 - 100;
    eph.clock.af1 = (1e-9 * 8_796_093_022_208.0) as i32;

    let correction = seconds_of(eph.clock_correction(50 * SECOND));

    assert!(
        correction.abs() < 1.0,
        "wrapped dt should stay bounded, got correction={correction}"
    );
    assert!((correction - 150.0 * 1e-9).abs() < 1e-10);
}

#[test]
fn every_term_of_the_clock_polynomial_counts() {
    let mut eph = typical_gps_ephemeris();
    eph.clock.toc = 16;
    eph.clock.af0 = -3;
    eph.clock.af1 = 5;
    eph.clock.af2 = -7;
    let exact = -3.0 * 2f64.powi(-31) + 5.0 * 2f64.powi(-43) * 1000.0
        - 7.0 * 2f64.powi(-55) * 1_000_000.0;
    assert!((seconds_of(eph.clock_correction(1016 * SECOND)) - exact).abs() < 1e-17);
    // At the reference time only the offset is left: 3 * 2^-31 s.
    assert_eq!(eph.clock_correction(16 * SECOND), -1_396_983_862);
}
