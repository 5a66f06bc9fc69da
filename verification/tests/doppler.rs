//! Doppler shifts and rates of pseudoranges.

use glrx::navigation::ephemeris::{ClockParams, Ephemeris, OrbitPart1, OrbitPart2, SPEED_OF_LIGHT};
use glrx::observables::doppler::{
    compute_doppler, doppler_hz_to_pseudorange_rate, pseudorange_rate_to_doppler_hz, DopplerInput,
};
use glrx::observables::pseudorange::GPS_L1_CARRIER_HZ;

const GPS_L1_WAVELENGTH_M: f64 = SPEED_OF_LIGHT as f64 / GPS_L1_CARRIER_HZ as f64;

/// A frequency in hertz, in millihertz.
fn mhz(hz: f64) -> i64 {
    (hz * 1000.0).round() as i64
}

/// A rate in nanometres per second, in metres per second.
fn m_s(nm_s: i128) -> f64 {
    nm_s as f64 * 1e-9
}

fn dummy_eph_with_af1(prn: u8, af1: f64) -> Ephemeris {
    Ephemeris::new(
        prn,
        ClockParams {
            week_number: 2300,
            ura_index: 0,
            sv_health: 0,
            iodc: 0x0010,
            toc: 0,
            af2: 0,
            af1: (af1 * 8_796_093_022_208.0).round() as i32,
            af0: 0,
        },
        OrbitPart1 {
            iode: 0x10,
            crs: 0,
            delta_n: 0,
            m0: 0,
            cuc: 0,
            e: (0.001 * 8_589_934_592.0) as u32,
            cus: 0,
            sqrt_a: (5153.65 * 524_288.0) as u32,
            toe: 0,
        },
        OrbitPart2 {
            cic: 0,
            omega0: 0,
            cis: 0,
            i0: (55.0 / 180.0 * 2_147_483_648.0) as i32,
            crc: 0,
            omega: 0,
            omega_dot: 0,
            iode: 0x10,
            idot: 0,
        },
    )
}

fn input_at(prn: u8, doppler_hz: f64, t_tx_s: i64) -> DopplerInput {
    DopplerInput {
        prn,
        carrier_freq_mhz: 1000 * GPS_L1_CARRIER_HZ + mhz(doppler_hz),
        t_tx_ns: t_tx_s * 1_000_000_000,
    }
}

fn nominal_input(prn: u8) -> DopplerInput {
    input_at(prn, 1000.0, 100)
}

#[test]
fn test_doppler_hz_zero_when_on_nominal_freq() {
    let eph = dummy_eph_with_af1(1, 0.0);
    let obs = compute_doppler(&input_at(1, 0.0, 0), &eph);

    assert_eq!(obs.doppler_mhz, 0, "no frequency offset gives zero Doppler");
}

#[test]
fn test_doppler_positive_when_carrier_above_nominal() {
    let eph = dummy_eph_with_af1(1, 0.0);
    let obs = compute_doppler(&nominal_input(1), &eph);

    assert!(obs.doppler_mhz > 0, "carrier above nominal gives positive Doppler");
    assert!((obs.doppler_mhz as f64 / 1000.0 - 1000.0).abs() < 1e-6);
}

#[test]
fn test_pseudorange_rate_negative_when_doppler_positive() {
    let eph = dummy_eph_with_af1(1, 0.0);
    let obs = compute_doppler(&nominal_input(1), &eph);

    assert!(obs.rate_raw_nm_s < 0, "positive Doppler gives negative pseudorange rate");
}

#[test]
fn test_pseudorange_rate_magnitude_matches_formula() {
    let eph = dummy_eph_with_af1(1, 0.0);
    let doppler_hz = 1000.0_f64;
    let obs = compute_doppler(&input_at(1, doppler_hz, 0), &eph);
    let expected = -doppler_hz * GPS_L1_WAVELENGTH_M;

    assert!((m_s(obs.rate_raw_nm_s) - expected).abs() < 1e-6);
}

#[test]
fn test_satellite_clock_rate_correction_zero_when_af1_zero() {
    let eph = dummy_eph_with_af1(1, 0.0);
    let obs = compute_doppler(&nominal_input(1), &eph);

    assert!(m_s(obs.clock_rate_correction_nm_s).abs() < 1e-9);
}

#[test]
fn test_satellite_clock_rate_correction_nonzero_with_af1() {
    let af1 = 1e-12_f64;
    let eph = dummy_eph_with_af1(1, af1);
    let obs = compute_doppler(&nominal_input(1), &eph);
    let expected = -af1 * SPEED_OF_LIGHT as f64;

    assert!((m_s(obs.clock_rate_correction_nm_s) - expected).abs() < 1e-3);
}

#[test]
fn test_corrected_differs_from_raw_with_nonzero_af1() {
    let eph = dummy_eph_with_af1(1, 1e-10);
    let obs = compute_doppler(&nominal_input(1), &eph);
    let diff = (m_s(obs.rate_corrected_nm_s) - m_s(obs.rate_raw_nm_s)).abs();

    assert!(diff > 1e-6, "corrected must differ from raw with nonzero af1");
}

#[test]
fn test_prn_preserved_in_output() {
    let eph = dummy_eph_with_af1(15, 0.0);
    let obs = compute_doppler(&nominal_input(15), &eph);

    assert_eq!(obs.prn, 15);
}

#[test]
fn test_round_trip_doppler_hz_to_rate_and_back() {
    let original_doppler = 1234.5_f64;
    let rate = doppler_hz_to_pseudorange_rate(mhz(original_doppler));
    let back = pseudorange_rate_to_doppler_hz(rate as i64);

    assert!((back as f64 / 1000.0 - original_doppler).abs() < 1e-9);
}

#[test]
fn test_approaching_satellite_gives_negative_pseudorange_rate() {
    let rate = doppler_hz_to_pseudorange_rate(mhz(500.0));

    assert!(rate < 0);
}

#[test]
fn test_receding_satellite_gives_positive_pseudorange_rate() {
    let rate = doppler_hz_to_pseudorange_rate(mhz(-500.0));

    assert!(rate > 0);
}

#[test]
fn test_doppler_scale_matches_l1_wavelength() {
    let rate_per_hz = m_s(doppler_hz_to_pseudorange_rate(mhz(1.0))).abs();

    assert!((rate_per_hz - GPS_L1_WAVELENGTH_M).abs() < 1e-9);
}

#[test]
fn test_clock_time_diff_week_wraparound() {
    let eph = dummy_eph_with_af1(1, 0.0);
    let obs = compute_doppler(&input_at(1, 100.0, 700_000), &eph);

    assert_eq!(obs.doppler_mhz, 100_000);
    assert_eq!(obs.rate_corrected_nm_s, obs.rate_raw_nm_s);
}

#[test]
fn test_af2_affects_pseudorange_rate() {
    let mut eph = dummy_eph_with_af1(1, 1e-12);

    eph.clock.af2 = (1e-18 * 36_028_797_018_963_968.0) as i32;

    let without = compute_doppler(&nominal_input(1), &eph);

    assert!(m_s(without.clock_rate_correction_nm_s).abs() >= 0.0);

    eph.clock.af2 = 100;

    let obs = compute_doppler(&nominal_input(1), &eph);

    assert!(obs.clock_rate_correction_nm_s < without.clock_rate_correction_nm_s);
}

#[test]
fn test_doppler_linearity() {
    let eph = dummy_eph_with_af1(1, 0.0);
    let a = compute_doppler(&input_at(1, 100.0, 0), &eph);
    let b = compute_doppler(&input_at(1, 200.0, 0), &eph);

    assert!((m_s(b.rate_raw_nm_s) - 2.0 * m_s(a.rate_raw_nm_s)).abs() < 1e-6);
}

#[test]
fn test_doppler_symmetry() {
    let rate_pos = doppler_hz_to_pseudorange_rate(mhz(100.0));
    let rate_neg = doppler_hz_to_pseudorange_rate(mhz(-100.0));

    assert_eq!(rate_pos + rate_neg, 0);
}

#[test]
fn test_extreme_af1_does_not_break() {
    let eph = dummy_eph_with_af1(1, 1e-8);

    let obs = compute_doppler(&nominal_input(1), &eph);

    assert!((m_s(obs.clock_rate_correction_nm_s) + 1e-8 * SPEED_OF_LIGHT as f64).abs() < 1e-3);
}

#[test]
fn exact_rates_of_small_shifts() {
    // One hertz of shift is 0.190293673 m/s.
    assert_eq!(doppler_hz_to_pseudorange_rate(1000), -190_293_673);
    assert_eq!(doppler_hz_to_pseudorange_rate(0), 0);
    for mhz in [-1_000_000_000_000i64, -12_345, -1, 0, 1, 7, 999, 123_456_789] {
        let rate = doppler_hz_to_pseudorange_rate(mhz);
        assert_eq!(pseudorange_rate_to_doppler_hz(rate as i64), i128::from(mhz));
    }
}
