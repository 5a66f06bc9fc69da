//! Quality of signals, times of subframes, sets of measurements.

use glrx::navigation::ephemeris::{ClockParams, Ephemeris, OrbitPart1, OrbitPart2};
use glrx::observables::base::{Observable, ObservableInput, ObservableSet};
use glrx::observables::cn0::{SignalQuality, LOST_SIGNAL_CN0_THRESHOLD};
use glrx::observables::pseudorange::{tow_count_to_seconds, GPS_L1_CARRIER_HZ, GPS_L1_CHIP_RATE};

fn mdb(cn0_db_hz: f32) -> i32 {
    (f64::from(cn0_db_hz) * 1000.0).round() as i32
}

fn ps(seconds: f64) -> i64 {
    (seconds * 1e12).round() as i64
}

/// The delay of the troposphere at sea level.
const TROPOSPHERE_UM: i64 = 2_300_000;

fn dummy_ephemeris(prn: u8) -> Ephemeris {
    Ephemeris::new(
        prn,
        ClockParams {
            week_number: 2300,
            ura_index: 0,
            sv_health: 0,
            iodc: 0x0010,
            toc: 0,
            af2: 0,
            af1: 0,
            af0: 0,
        },
        OrbitPart1 {
            iode: 0x10,
            crs: 0,
            delta_n: 0,
            m0: 0,
            cuc: 0,
            e: (0.001 * 8_589_934_592.0) as u32,
            cus: 0,
            sqrt_a: (5153.65 * 524_288.0) as u32,
            toe: 0,
        },
        OrbitPart2 {
            cic: 0,
            omega0: 0,
            cis: 0,
            i0: (55.0 / 180.0 * 2_147_483_648.0) as i32,
            crc: 0,
            omega: 0,
            omega_dot: 0,
            iode: 0x10,
            idot: 0,
        },
    )
}

/// A channel that hears a satellite with a code phase of 100 chips.
fn channel(prn: u8, tow_count: u32, flight_s: f64) -> ObservableInput {
    let code_phase = 100.0_f64;
    let t_tx = tow_count_to_seconds(tow_count) as f64 + code_phase / GPS_L1_CHIP_RATE as f64;
    ObservableInput {
        prn,
        code_phase_nanochips: (code_phase * 1e9) as i64,
        chip_rate_mhz: 1000 * GPS_L1_CHIP_RATE,
        carrier_freq_mhz: 1000 * (GPS_L1_CARRIER_HZ + 500),
        cn0_mdb_hz: Some(mdb(42.0)),
        tow_count,
        receiver_time_ps: ps(t_tx + flight_s),
    }
}

fn measure(input: &ObservableInput) -> Observable {
    Observable::from_channel(input, &dummy_ephemeris(input.prn), 0, 0, TROPOSPHERE_UM)
}

/// A satellite heard with 42 dB-Hz after a flight of 75 ms.
fn make_observable(prn: u8) -> Observable {
    measure(&channel(prn, 17, 0.075))
}

fn make_observable_with_cn0(cn0_mdb_hz: Option<i32>) -> Observable {
    measure(&ObservableInput {
        cn0_mdb_hz,
        receiver_time_ps: ps(100.0),
        ..channel(1, 17, 0.075)
    })
}

/// The measurements with a pseudorange that makes no sense.
fn without_range(mut obs: Observable) -> Observable {
    obs.pseudorange.valid = false;
    obs
}

#[test]
fn test_observable_prn_preserved() {
    let obs = make_observable(7);

    assert_eq!(obs.prn, 7);
}

#[test]
fn test_observable_pseudorange_m_positive() {
    let obs = make_observable(1);

    assert!(obs.pseudorange.corrected_um > 0, "pseudorange must be positive");
}

#[test]
fn test_observable_doppler_hz_matches_offset() {
    let obs = make_observable(1);

    assert!((obs.doppler.doppler_mhz - 500_000).abs() < 1000);
    assert_eq!(obs.doppler.doppler_mhz, 500_000);
}

#[test]
fn test_observable_cn0_db_hz_matches_input() {
    let obs = make_observable(1);

    assert_eq!(obs.cn0_mdb_hz, 42_000);
}

#[test]
fn test_observable_cn0_fallback_when_none() {
    let obs = make_observable_with_cn0(None);

    assert_eq!(obs.cn0_mdb_hz, 0);
    assert!(!obs.is_usable());
    assert_eq!(obs.signal_quality(), SignalQuality::Lost);
}

#[test]
fn test_observable_pseudorange_rate_finite() {
    let obs = make_observable(1);

    assert_eq!(obs.doppler.rate_corrected_nm_s, -95_146_836_399);
}

#[test]
fn test_doppler_uses_pseudorange_tx_time_consistently() {
    let mut obs2 = make_observable(1);

    obs2.pseudorange.t_tx_ps += 1_000_000_000;

    assert_eq!(obs2.doppler.doppler_mhz, 500_000);
}

#[test]
fn test_timestamp_equals_receiver_time() {
    let obs = make_observable(1);

    assert_eq!(obs.timestamp_ps, channel(1, 17, 0.075).receiver_time_ps);
}

#[test]
fn measurements_share_the_time_of_transmission() {
    let mut eph = dummy_ephemeris(1);
    eph.clock.af2 = 100;
    eph.clock.toc = 90;
    let input = channel(1, 17, 0.075);
    let obs = Observable::from_channel(&input, &eph, 1_000_000, 3_000_000, TROPOSPHERE_UM);

    assert_eq!(input.pseudorange_input().tow_us, 96_000_000);
    assert_eq!(obs.pseudorange.t_tx_ps, 96_000_097_751_711 - 1_000_000);
    assert_eq!(obs.pseudorange.corrections.ionosphere_um, 3_000_000);
    assert_eq!(obs.pseudorange.corrections.troposphere_um, 2_300_000);
    assert_eq!(obs.pseudorange.corrections.satellite_clock_um, -299_792_458);
    // 200 steps of 2^-55 s/s^2 over 6.000 096 752 s, times the speed of light.
    assert_eq!(obs.doppler.clock_rate_correction_nm_s, -9985);
}

#[test]
fn test_observable_is_usable_with_good_signal_and_valid_pseudorange() {
    let obs = make_observable(1);

    assert!(obs.is_usable());
}

#[test]
fn test_observable_not_usable_with_low_cn0() {
    let obs = measure(&ObservableInput {
        carrier_freq_mhz: 1000 * GPS_L1_CARRIER_HZ,
        cn0_mdb_hz: Some(mdb(20.0)),
        ..channel(1, 18, 20_200_000.0 / 299_792_458.0)
    });

    assert!(!obs.is_usable(), "cn0=20 dB-Hz should be below threshold");
}

#[test]
fn test_observable_set_empty_initially() {
    let set = ObservableSet::new();

    assert!(set.is_empty());
    assert_eq!(set.len(), 0);
    assert_eq!(set.usable_count(), 0);
    assert!(!set.sufficient_for_fix());
}

#[test]
fn test_observable_set_push_increases_len() {
    let mut set = ObservableSet::new();

    set.push(make_observable(1));
    set.push(make_observable(2));

    assert_eq!(set.len(), 2);
}

#[test]
fn test_observable_set_sufficient_for_fix_with_four_good_observables() {
    let mut set = ObservableSet::new();

    for prn in 1u8..=4 {
        set.push(make_observable(prn));
    }

    assert!(set.sufficient_for_fix());
}

#[test]
fn test_observable_set_not_sufficient_with_three() {
    let mut set = ObservableSet::new();

    for prn in 1u8..=3 {
        set.push(make_observable(prn));
    }

    assert!(!set.sufficient_for_fix());
}

#[test]
fn test_observable_set_usable_iterator_filters_invalid() {
    let mut set = ObservableSet::new();

    set.push(make_observable(1));
    set.push(make_observable(2));

    let usable_count = set.usable().len();

    assert_eq!(usable_count, 2);
}

#[test]
fn test_observable_signal_quality_good_for_high_cn0() {
    let obs = make_observable(1);

    assert_eq!(obs.signal_quality(), SignalQuality::Good);
}

#[test]
fn test_observable_is_usable_on_cn0_threshold_boundary() {
    let obs = measure(&ObservableInput {
        carrier_freq_mhz: 1000 * GPS_L1_CARRIER_HZ,
        cn0_mdb_hz: Some(1000 * LOST_SIGNAL_CN0_THRESHOLD),
        ..channel(1, 17, 0.075)
    });

    assert!(obs.pseudorange.valid);
    assert_eq!(obs.cn0_mdb_hz, 1000 * LOST_SIGNAL_CN0_THRESHOLD);
    assert!(obs.is_usable());
}

#[test]
fn only_usable_measurements_are_kept_in_order() {
    let mut set = ObservableSet::new();
    set.push(make_observable(3));
    set.push(without_range(make_observable(4)));
    set.push(Observable { cn0_mdb_hz: 24_999, ..make_observable(5) });
    set.push(make_observable(6));
    let prns: Vec<u8> = set.usable().iter().map(|o| o.prn).collect();
    assert_eq!(prns, vec![3, 6]);
    assert_eq!(set.usable_count(), 2);
}

#[test]
fn test_quality_good_above_38() {
    assert_eq!(SignalQuality::of(mdb(45.0)), SignalQuality::Good);
}

#[test]
fn test_quality_marginal_between_30_and_38() {
    assert_eq!(SignalQuality::of(mdb(34.0)), SignalQuality::Marginal);
}

#[test]
fn test_quality_weak_between_25_and_30() {
    assert_eq!(SignalQuality::of(mdb(27.0)), SignalQuality::Weak);
}

#[test]
fn test_quality_lost_below_25() {
    assert_eq!(SignalQuality::of(mdb(20.0)), SignalQuality::Lost);
}

#[test]
fn test_quality_thresholds() {
    assert_eq!(SignalQuality::of(mdb(38.0)), SignalQuality::Good);
    assert_eq!(SignalQuality::of(mdb(37.999)), SignalQuality::Marginal);

    assert_eq!(SignalQuality::of(mdb(30.0)), SignalQuality::Marginal);
    assert_eq!(SignalQuality::of(mdb(29.999)), SignalQuality::Weak);

    assert_eq!(SignalQuality::of(mdb(25.0)), SignalQuality::Weak);
    assert_eq!(SignalQuality::of(mdb(24.999)), SignalQuality::Lost);
}

#[test]
fn test_tow_count_to_seconds_zero() {
    assert_eq!(tow_count_to_seconds(0), 0);
}

#[test]
fn test_tow_count_to_seconds_one() {
    assert_eq!(tow_count_to_seconds(1), 0);
}

#[test]
fn test_tow_count_to_seconds_two() {
    assert_eq!(tow_count_to_seconds(2), 6);
}

#[test]
fn test_tow_count_to_seconds_typical() {
    assert_eq!(tow_count_to_seconds(100), 594);
}

#[test]
fn largest_tow_count_does_not_overflow() {
    assert_eq!(tow_count_to_seconds(u32::MAX), 25_769_803_764);
}

#[test]
fn further_measurements_do_no_harm() {
    let mut set = ObservableSet::new();
    for prn in 1u8..=4 {
        set.push(make_observable(prn));
    }
    set.push(without_range(make_observable(5)));
    assert!(set.sufficient_for_fix());
    set.push(make_observable(6));
    assert_eq!(set.usable_count(), 5);
}
