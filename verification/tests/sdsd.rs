//! Time scales, week numbers, common epochs and timestamps.

use glrx::navigation::sdsd::{
    gps_to_utc, utc_to_gps, ChannelEpochSync, ChannelTimeSample, GnssTimeError, GpsTime,
    ReceiverTimestamp, SubMsTowInterpolator, UtcTime, WeekRollover, GPS_WEEK_FIELD_MODULUS,
    GPS_WEEK_NS, SECOND_NS,
};
use gnss_time::{Time, Utc};

#[test]
fn gps_to_utc_at_gps_epoch_matches_known_offset() {
    let gps = GpsTime::from_nanos(0);
    let utc = gps_to_utc(gps).unwrap();
    assert_eq!(utc.nanos, 252_892_800_000_000_000);
}

#[test]
fn gps_utc_gps_roundtrip() {
    let gps = GpsTime::from_week_tow(2300, 100, 0).unwrap();
    let utc = gps_to_utc(gps).unwrap();
    let back = utc_to_gps(utc).unwrap();
    assert_eq!(gps, back);
}

#[test]
fn resolve_week_same_cycle_exact_match() {
    // approx_full_week is in the same 1024-cycle as transmitted value.
    let resolved = WeekRollover::resolve_week(300, 2300);
    // 2300 mod 1024 = 252, base = 2048; closest candidate with mod=300
    // should be near 2300.
    assert_eq!(resolved % GPS_WEEK_FIELD_MODULUS, 300);
    assert!(resolved.abs_diff(2300) < GPS_WEEK_FIELD_MODULUS / 2);
}

#[test]
fn resolve_week_handles_rollover_boundary() {
    // Transmitted week 5 should resolve near approx 2300 if the
    // closest full week with mod 1024 == 5 is within half a cycle.
    let resolved = WeekRollover::resolve_week(5, 2300);
    assert_eq!(resolved % GPS_WEEK_FIELD_MODULUS, 5);
    assert!(resolved.abs_diff(2300) <= GPS_WEEK_FIELD_MODULUS / 2 + 1);
}

#[test]
fn resolve_week_zero_approx_zero_transmitted() {
    let resolved = WeekRollover::resolve_week(0, 0);
    assert_eq!(resolved, 0);
}

#[test]
fn detected_rollover_true_at_boundary() {
    assert!(WeekRollover::detected_rollover(1023, 0));
}

#[test]
fn detected_rollover_false_for_normal_increment() {
    assert!(!WeekRollover::detected_rollover(500, 501));
}

#[test]
fn detected_rollover_false_for_non_adjacent_values() {
    assert!(!WeekRollover::detected_rollover(100, 200));
}

/// A code phase in chips, in units of 10^-9 chips.
fn nanochips(chips: f64) -> i64 {
    (chips * 1e9).round() as i64
}

#[test]
fn sub_ms_correction_zero_phase_is_zero() {
    let interp = SubMsTowInterpolator::for_gps_l1ca();
    assert_eq!(interp.sub_ms_correction_ns(nanochips(0.0)), 0);
}

#[test]
fn sub_ms_correction_half_chip_period_is_half_ms() {
    let interp = SubMsTowInterpolator::for_gps_l1ca();
    let half_chips = f64::from(SubMsTowInterpolator::GPS_CODE_LENGTH_CHIPS) / 2.0;
    let ns = interp.sub_ms_correction_ns(nanochips(half_chips));
    assert!(
        (ns as i64 - 500_000).abs() < 100,
        "expected ~500000 ns, got {ns}"
    );
}

#[test]
fn sub_ms_correction_full_period_wraps_to_zero() {
    let interp = SubMsTowInterpolator::for_gps_l1ca();
    let ns = interp.sub_ms_correction_ns(nanochips(f64::from(SubMsTowInterpolator::GPS_CODE_LENGTH_CHIPS)));
    assert!(ns < 1000, "full period should wrap near zero, got {ns}");
}

#[test]
fn sub_ms_correction_never_reaches_one_million() {
    let interp = SubMsTowInterpolator::for_gps_l1ca();
    for chips in [0.0, 100.0, 500.0, 1000.0, 1022.999] {
        let ns = interp.sub_ms_correction_ns(nanochips(chips));
        assert!(ns <= 999_999, "ns={ns} exceeded bound for chips={chips}");
    }
}

#[test]
fn interpolate_produces_valid_gps_time() {
    let interp = SubMsTowInterpolator::for_gps_l1ca();
    let result = interp.interpolate(2300, 5_000, nanochips(0.0)); // 5 whole ms
    assert!(result.is_ok());
    let t = result.unwrap();
    assert_eq!(t.week(), 2300);
}

#[test]
fn interpolate_adds_sub_ms_correction_to_nanos() {
    let interp = SubMsTowInterpolator::for_gps_l1ca();
    let half_chips = f64::from(SubMsTowInterpolator::GPS_CODE_LENGTH_CHIPS) / 2.0;
    let t = interp.interpolate(100, 1_000, nanochips(half_chips)).unwrap();
    // 1000 ms = 1 s exactly, plus ~500_000 ns sub-ms correction
    assert_eq!(t.tow_seconds(), 1);
    assert!(t.sub_second_nanos() > 400_000 && t.sub_second_nanos() < 600_000);
}

#[test]
fn interpolate_zero_phase_gives_whole_ms_exactly() {
    let interp = SubMsTowInterpolator::for_gps_l1ca();
    let t = interp.interpolate(500, 2_500, nanochips(0.0)).unwrap();
    assert_eq!(t.tow_seconds(), 2);
    assert_eq!(t.sub_second_nanos(), 500_000_000);
}

fn sample(
    prn: u8,
    gps_nanos: u64,
    cn0: f32,
) -> ChannelTimeSample {
    ChannelTimeSample {
        prn,
        gps_time: GpsTime::from_nanos(gps_nanos),
        weight: 10f64.powf(f64::from(cn0) / 10.0).round() as u32,
    }
}

#[test]
fn common_epoch_rejects_empty_input() {
    let result = ChannelEpochSync::common_epoch(&[]);
    assert!(result.is_err());
}

#[test]
fn common_epoch_single_sample_returns_same_time() {
    let samples = [sample(1, 1_000_000_000, 45.0)];
    let result = ChannelEpochSync::common_epoch(&samples).unwrap();
    assert_eq!(result.gps_time.as_nanos(), 1_000_000_000);
    assert_eq!(result.max_deviation_ns, 0);
    assert_eq!(result.channel_count, 1);
}

#[test]
fn common_epoch_identical_samples_zero_deviation() {
    let samples = [
        sample(1, 5_000_000_000, 45.0),
        sample(2, 5_000_000_000, 40.0),
        sample(3, 5_000_000_000, 50.0),
    ];
    let result = ChannelEpochSync::common_epoch(&samples).unwrap();
    assert_eq!(result.gps_time.as_nanos(), 5_000_000_000);
    assert_eq!(result.max_deviation_ns, 0);
}

#[test]
fn common_epoch_averages_small_offsets() {
    let samples = [
        sample(1, 1_000_000_000, 45.0),
        sample(2, 1_000_000_100, 45.0), // +100 ns, same weight
    ];
    let result = ChannelEpochSync::common_epoch(&samples).unwrap();
    let expected = 1_000_000_050u64;
    assert!(
        result.gps_time.as_nanos().abs_diff(expected) <= 1,
        "got {}",
        result.gps_time.as_nanos()
    );
}

#[test]
fn common_epoch_max_deviation_reflects_largest_outlier() {
    let samples = [
        sample(1, 1_000_000_000, 45.0),
        sample(2, 1_000_000_000, 45.0),
        sample(3, 1_000_050_000, 45.0), // 50_000 ns away
    ];
    let result = ChannelEpochSync::common_epoch(&samples).unwrap();
    assert!(result.max_deviation_ns > 0);
}

#[test]
fn common_epoch_weights_stronger_signal_more() {
    // Strong-signal channel close to 1_000_000_000, weak-signal channel
    let samples = [
        sample(1, 1_000_000_000, 50.0), // strong, weight dominant
        sample(2, 1_001_000_000, 10.0), // weak, 1ms away
    ];
    let result = ChannelEpochSync::common_epoch(&samples).unwrap();
    let dist_to_strong = result.gps_time.as_nanos().abs_diff(1_000_000_000);
    let dist_to_weak = result.gps_time.as_nanos().abs_diff(1_001_000_000);
    assert!(
        dist_to_strong < dist_to_weak,
        "result should be closer to the stronger-signal channel"
    );
}

#[test]
fn outlier_count_zero_when_all_close() {
    let samples = [
        sample(1, 1_000_000_000, 45.0),
        sample(2, 1_000_000_010, 45.0),
    ];
    let common = ChannelEpochSync::common_epoch(&samples).unwrap();
    let outliers = ChannelEpochSync::outlier_count(&samples, &common, 1_000);
    assert_eq!(outliers, 0);
}

#[test]
fn outlier_count_detects_diverging_channel() {
    let samples = [
        sample(1, 1_000_000_000, 45.0),
        sample(2, 1_000_000_000, 45.0),
        sample(3, 1_010_000_000, 45.0),
    ];
    let common = ChannelEpochSync::common_epoch(&samples).unwrap();
    let outliers = ChannelEpochSync::outlier_count(&samples, &common, 1_000_000);
    assert_eq!(outliers, 1);
}

#[test]
fn receiver_timestamp_from_gps_populates_all_fields() {
    let gps = GpsTime::from_week_tow(2300, 0, 0).unwrap();
    let ts = ReceiverTimestamp::from_gps(gps).unwrap();
    assert_eq!(ts.gpst, gps);
    assert!(ts.unix_nanos > 0);
}

#[test]
fn receiver_timestamp_gps_week_and_tow_accessors() {
    let gps = GpsTime::from_week_tow(2345, 432_000, 123_000_000).unwrap();
    let ts = ReceiverTimestamp::from_gps(gps).unwrap();
    assert_eq!(ts.gps_week(), 2345);
    assert_eq!(ts.gps_tow_seconds(), 432_000);
    assert_eq!(ts.gps_tow_sub_second_nanos(), 123_000_000);
}

#[test]
fn receiver_timestamp_unix_seconds_matches_utc() {
    let gps = GpsTime::from_nanos(0);
    let ts = ReceiverTimestamp::from_gps(gps).unwrap();
    assert_eq!(ts.unix_seconds(), Time::<Utc>::from_nanos(ts.utc.nanos).as_unix_seconds());
}

#[test]
fn receiver_timestamp_utc_iso8601_contains_t_and_z() {
    let gps = GpsTime::from_nanos(0);
    let ts = ReceiverTimestamp::from_gps(gps).unwrap();
    let s = ts.utc_iso8601();
    let formatted = format!("{s}");
    assert!(formatted.contains('T'));
    assert!(formatted.ends_with('Z'));
}

#[test]
fn full_pipeline_decoded_tow_to_output_timestamp() {
    // Simulates: decoded week (10-bit) + approx full week (receiver
    // clock) -> resolve -> interpolate sub-ms -> aggregate -> output.
    let transmitted_week_mod = 2300u32 % GPS_WEEK_FIELD_MODULUS;
    let approx_full_week = 2300u32;
    let full_week = WeekRollover::resolve_week(transmitted_week_mod, approx_full_week);
    assert_eq!(full_week, 2300);

    let interp = SubMsTowInterpolator::for_gps_l1ca();
    let gps_time = interp
        .interpolate(u16::try_from(full_week).unwrap(), 86_400_000, nanochips(0.0))
        .unwrap();

    let ts = ReceiverTimestamp::from_gps(gps_time).unwrap();
    assert_eq!(ts.gps_week(), 2300);
    assert_eq!(ts.gps_tow_seconds(), 86_400);
}

#[test]
fn leap_seconds_are_those_of_the_moment() {
    // No leap second at the GPS epoch, 18 since 2017.
    let late = GpsTime::from_nanos(1_300_000_000 * SECOND_NS);
    let utc = gps_to_utc(late).unwrap();
    assert_eq!(utc.nanos, (1_300_000_000 + 252_892_800 - 18) * SECOND_NS);
    assert_eq!(utc_to_gps(utc).unwrap(), late);
}

#[test]
fn a_moment_before_the_gps_epoch_has_no_gps_time() {
    assert!(utc_to_gps(UtcTime { nanos: 0 }).is_err());
    assert!(utc_to_gps(UtcTime { nanos: 252_892_800_000_000_000 - 1 }).is_err());
    assert_eq!(utc_to_gps(UtcTime { nanos: 252_892_800_000_000_000 }), Ok(GpsTime::from_nanos(0)));
}

#[test]
fn gps_time_beyond_the_range_of_utc_is_an_overflow() {
    assert_eq!(gps_to_utc(GpsTime::from_nanos(u64::MAX)), Err(GnssTimeError::Overflow));
}

#[test]
fn round_trips_hold_off_the_leap_seconds() {
    for s in [0u64, 1, 46_828_799, 46_828_802, 500_000_000, 1_167_264_000, 1_400_000_000] {
        let gps = GpsTime::from_nanos(s * SECOND_NS + 5);
        assert_eq!(utc_to_gps(gps_to_utc(gps).unwrap()).unwrap(), gps, "{s}");
    }
}

#[test]
fn week_and_time_of_week_name_a_moment() {
    let t = GpsTime::from_week_tow(2345, 604_799, 999_999_999).unwrap();
    assert_eq!(t.as_nanos(), 2346 * GPS_WEEK_NS - 1);
    assert_eq!((t.week(), t.tow_seconds(), t.sub_second_nanos()), (2345, 604_799, 999_999_999));
}

#[test]
fn times_outside_the_week_are_refused() {
    assert_eq!(
        GpsTime::from_week_tow(1, 604_800, 1_000_000_000),
        Err(GnssTimeError::InvalidInput("tow.seconds must be in [0, 604_800)"))
    );
    assert_eq!(
        GpsTime::from_week_tow(1, 604_799, 1_000_000_000),
        Err(GnssTimeError::InvalidInput("tow.nanos must be in [0, 1_000_000_000)"))
    );
    assert_eq!(GpsTime::from_week_tow(u16::MAX, 0, 0), Err(GnssTimeError::Overflow));
    let interp = SubMsTowInterpolator::for_gps_l1ca();
    assert_eq!(
        interp.interpolate(1, 604_800_000, 0),
        Err(GnssTimeError::InvalidInput("tow.seconds must be in [0, 604_800)"))
    );
    assert_eq!(interp.interpolate(u16::MAX, 0, 0), Err(GnssTimeError::Overflow));
}

#[test]
fn code_phase_is_exact_to_the_nanosecond() {
    let interp = SubMsTowInterpolator::new(1000);
    assert_eq!(interp.sub_ms_correction_ns(1_000_000_000), 1000);
    assert_eq!(interp.sub_ms_correction_ns(999_999_999_999), 999_999);
    assert_eq!(interp.sub_ms_correction_ns(1_000_000_000_000), 0);
    assert_eq!(interp.sub_ms_correction_ns(-1_000_000_000), 999_000);
    assert_eq!(SubMsTowInterpolator::new(0).sub_ms_correction_ns(7), 0);
}

#[test]
fn the_true_week_is_recovered_from_its_low_bits() {
    for week in [0u32, 5, 511, 1023, 1024, 2047, 2048, 2300, 4000] {
        for off in [-500i64, -3, 0, 3, 500] {
            let approx = i64::from(week) + off;
            if approx >= 0 {
                let got = WeekRollover::resolve_week(week % 1024, approx as u32);
                assert_eq!(got, week, "{week} {off}");
            }
        }
    }
}

#[test]
fn common_epoch_is_the_weighted_mean() {
    let at = |prn: u8, nanos: u64, weight: u32| ChannelTimeSample {
        prn,
        gps_time: GpsTime::from_nanos(nanos),
        weight,
    };
    let samples = [at(1, 1_000, 1), at(2, 2_000, 3), at(3, 1_400, 1)];
    let common = ChannelEpochSync::common_epoch(&samples).unwrap();
    assert_eq!(common.gps_time.as_nanos(), 1_680);
    assert_eq!(common.max_deviation_ns, 680);
    assert_eq!(common.channel_count, 3);
    assert_eq!(ChannelEpochSync::outlier_count(&samples, &common, 319), 2);
    assert_eq!(ChannelEpochSync::outlier_count(&samples, &common, 320), 1);
    assert_eq!(
        ChannelEpochSync::common_epoch(&[]),
        Err(GnssTimeError::InvalidInput("samples must not be empty"))
    );
}

#[test]
fn channels_far_from_the_common_epoch_are_outliers() {
    let samples = [sample(1, 0, 40.0), sample(2, 0, 40.0), sample(3, 0, 40.0)];
    let away = ChannelEpochSync::common_epoch(&[sample(4, 8_000_000_000, 40.0)]).unwrap();
    assert_eq!(ChannelEpochSync::outlier_count(&samples, &away, 1_000_000), 3);
    assert_eq!(ChannelEpochSync::outlier_count(&samples, &away, 8_000_000_000), 0);
}

#[test]
fn only_an_epoch_dragged_by_strays_excuses_channels() {
    let samples = [sample(1, 0, 45.0), sample(2, 0, 45.0), sample(3, 10_000_000, 45.0)];
    let own = ChannelEpochSync::common_epoch(&samples).unwrap();
    assert_eq!(own.gps_time.as_nanos(), 3_333_333);
    assert_eq!(ChannelEpochSync::outlier_count(&samples, &own, 1_000_000), 1);
    let foreign = ChannelEpochSync::common_epoch(&[sample(4, 20_000_000, 45.0)]).unwrap();
    assert_eq!(ChannelEpochSync::outlier_count(&samples, &foreign, 1_000_000), 3);
}

#[test]
fn a_channel_far_from_the_epoch_without_strays_counts() {
    let at = |prn: u8, nanos: u64, weight: u32| ChannelTimeSample {
        prn,
        gps_time: GpsTime::from_nanos(nanos),
        weight,
    };
    let samples = [
        at(1, 0, 1),
        at(2, 1_000, 1),
        at(3, 1_000, 1),
        at(4, 1_000, 1),
        at(5, 2_000, 100),
        at(6, 1_000_000, 100),
    ];
    let steady = ChannelEpochSync::common_epoch(&samples[..5]).unwrap();
    assert_eq!(steady.gps_time.as_nanos(), 1_952);
    let common = ChannelEpochSync::common_epoch(&samples).unwrap();
    assert_eq!(ChannelEpochSync::outlier_count(&samples, &common, 1_000), 2);
}

#[test]
fn civil_time_is_written_out() {
    let ts = ReceiverTimestamp::from_gps(GpsTime::from_nanos(0)).unwrap();
    assert!(ts.utc_iso8601().starts_with("1980-01-06T00:00:00"));
    assert_eq!(ts.unix_seconds(), 315_964_800);
    assert_eq!(ts.unix_nanos, 315_964_800_000_000_000);
    let other = ReceiverTimestamp::from_gps_and_utc(
        GpsTime::from_nanos(7),
        UtcTime { nanos: 252_892_800_000_000_000 },
    );
    assert_eq!(other.gpst, GpsTime::from_nanos(7));
    assert_eq!(other.unix_nanos, ts.unix_nanos);
}

#[test]
fn common_epoch_moves_with_the_channels() {
    let samples = [sample(1, 5_000, 40.0), sample(2, 5_300, 45.0), sample(3, 4_100, 30.0)];
    let epoch = ChannelEpochSync::common_epoch(&samples).unwrap();
    let moved: Vec<ChannelTimeSample> = samples
        .iter()
        .map(|s| ChannelTimeSample {
            gps_time: GpsTime::from_nanos(s.gps_time.as_nanos() + 1_000_000_007),
            ..*s
        })
        .collect();
    let later = ChannelEpochSync::common_epoch(&moved).unwrap();
    assert_eq!(later.gps_time.as_nanos(), epoch.gps_time.as_nanos() + 1_000_000_007);
    assert_eq!(later.max_deviation_ns, epoch.max_deviation_ns);
}

#[test]
fn channels_that_agree_are_not_outliers() {
    // Two pairs that disagree: in each pair one of the three others is near.
    let samples = [
        sample(1, 0, 40.0),
        sample(2, 0, 40.0),
        sample(3, 1_000_000, 40.0),
        sample(4, 1_000_000, 40.0),
    ];
    let common = ChannelEpochSync::common_epoch(&samples).unwrap();
    assert_eq!(common.gps_time.as_nanos(), 500_000);
    assert_eq!(ChannelEpochSync::outlier_count(&samples, &common, 1_000), 4);
    assert_eq!(ChannelEpochSync::outlier_count(&samples, &common, 500_000), 0);
    // Without a stray, every channel far from the common epoch counts.
    assert_eq!(ChannelEpochSync::outlier_count(&samples[..2], &common, 1_000), 2);
    assert_eq!(ChannelEpochSync::outlier_count(&samples[..2], &common, 500_000), 0);
    // A single channel has no one to agree with.
    let far = ChannelEpochSync::common_epoch(&samples[2..]).unwrap();
    assert_eq!(ChannelEpochSync::outlier_count(&samples[..1], &far, 1_000), 1);
}
