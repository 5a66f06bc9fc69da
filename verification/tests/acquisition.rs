//! Search grids, peaks, decisions on satellites, and the receiver's states.

use std::time::Duration;

use glrx::acquisition::correlator::{code_phase_microchips, peak_index, SliceSearch};
use glrx::acquisition::detector::{kept_cells, DetectionVerdict, Detector, DetectorConfig};
use glrx::acquisition::fft_search::{strongest_first, SearchConfig, SearchResult, SearchSurface};
use glrx::acquisition::ranking::rank_descending;
use glrx::acquisition::verification::{
    confirmed_strongest_first, gather_verdicts, verify_prn_pure, AcquisitionResult,
    AcquisitionVerifier, MarginalReason, RetryAction, RetryPolicy, VerificationVerdict,
    VerifierConfig, VerifierStats,
};
use glrx::pipeline::receiver::{Receiver, ReceiverConfig, ReceiverEvent, ReceiverState};

const N: usize = 2048;

/// A frequency in hertz, in millihertz.
fn mhz(hz: f64) -> i64 {
    (hz * 1000.0).round() as i64
}

/// The order key of a power.
fn key(power: f32) -> u32 {
    power.to_bits()
}

fn small_verifier_config() -> VerifierConfig {
    VerifierConfig {
        first_pass: SearchConfig {
            doppler_min_mhz: mhz(-1_000.0),
            doppler_max_mhz: mhz(1_000.0),
            doppler_step_mhz: mhz(500.0),
            cfar_threshold_milli: 2000,
        },
        second_pass: SearchConfig {
            doppler_min_mhz: mhz(-500.0),
            doppler_max_mhz: mhz(500.0),
            doppler_step_mhz: mhz(250.0),
            cfar_threshold_milli: 2000,
        },
        doppler_tolerance_mhz: 600_000,
        retry: RetryPolicy { max_attempts: 1, base_delay_ms: 0, max_delay_ms: 0 },
    }
}

fn make_verifier() -> AcquisitionVerifier {
    AcquisitionVerifier::new(small_verifier_config())
}

fn dummy_search_result(prn: u8) -> SearchResult {
    SearchResult {
        prn,
        doppler_coarse_mhz: 0,
        doppler_fine_mhz: 0,
        code_phase_samples: 100,
        code_phase_microchips: 50_000_000,
        peak_to_noise_milli: 500_000,
        detected: true,
    }
}

/// The search of a block of zeros: no power anywhere.
fn search_zero_signal(config: &SearchConfig, prn: u8) -> SearchResult {
    let surface = SearchSurface::new(config.num_doppler_bins(), N);
    let (trial, phase, power) = surface.global_peak();
    assert_eq!(power, 0);
    SearchResult::at_peak(config, prn, trial, phase, N, config.doppler_trials()[trial], 0)
}

/// The verdict on a satellite in a block of zeros.
fn verify_zero_signal(config: &VerifierConfig, prn: u8) -> VerificationVerdict {
    let first = Some(search_zero_signal(&config.first_pass, prn));
    assert!(config.narrow_search(&first).is_none());
    verify_prn_pure(prn, first, None, 0, config, 0)
}

fn confirmed(prn: u8, cn0_mdb_hz: i32) -> VerificationVerdict {
    VerificationVerdict::Confirmed { result: dummy_search_result(prn), cn0_mdb_hz, elapsed_ns: 10 }
}

fn rejected(prn: u8) -> VerificationVerdict {
    VerificationVerdict::Rejected { prn, peak_to_noise_milli: None, elapsed_ns: 5 }
}

fn rate(parts: (u64, u128)) -> f64 {
    parts.0 as f64 / parts.1 as f64
}

// Retries

#[test]
fn test_retry_first_attempt_zero_delay() {
    assert_eq!(RetryPolicy::default().delay_for(0), Duration::ZERO);
}

#[test]
fn test_retry_exponential_backoff() {
    let p = RetryPolicy { base_delay_ms: 10, max_delay_ms: 1000, ..Default::default() };

    assert_eq!(p.delay_for(1).as_millis(), 10);
    assert_eq!(p.delay_for(2).as_millis(), 20);
    assert_eq!(p.delay_for(3).as_millis(), 40);
}

#[test]
fn test_retry_capped_at_max() {
    let p = RetryPolicy { base_delay_ms: 100, max_delay_ms: 150, ..Default::default() };

    assert!(p.delay_for(10).as_millis() <= 150);
}

#[test]
fn delays_stay_at_the_limit_for_any_attempt() {
    let p = RetryPolicy { base_delay_ms: 3, max_delay_ms: u64::MAX, ..Default::default() };
    assert_eq!(p.delay_ms_for(63), 3 << 62);
    assert_eq!(p.delay_ms_for(64), u64::MAX);
    assert_eq!(p.delay_ms_for(usize::MAX), u64::MAX);
    let p = RetryPolicy { base_delay_ms: 1500, max_delay_ms: 4000, ..Default::default() };
    assert_eq!(p.delay_for(2), Duration::new(3, 0));
    assert_eq!(p.delay_for(1), Duration::from_millis(1500));
    assert_eq!(p.delay_for(3), Duration::from_secs(4));
}

#[test]
fn rejected_satellites_are_tried_again_up_to_the_limit() {
    let mut v = AcquisitionVerifier::new(VerifierConfig::default());
    assert_eq!(
        v.after_attempt(0, &rejected(3)),
        RetryAction::Retry { attempt: 1, delay_ms: 20 }
    );
    assert_eq!(
        v.after_attempt(1, &rejected(3)),
        RetryAction::Retry { attempt: 2, delay_ms: 40 }
    );
    assert_eq!(v.stats.total_calls, 0);
    assert_eq!(v.after_attempt(2, &rejected(3)), RetryAction::Finish);
    assert_eq!((v.stats.total_calls, v.stats.rejected, v.stats.retried), (1, 1, 1));
    assert_eq!(v.after_attempt(0, &confirmed(4, 40_000)), RetryAction::Finish);
    assert_eq!((v.stats.total_calls, v.stats.confirmed, v.stats.retried), (2, 1, 1));
}

// Counters

#[test]
fn test_stats_false_alarm_rate_zero_when_empty() {
    assert!(rate(VerifierStats::default().false_alarm_rate()).abs() < 1e-9);
}

#[test]
fn test_stats_false_alarm_rate_half() {
    let s = VerifierStats { confirmed: 5, marginal: 5, ..Default::default() };

    assert!((rate(s.marginal_rate()) - 0.5).abs() < 1e-9);
}

#[test]
fn test_stats_mean_elapsed_zero_when_empty() {
    assert_eq!(VerifierStats::default().mean_elapsed(), Duration::ZERO);
}

#[test]
fn mean_elapsed_is_rounded_down() {
    let s = VerifierStats {
        total_calls: 3,
        total_elapsed_ns: 6_000_000_005,
        ..Default::default()
    };
    assert_eq!(s.mean_elapsed(), Duration::new(2, 1));
}

#[test]
fn test_stats_merge_adds_fields() {
    let mut a =
        VerifierStats { total_calls: 2, confirmed: 1, marginal: 1, ..Default::default() };
    let b = VerifierStats { total_calls: 3, confirmed: 2, rejected: 1, ..Default::default() };

    a.merge(&b);

    assert_eq!(a.total_calls, 5);
    assert_eq!(a.confirmed, 3);
    assert_eq!(a.marginal, 1);
    assert_eq!(a.rejected, 1);
}

#[test]
fn test_deprecated_false_alarm_rate_matches_marginal_rate() {
    let s = VerifierStats { confirmed: 3, marginal: 1, ..Default::default() };

    assert!((rate(s.false_alarm_rate()) - rate(s.marginal_rate())).abs() < 1e-12);
}

#[test]
fn test_stats_total_calls_accumulate() {
    let mut v = make_verifier();

    for prn in 1u8..=3 {
        let verdict = verify_zero_signal(&v.config, prn);
        assert_eq!(v.after_attempt(0, &verdict), RetryAction::Finish);
    }

    assert_eq!(v.stats.total_calls, 3);
}

#[test]
fn test_stats_reset_clears_all_fields() {
    let mut v = make_verifier();
    let verdict = verify_zero_signal(&v.config, 1);

    v.after_attempt(0, &verdict);
    v.reset_stats();

    let s = v.stats;

    assert_eq!(s.total_calls, 0);
    assert_eq!(s.confirmed, 0);
    assert_eq!(s.marginal, 0);
    assert_eq!(s.rejected, 0);
    assert_eq!(s.retried, 0);
}

#[test]
fn test_absorb_stats_merges_into_verifier() {
    let mut v = make_verifier();

    let external = VerifierStats { confirmed: 5, total_calls: 5, ..Default::default() };

    v.absorb_stats(&external);

    assert_eq!(v.stats.confirmed, 5);
    assert_eq!(v.stats.total_calls, 5);
}

// Verdicts

#[test]
fn test_confirmed_is_confirmed_and_has_acquisition_result() {
    let v = VerificationVerdict::Confirmed {
        result: dummy_search_result(1),
        cn0_mdb_hz: 45_000,
        elapsed_ns: 5_000_000,
    };

    assert!(v.is_confirmed());
    assert!(v.acquisition_result().is_some());
    assert!(v.search_result_diagnostic().is_some());
    assert_eq!(v.elapsed_ns(), 5_000_000);
}

#[test]
fn test_marginal_not_confirmed_no_acquisition_result() {
    let v = VerificationVerdict::Marginal {
        result: dummy_search_result(1),
        reason: MarginalReason::LowSnr,
        elapsed_ns: 0,
    };

    assert!(!v.is_confirmed());
    assert!(
        v.acquisition_result().is_none(),
        "Marginal must NOT pass to tracking via acquisition_result()"
    );
    assert!(v.search_result_diagnostic().is_some());
}

#[test]
fn test_rejected_no_acquisition_result_no_diagnostic() {
    let v = VerificationVerdict::Rejected { prn: 1, peak_to_noise_milli: None, elapsed_ns: 0 };

    assert!(!v.is_confirmed());
    assert!(v.acquisition_result().is_none());
    assert!(v.search_result_diagnostic().is_none());
}

#[test]
fn test_acquisition_result_fields_correct() {
    let mut r = dummy_search_result(7);
    r.doppler_fine_mhz = mhz(1050.0);
    r.code_phase_samples = 42;
    r.code_phase_microchips = 21_000_000;

    let ar = AcquisitionResult::from_search_result(&r, 45_000);

    assert_eq!(ar.prn, 7);
    assert!((ar.doppler_mhz as f64 / 1000.0 - 1050.0).abs() < 1e-9);
    assert_eq!(ar.code_phase_samples, 42);
    assert!((ar.code_phase_microchips as f64 / 1e6 - 21.0).abs() < 1e-9);
    assert!((f64::from(ar.cn0_mdb_hz) / 1000.0 - 45.0).abs() < 1e-3);
}

#[test]
fn marginal_diagnostic_all_reasons_accessible() {
    for reason in [
        MarginalReason::NoResult,
        MarginalReason::LowSnr,
        MarginalReason::DopplerMismatch,
        MarginalReason::LowSnrAndDopplerMismatch,
    ] {
        let v = VerificationVerdict::Marginal {
            result: dummy_search_result(1),
            reason,
            elapsed_ns: 0,
        };

        assert!(!v.is_confirmed());
    }
}

#[test]
fn test_verify_prn_zero_signal_rejected() {
    let mut v = make_verifier();
    let verdict = verify_zero_signal(&v.config, 1);
    v.after_attempt(0, &verdict);

    assert!(matches!(verdict, VerificationVerdict::Rejected { .. }), "got another outcome");
}

#[test]
fn test_verify_prn_pure_zero_signal_rejected() {
    let v = verify_zero_signal(&small_verifier_config(), 1);

    assert!(matches!(v, VerificationVerdict::Rejected { .. }));
}

#[test]
fn test_verify_all_empty_for_noise() {
    let config = small_verifier_config();
    let verdicts: Vec<VerificationVerdict> =
        (1u8..=32).map(|prn| verify_zero_signal(&config, prn)).collect();

    assert!(confirmed_strongest_first(&verdicts).is_empty());
}

#[test]
fn test_parallel_empty_for_noise() {
    let config = small_verifier_config();
    let verdicts: Vec<VerificationVerdict> =
        (1u8..=32).map(|prn| verify_zero_signal(&config, prn)).collect();
    let out = gather_verdicts(&verdicts);

    assert!(out.results.is_empty(), "noise should yield no confirmations");
    assert_eq!(out.stats.total_calls, 32);
}

#[test]
fn second_search_decides_by_strength_and_shift() {
    let config = small_verifier_config();
    let first = SearchResult { doppler_coarse_mhz: mhz(500.0), ..dummy_search_result(9) };
    let second = |doppler_hz: f64, ptn: u64| {
        Some(SearchResult {
            doppler_fine_mhz: mhz(doppler_hz),
            peak_to_noise_milli: ptn,
            ..dummy_search_result(9)
        })
    };
    let verdict = |s| verify_prn_pure(9, Some(first), s, 41_000, &config, 7);
    assert_eq!(
        verdict(second(1_100.0, 2000)),
        VerificationVerdict::Confirmed {
            result: second(1_100.0, 2000).unwrap(),
            cn0_mdb_hz: 41_000,
            elapsed_ns: 7,
        }
    );
    let reason = |v: VerificationVerdict| match v {
        VerificationVerdict::Marginal { result, reason, .. } => {
            assert_eq!(result, first);
            reason
        }
        other => panic!("{other:?}"),
    };
    assert_eq!(reason(verdict(None)), MarginalReason::NoResult);
    assert_eq!(reason(verdict(second(1_100.001, 2000))), MarginalReason::DopplerMismatch);
    assert_eq!(reason(verdict(second(-100.0, 1999))), MarginalReason::LowSnr);
    assert_eq!(
        reason(verdict(second(-100.001, 0))),
        MarginalReason::LowSnrAndDopplerMismatch
    );
    let undetected = SearchResult { detected: false, peak_to_noise_milli: 1500, ..first };
    assert_eq!(
        verify_prn_pure(9, Some(undetected), second(500.0, 9000), 0, &config, 1),
        VerificationVerdict::Rejected { prn: 9, peak_to_noise_milli: Some(1500), elapsed_ns: 1 }
    );
    assert_eq!(
        verify_prn_pure(9, None, None, 0, &config, 2),
        VerificationVerdict::Rejected { prn: 9, peak_to_noise_milli: None, elapsed_ns: 2 }
    );
}

#[test]
fn second_search_is_centred_on_the_candidate() {
    let config = small_verifier_config();
    let first = SearchResult { doppler_coarse_mhz: mhz(500.0), ..dummy_search_result(9) };
    let narrow = config.narrow_search(&Some(first)).unwrap();
    assert_eq!(narrow.doppler_min_mhz, 0);
    assert_eq!(narrow.doppler_max_mhz, mhz(1_000.0));
    assert_eq!(narrow.doppler_step_mhz, mhz(250.0));
    assert!(config.narrow_search(&Some(SearchResult { detected: false, ..first })).is_none());
    assert!(config.narrow_search(&None).is_none());
}

#[test]
fn confirmations_come_strongest_first() {
    let verdicts = [
        confirmed(1, 40_000),
        rejected(2),
        confirmed(3, 45_000),
        VerificationVerdict::Marginal {
            result: dummy_search_result(4),
            reason: MarginalReason::LowSnr,
            elapsed_ns: 1,
        },
        confirmed(5, 40_000),
    ];
    let out = gather_verdicts(&verdicts);
    let prns: Vec<u8> = out.results.iter().map(|r| r.prn).collect();
    assert_eq!(prns, vec![3, 1, 5]);
    assert_eq!(
        (out.stats.total_calls, out.stats.confirmed, out.stats.marginal, out.stats.rejected),
        (5, 3, 1, 1)
    );
    assert_eq!(out.stats.total_elapsed_ns, 36);
    assert_eq!(rank_descending(&out.results), out.results);
}

// Search

#[test]
fn test_search_config_default_num_bins() {
    let cfg = SearchConfig::default();

    // (-10000 .. +10000) / 500 + 1 = 41
    assert_eq!(cfg.num_doppler_bins(), 41);
}

#[test]
fn test_search_config_doppler_trials_range() {
    let cfg = SearchConfig::default();
    let trials = cfg.doppler_trials();

    assert!((trials.first().unwrap() - cfg.doppler_min_mhz).abs() < 1000);
    assert!((trials.last().unwrap() - cfg.doppler_max_mhz).abs() < 1000);
}

#[test]
fn test_search_config_custom() {
    let cfg = SearchConfig {
        doppler_min_mhz: mhz(-1000.0),
        doppler_max_mhz: mhz(1000.0),
        doppler_step_mhz: mhz(500.0),
        cfar_threshold_milli: 2500,
    };

    assert_eq!(cfg.num_doppler_bins(), 5);
    assert_eq!(
        cfg.doppler_trials(),
        vec![mhz(-1000.0), mhz(-500.0), 0, mhz(500.0), mhz(1000.0)]
    );
}

#[test]
fn trials_end_within_half_a_step_of_the_span() {
    for max in [-1000, -999, -751, -750, -749, 0, 333, 1000] {
        let cfg = SearchConfig {
            doppler_min_mhz: -1000,
            doppler_max_mhz: max,
            doppler_step_mhz: 500,
            cfar_threshold_milli: 0,
        };
        let trials = cfg.doppler_trials();
        assert_eq!(trials[0], -1000);
        let beyond = trials[trials.len() - 1] - max;
        assert!(-500 < 2 * beyond && 2 * beyond <= 500, "{max}");
    }
}

#[test]
fn test_search_prn_zero_signal_not_detected() {
    let cfg = SearchConfig {
        doppler_min_mhz: 0,
        doppler_max_mhz: 0,
        doppler_step_mhz: mhz(500.0),
        cfar_threshold_milli: 3000,
    };
    let res = search_zero_signal(&cfg, 1);

    assert!(!res.detected, "zero signal should not be detected");
}

#[test]
fn test_search_all_no_signal_returns_empty() {
    let cfg = SearchConfig {
        doppler_min_mhz: 0,
        doppler_max_mhz: 0,
        doppler_step_mhz: mhz(500.0),
        cfar_threshold_milli: 3000,
    };
    let results: Vec<SearchResult> =
        (1u8..=32).map(|prn| search_zero_signal(&cfg, prn)).collect();

    assert!(strongest_first(&results).is_empty(), "noise should not produce detections");
}

#[test]
fn detections_come_strongest_first() {
    let at = |prn: u8, ptn: u64, detected: bool| SearchResult {
        peak_to_noise_milli: ptn,
        detected,
        ..dummy_search_result(prn)
    };
    let results = [at(1, 3000, true), at(2, 9000, false), at(3, 7000, true), at(4, 3000, true)];
    let prns: Vec<u8> = strongest_first(&results).iter().map(|r| r.prn).collect();
    assert_eq!(prns, vec![3, 1, 4]);
}

#[test]
fn peak_of_a_surface_gives_shift_and_phase() {
    let cfg = SearchConfig {
        doppler_min_mhz: mhz(-1000.0),
        doppler_max_mhz: mhz(1000.0),
        doppler_step_mhz: mhz(500.0),
        cfar_threshold_milli: 2000,
    };
    let mut surface = SearchSurface::new(5, 8);
    for d in 0..5 {
        let mut row = vec![key(1.0); 8];
        if d == 3 {
            row[2] = key(40.0);
        }
        surface.set_row(d, row);
    }
    let (trial, phase, power) = surface.global_peak();
    assert_eq!((trial, phase, power), (3, 2, key(40.0)));
    let res = SearchResult::at_peak(&cfg, 6, trial, phase, 8, mhz(512.0), 2000);
    assert_eq!(res.doppler_coarse_mhz, mhz(500.0));
    assert_eq!(res.doppler_fine_mhz, mhz(512.0));
    assert_eq!(res.code_phase_microchips, 255_750_000);
    assert!(res.detected);
    let weak = SearchResult::at_peak(&cfg, 6, trial, phase, 8, mhz(512.0), 1999);
    assert!(!weak.detected);
}

#[test]
fn slices_are_searched_for_the_strongest() {
    let mut s = SliceSearch::new();
    s.offer(0, &[1, 5, 5, 2]);
    assert_eq!((s.best_trial, s.best_phase, s.best_power), (0, 2, 5));
    s.offer(1, &[5, 4, 3, 2]);
    assert_eq!(s.best_trial, 0);
    s.offer(2, &[0, 0, 0, 9]);
    assert_eq!((s.best_trial, s.best_phase, s.best_power), (2, 3, 9));
    assert_eq!(peak_index(&[3, 9, 9, 1]), 2);
    assert_eq!(peak_index(&[]), 0);
}

#[test]
fn code_phase_is_a_fraction_of_the_period() {
    assert_eq!(code_phase_microchips(0, 2048), 0);
    assert_eq!(code_phase_microchips(1024, 2048), 511_500_000);
    assert_eq!(code_phase_microchips(2047, 2048), 1_022_500_488);
}

// Detection

/// The decision of a detector on a peak in a row of powers.
fn evaluate(det: &Detector, peak: f32, noise: f32, at: usize, surface: &[f32]) -> DetectionVerdict {
    let keys: Vec<u32> = surface.iter().map(|&p| key(p)).collect();
    let second = f32::from_bits(det.find_second_peak(&keys, at));
    let ratio = (f64::from(second) / f64::from(peak) * 1000.0).ceil() as u64;
    det.evaluate((f64::from(peak) / f64::from(noise) * 1000.0) as u64, Some(ratio))
}

#[test]
fn test_verdict_detected_is_detected() {
    let v = DetectionVerdict::Detected { confidence_milli: 900 };

    assert!(v.is_detected());
    assert!((v.confidence() as f64 / 1000.0 - 0.9).abs() < 1e-5);
}

#[test]
fn test_verdict_below_threshold_not_detected() {
    let v =
        DetectionVerdict::BelowThreshold { peak_to_noise_milli: 1500, threshold_milli: 3000 };

    assert!(!v.is_detected());
    assert_eq!(v.confidence(), 0);
}

#[test]
fn test_verdict_false_alarm_not_detected() {
    let v = DetectionVerdict::FalseAlarm { reason: "test" };

    assert!(!v.is_detected());
}

#[test]
fn test_detector_detects_strong_signal() {
    let det = Detector::with_defaults();
    let mut surface = vec![1.0f32; 2048];

    surface[0] = 1000.0;

    let verdict = evaluate(&det, 1000.0, 1.0, 0, &surface);

    assert!(verdict.is_detected(), "strong signal should be detected");
}

#[test]
fn test_detector_rejects_weak_signal() {
    let det = Detector::with_defaults();
    let surface = vec![1.0f32; 2048];
    let verdict = evaluate(&det, 1.5, 1.0, 0, &surface);

    assert!(!verdict.is_detected());
    assert!(matches!(verdict, DetectionVerdict::BelowThreshold { .. }));
}

#[test]
fn test_detector_confidence_above_half_for_detected() {
    let det = Detector::with_defaults();
    let mut surface = vec![1.0f32; 2048];

    surface[50] = 500.0;

    let verdict = evaluate(&det, 500.0, 1.0, 50, &surface);

    assert!(verdict.is_detected());
    assert!(verdict.confidence() >= 500);
}

#[test]
fn test_detector_second_peak_causes_false_alarm() {
    let det = Detector::new(DetectorConfig {
        second_peak_ratio_limit_milli: 500,
        second_peak_exclusion: 5,
        ..DetectorConfig::default()
    });
    let mut surface = vec![1.0f32; 100];

    surface[10] = 100.0;
    surface[50] = 80.0;

    let verdict = evaluate(&det, 100.0, 1.0, 10, &surface);

    assert!(
        matches!(verdict, DetectionVerdict::FalseAlarm { .. }),
        "should be false alarm due to second peak"
    );
}

#[test]
fn confidence_grows_from_half_to_one() {
    let det = Detector::with_defaults();
    let confidence = |ptn: u64| det.evaluate(ptn, None).confidence();
    assert_eq!(confidence(3000), 500);
    assert_eq!(confidence(9000), 750);
    assert_eq!(confidence(15_000), 1000);
    assert_eq!(confidence(u64::MAX), 1000);
    assert_eq!(det.evaluate(3000, Some(500)), det.evaluate(3000, None));
    assert_eq!(
        det.evaluate(3000, Some(501)),
        DetectionVerdict::FalseAlarm { reason: "second peak too close to main peak" }
    );
    let open = Detector::new(DetectorConfig { cfar_threshold_milli: 0, ..Default::default() });
    assert_eq!(open.evaluate(1, None).confidence(), 1000);
}

#[test]
fn rivals_near_the_peak_do_not_count() {
    let det = Detector::new(DetectorConfig { second_peak_exclusion: 2, ..Default::default() });
    let mut surface = vec![1u32; 20];
    surface[0] = 100;
    surface[2] = 90;
    surface[18] = 80;
    surface[3] = 7;
    assert_eq!(det.find_second_peak(&surface, 0), 7);
}

#[test]
fn trimming_keeps_the_lower_cells() {
    assert_eq!(kept_cells(10, 100), 9);
    assert_eq!(kept_cells(10, 1000), 1);
    assert_eq!(kept_cells(10, 0), 10);
}

// Receiver

fn make_receiver() -> Receiver {
    Receiver::new(ReceiverConfig {
        block_size: N,
        min_satellites_for_tracking: 1,
        search_prns: (1u8..=32).collect(),
    })
}

/// Runs one block of zeros through the receiver.
fn run_epoch_of_zeros(rx: &mut Receiver) -> Vec<ReceiverEvent> {
    let config = small_verifier_config();
    let verdicts: Vec<VerificationVerdict> =
        rx.prns_to_search().iter().map(|&prn| verify_zero_signal(&config, prn)).collect();
    rx.process_block(&verdicts, 3)
}

#[test]
fn test_initial_state_is_cold_start() {
    let rx = make_receiver();

    assert_eq!(rx.state(), ReceiverState::ColdStart);
}

#[test]
fn test_first_epoch_transitions_to_acquiring() {
    let mut rx = make_receiver();
    let events = run_epoch_of_zeros(&mut rx);

    assert_eq!(rx.state(), ReceiverState::Acquiring);

    let state_changed = events.iter().any(|e| {
        matches!(
            e,
            ReceiverEvent::StateChanged {
                from: ReceiverState::ColdStart,
                to: ReceiverState::Acquiring,
            }
        )
    });

    assert!(state_changed, "expected StateChanged from ColdStart to Acquiring");
}

#[test]
fn acquisition_epoch_done_event_emitted() {
    let mut rx = make_receiver();
    let events = run_epoch_of_zeros(&mut rx);
    let has_epoch_done =
        events.iter().any(|e| matches!(e, ReceiverEvent::AcquisitionEpochDone { .. }));

    assert!(has_epoch_done, "AcquisitionEpochDone should be emitted");
}

#[test]
fn confirmed_satellites_are_tracked_and_not_searched_again() {
    let mut rx = Receiver::new(ReceiverConfig {
        block_size: N,
        min_satellites_for_tracking: 2,
        search_prns: vec![4, 5, 6],
    });
    assert_eq!(rx.prns_to_search(), vec![4, 5, 6]);
    let events = rx.process_block(&[rejected(4), confirmed(5, 40_000), rejected(6)], 9);
    assert_eq!(events.len(), 3);
    assert!(matches!(events[1], ReceiverEvent::SatelliteAcquired { result } if result.prn == 5));
    assert!(matches!(
        events[2],
        ReceiverEvent::AcquisitionEpochDone {
            prns_searched: 3,
            newly_confirmed: 1,
            elapsed_ms: 9
        }
    ));
    assert_eq!(rx.state(), ReceiverState::Acquiring);
    assert_eq!(rx.prns_to_search(), vec![4, 6]);

    let events = rx.process_block(&[confirmed(4, 30_000), rejected(6)], 1);
    assert!(matches!(
        events.last(),
        Some(ReceiverEvent::StateChanged {
            from: ReceiverState::Acquiring,
            to: ReceiverState::Tracking
        })
    ));
    assert_eq!(rx.state(), ReceiverState::Tracking);
    let followed: Vec<(u8, u64)> =
        rx.satellites().iter().map(|s| (s.acquisition.prn, s.acuired_at_epoch)).collect();
    assert_eq!(followed, vec![(5, 0), (4, 1)]);
    assert!(rx.prns_to_search().is_empty());
    assert!(rx.process_block(&[], 0).is_empty());
}

#[test]
fn default_receiver_searches_all_gps_satellites() {
    let config = ReceiverConfig::default();
    assert_eq!(config.search_prns, (1u8..=32).collect::<Vec<u8>>());
    assert_eq!(Receiver::new(config).prns_to_search().len(), 32);
}

#[test]
fn trials_end_half_a_step_beyond_the_span() {
    let grid = |min: i64, max: i64, step: i64| SearchConfig {
        doppler_min_mhz: min,
        doppler_max_mhz: max,
        doppler_step_mhz: step,
        cfar_threshold_milli: 0,
    };
    assert_eq!(grid(-1000, 1000, 1000).trials_within_span(), vec![-1000, 0, 1000]);
    assert_eq!(grid(0, 1500, 1000).trials_within_span(), vec![0, 1000, 2000]);
    assert_eq!(grid(0, 1499, 1000).trials_within_span(), vec![0, 1000]);
    assert_eq!(grid(0, -500, 1000).trials_within_span(), vec![0]);
    assert_eq!(grid(0, -501, 1000).trials_within_span(), Vec::<i64>::new());
    assert_eq!(grid(0, -501, 1000).doppler_trials(), vec![0]);
}
