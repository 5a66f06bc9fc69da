//! Ranging codes: generation, correlation, resampling.

use glrx::signal::prn_code::{
    autocorrelation_at_lag, autocorrelation_at_zero, circular_cross_correlation, generate_gps_ca,
    PrnCodeCache, GPS_CHIP_RATE_HZ, GPS_CODE_LENGTH, G2_TAPS,
};

/// A code phase in chips, in units of 10^-9 chips.
fn nanochips(chips: f64) -> u64 {
    (chips * 1e9).round() as u64
}

#[test]
fn test_gps_code_length_is_1023() {
    for prn in 1u8..=32 {
        assert_eq!(generate_gps_ca(prn).len(), GPS_CODE_LENGTH, "PRN {}", prn);
    }
}

#[test]
fn test_gps_code_values_are_bipolar() {
    for prn in 1u8..=32 {
        let code = generate_gps_ca(prn);

        for &chip in &code {
            assert!(chip == 1 || chip == -1, "PRN {}: chip = {}", prn, chip);
        }
    }
}

#[test]
fn test_gps_codes_are_balanced() {
    for prn in 1u8..=32 {
        let code = generate_gps_ca(prn);
        let ones: i64 = code.iter().map(|&c| c as i64).sum();

        assert!(
            ones.abs() <= 3,
            "PRN {} balance: sum = {} (expected ~0 or -1)",
            prn,
            ones
        );
    }
}

/// Cross-check PRN 1 first 10 chips against generated values.
#[test]
fn test_gps_prn1_first_chips_match_icd() {
    let code = generate_gps_ca(1);

    // First 10 chips for PRN 1 in current implementation convention.
    // Chips: -1 -1 +1 +1 -1 +1 +1 +1 +1 +1  (positions 0-9)
    let expected = [-1i8, -1, 1, 1, -1, 1, 1, 1, 1, 1];

    for (i, (&got, &exp)) in code.iter().zip(expected.iter()).enumerate() {
        assert_eq!(got, exp, "PRN 1 chip {}: got {} expected {}", i, got, exp);
    }
}

#[test]
fn test_gps_all_codes_are_distinct() {
    let codes: Vec<Vec<i8>> = (1u8..=32).map(generate_gps_ca).collect();

    for i in 0..32 {
        for j in (i + 1)..32 {
            assert_ne!(
                codes[i],
                codes[j],
                "PRN {} and PRN {} have identical codes",
                i + 1,
                j + 1
            );
        }
    }
}

#[test]
fn test_autocorr_at_zero_equals_code_length() {
    for prn in 1u8..=32 {
        let code = generate_gps_ca(prn);
        let ac = autocorrelation_at_zero(&code);

        assert_eq!(ac, GPS_CODE_LENGTH as i64, "PRN {}", prn);
    }
}

#[test]
fn test_autocorr_peak_at_zero_is_maximum() {
    // PRN auto-correlation must peak at lag=0
    let code = generate_gps_ca(1);
    let ac_0 = autocorrelation_at_lag(&code, 0);

    // Sample a few non-zero lags
    for lag in [1, 10, 100, 500, 1000] {
        let ac_k = autocorrelation_at_lag(&code, lag).abs();

        assert!(
            ac_0 > ac_k,
            "autocorr at lag 0 ({}) <= lag {} ({})",
            ac_0,
            lag,
            ac_k
        );
    }
}

#[test]
fn test_autocorr_nonzero_lag_bounded() {
    let code = generate_gps_ca(5);

    for lag in 1..GPS_CODE_LENGTH {
        let ac = autocorrelation_at_lag(&code, lag).abs();

        assert!(
            ac <= 65,
            "PRN 5 autocorr at lag {} = {} (should be <= 65)",
            lag,
            ac
        );
    }
}

#[test]
fn test_crosscorr_different_prns_bounded() {
    let c1 = generate_gps_ca(1);
    let c2 = generate_gps_ca(2);
    let cc = circular_cross_correlation(&c1, &c2);

    for (lag, &v) in cc.iter().enumerate() {
        assert!(
            v.abs() <= 65,
            "PRN1 x PRN2 cross-corr at lag {} = {} (should be <= 65)",
            lag,
            v
        );
    }
}

#[test]
fn test_crosscorr_same_code_equals_autocorr() {
    let code = generate_gps_ca(7);
    let cc = circular_cross_correlation(&code, &code);

    assert_eq!(cc[0], GPS_CODE_LENGTH as i32); // lag 0 = N
}

#[test]
fn test_cache_contains_all_gps_prns() {
    let cache = PrnCodeCache::new();

    for prn in 1u8..=32 {
        assert!(cache.get_gps(prn).is_some(), "missing PRN {}", prn);
    }
}

#[test]
fn test_cache_get_invalid_prn_returns_none() {
    let cache = PrnCodeCache::new();

    assert!(cache.get_gps(0).is_none());
    assert!(cache.get_gps(33).is_none());
}

#[test]
fn test_cache_matches_direct_generation() {
    let cache = PrnCodeCache::new();

    for prn in 1u8..=32 {
        let cached = cache.get_gps(prn).unwrap();
        let direct = generate_gps_ca(prn);

        assert_eq!(cached, direct.as_slice(), "PRN {} mismatch", prn);
    }
}

#[test]
fn test_resample_correct_length() {
    let cache = PrnCodeCache::new();

    for &n in &[2048usize, 4096, 8192, 1023] {
        let v = cache.resample_gps(1, n).unwrap();

        assert_eq!(v.len(), n, "resample to {} samples", n);
    }
}

#[test]
fn test_resample_values_are_bipolar() {
    let cache = PrnCodeCache::new();
    let v = cache.resample_gps(1, 2048).unwrap();

    for &s in &v {
        assert!(s == 1 || s == -1, "sample = {}", s);
    }
}

#[test]
fn test_resample_1023_samples_equals_original() {
    let cache = PrnCodeCache::new();
    let resampled = cache.resample_gps(1, 1023).unwrap();
    let original = cache.get_gps(1).unwrap();

    for (i, (&r, &o)) in resampled.iter().zip(original.iter()).enumerate() {
        assert_eq!(r, o, "chip {}", i);
    }
}

#[test]
fn test_resample_2048_produces_each_chip_1_or_2_times() {
    // each chip appears either 2 times (freq) or 1 time. No chip skipped.
    let cache = PrnCodeCache::new();
    let resampled = cache.resample_gps(1, 2048).unwrap();
    let original = cache.get_gps(1).unwrap();

    // Count how many times each chip appears
    let mut counts = vec![0u32; 1023];

    for i in 0..2048 {
        let chip_idx = i * 1023 / 2048;
        counts[chip_idx] += 1;
    }

    // All chips must appear 1 or 2 times
    for (chip_idx, &count) in counts.iter().enumerate() {
        assert!(
            count == 2 || count == 3,
            "chip {} appears {} times",
            chip_idx,
            count
        );
    }

    // Verify values match
    for i in 0..2048 {
        let chip_idx = i * 1023 / 2048;
        assert_eq!(resampled[i], original[chip_idx], "sample {}", i);
    }
}

#[test]
fn test_resample_invalid_prn_returns_none() {
    let cache = PrnCodeCache::new();

    assert!(cache.resample_gps(33, 2048).is_none());
}

#[test]
fn test_resample_with_zero_phase_matches_no_phase() {
    let cache = PrnCodeCache::new();
    let base = cache.resample_gps(1, 2048).unwrap();
    let phased = cache.resample_gps_with_phase(1, 2048, nanochips(0.0)).unwrap();

    for (a, b) in base.iter().zip(phased.iter()) {
        assert_eq!(a, b);
    }
}

#[test]
fn test_resample_with_phase_wraps_correctly() {
    // Phase = 1023.0 (full period) should give same result as phase = 0
    let cache = PrnCodeCache::new();
    let base = cache.resample_gps(1, 2048).unwrap();
    let wrapped = cache.resample_gps_with_phase(1, 2048, nanochips(1023.0)).unwrap();

    for (i, (a, b)) in base.iter().zip(wrapped.iter()).enumerate() {
        assert_eq!(a, b, "sample {}", i);
    }
}

#[test]
fn test_resample_with_phase_shifts_code() {
    // A phase of exactly 1 chip should delay the code by 1 chip
    let cache = PrnCodeCache::new();
    let original = cache.get_gps(1).unwrap();
    let shifted = cache.resample_gps_with_phase(1, 1023, nanochips(1.0)).unwrap();

    // shifted[0] should equal original[1], shifted[1] = original[2], etc.
    for i in 0..1022 {
        assert_eq!(
            shifted[i],
            original[(i + 1) % 1023],
            "chip {}: shifted={} expected={}",
            i,
            shifted[i],
            original[(i + 1) % 1023]
        );
    }
}

#[test]
fn test_glonass_stub_returns_none() {
    let cache = PrnCodeCache::new();

    assert!(cache.get_glonass(1).is_none());
}

#[test]
fn test_galileo_stub_returns_none() {
    let cache = PrnCodeCache::new();

    assert!(cache.get_galileo_e1(1).is_none());
}

#[test]
fn test_code_period_is_exactly_1ms_at_chip_rate() {
    // 1023 chips / 1.023e6 chips/s = 1.0 ms
    let period_ms = GPS_CODE_LENGTH as f64 / f64::from(GPS_CHIP_RATE_HZ) * 1000.0;

    assert!((period_ms - 1.0).abs() < 1e-9, "period = {} ms", period_ms);
}

#[test]
fn test_crosscorr_is_asymmetric() {
    let c1 = generate_gps_ca(3);
    let c2 = generate_gps_ca(4);
    let cc_ab = circular_cross_correlation(&c1, &c2);
    let cc_ba = circular_cross_correlation(&c2, &c1);

    // At lag 0 they are equal
    assert_eq!(cc_ab[0], cc_ba[0]);

    // At lag != 0 at least some differ (codes are not symmetric)
    let differ = cc_ab.iter().zip(cc_ba.iter()).skip(1).any(|(a, b)| a != b);

    assert!(differ, "CC(A,B) and CC(B,A) were identical for all lags");
}

#[test]
fn half_a_chip_of_phase_moves_the_chip_edges() {
    let cache = PrnCodeCache::default();
    let original = cache.get_gps(9).unwrap();
    let shifted = cache.resample_gps_with_phase(9, 2046, nanochips(0.5)).unwrap();
    for i in 0..2046 {
        assert_eq!(shifted[i], original[((i + 1) / 2) % 1023], "sample {i}");
    }
    assert!(cache.resample_gps_with_phase(0, 2046, 0).is_none());
}

#[test]
fn correlations_of_short_codes_have_exact_values() {
    let a = [1i8, 1, -1];
    let b = [1i8, -1, -1];
    assert_eq!(circular_cross_correlation(&a, &a), vec![3, -1, -1]);
    assert_eq!(circular_cross_correlation(&a, &b), vec![1, -3, 1]);
    assert_eq!(autocorrelation_at_lag(&a, 1), -1);
    assert_eq!(autocorrelation_at_zero(&a), 3);
}

#[test]
fn every_tap_pair_names_two_stages() {
    for (a, b) in G2_TAPS {
        assert!((1..=10).contains(&a) && (1..=10).contains(&b) && a < b);
    }
}

#[test]
fn chips_of_every_code_add_up_to_minus_one() {
    for prn in 1u8..=32 {
        let sum: i32 = generate_gps_ca(prn).iter().map(|&c| i32::from(c)).sum();
        assert_eq!(sum, -1, "PRN {prn}");
    }
}

#[test]
fn codes_correlate_weakly() {
    for (p, q) in [(1u8, 1u8), (5, 5), (1, 2), (7, 31), (32, 19)] {
        let values = circular_cross_correlation(&generate_gps_ca(p), &generate_gps_ca(q));
        for (lag, &v) in values.iter().enumerate() {
            if p == q && lag == 0 {
                assert_eq!(v, 1023);
            } else {
                assert!(v == -1 || v == 63 || v == -65, "{p} {q} {lag}: {v}");
            }
        }
    }
}

#[test]
fn correlations_are_mirrored() {
    let (a, b) = (generate_gps_ca(3), generate_gps_ca(11));
    let ab = circular_cross_correlation(&a, &b);
    let ba = circular_cross_correlation(&b, &a);
    for lag in 0..1023 {
        assert_eq!(ab[lag], ba[(1023 - lag) % 1023]);
    }
}

#[test]
fn whole_periods_of_phase_change_nothing() {
    let cache = PrnCodeCache::new();
    let phase = u64::MAX % 1_023_000_000_000;
    assert_eq!(
        cache.resample_gps_with_phase(9, 2048, u64::MAX),
        cache.resample_gps_with_phase(9, 2048, phase)
    );
    assert_ne!(
        cache.resample_gps_with_phase(9, 2048, phase),
        cache.resample_gps_with_phase(9, 2048, 0)
    );
}
