//! Bit synchronisation, word parity and subframe assembly.

use glrx::navigation::frame_decoder::{
    bits_to_u32, check_and_correct_parity, matches_tlm_preamble, parse_how_word, BitAccumulator,
    BitSynchronizer, DecodeState, FrameDecodeError, FrameDecoder, RetryPolicy, EPOCHS_PER_BIT,
    SUBFRAME_LENGTH_BITS, TLM_PREAMBLE, WORD_LENGTH_BITS,
};

#[allow(clippy::too_many_lines)]
fn build_valid_word(
    d: [bool; 24],
    prev: (bool, bool),
) -> [bool; 30] {
    let (d_star_29, d_star_30) = prev;
    let g = |k: usize| d[k - 1];

    let d25 = d_star_29
        ^ g(1)
        ^ g(2)
        ^ g(3)
        ^ g(5)
        ^ g(6)
        ^ g(10)
        ^ g(11)
        ^ g(12)
        ^ g(13)
        ^ g(14)
        ^ g(17)
        ^ g(18)
        ^ g(20)
        ^ g(23);
    let d26 = d_star_30
        ^ g(2)
        ^ g(3)
        ^ g(4)
        ^ g(6)
        ^ g(7)
        ^ g(11)
        ^ g(12)
        ^ g(13)
        ^ g(14)
        ^ g(15)
        ^ g(18)
        ^ g(19)
        ^ g(21)
        ^ g(24);
    let d27 = d_star_29
        ^ g(1)
        ^ g(3)
        ^ g(4)
        ^ g(5)
        ^ g(7)
        ^ g(8)
        ^ g(12)
        ^ g(13)
        ^ g(14)
        ^ g(15)
        ^ g(16)
        ^ g(19)
        ^ g(20)
        ^ g(22);
    let d28 = d_star_30
        ^ g(2)
        ^ g(4)
        ^ g(5)
        ^ g(6)
        ^ g(8)
        ^ g(9)
        ^ g(13)
        ^ g(14)
        ^ g(15)
        ^ g(16)
        ^ g(17)
        ^ g(20)
        ^ g(21)
        ^ g(23);
    let d29 = d_star_30
        ^ g(1)
        ^ g(3)
        ^ g(5)
        ^ g(6)
        ^ g(7)
        ^ g(9)
        ^ g(10)
        ^ g(14)
        ^ g(15)
        ^ g(16)
        ^ g(17)
        ^ g(18)
        ^ g(21)
        ^ g(22)
        ^ g(24);
    let d30 = d_star_29
        ^ g(3)
        ^ g(5)
        ^ g(6)
        ^ g(8)
        ^ g(9)
        ^ g(10)
        ^ g(11)
        ^ g(13)
        ^ g(15)
        ^ g(19)
        ^ g(22)
        ^ g(23)
        ^ g(24);

    let mut wire = [false; 30];

    for (i, &bit) in d.iter().enumerate() {
        wire[i] = bit ^ d_star_30;
    }

    wire[24] = d25;
    wire[25] = d26;
    wire[26] = d27;
    wire[27] = d28;
    wire[28] = d29;
    wire[29] = d30;

    wire
}

fn build_synthetic_subframe(
    subframe_id: u8,
    tow: u32,
) -> Vec<bool> {
    let mut stream = Vec::with_capacity(SUBFRAME_LENGTH_BITS);
    let mut prev = (false, false);

    let mut tlm_info = [false; 24];

    tlm_info[..8].copy_from_slice(&TLM_PREAMBLE);

    let tlm_word = build_valid_word(tlm_info, prev);

    stream.extend_from_slice(&tlm_word[..24]);
    stream.extend_from_slice(&tlm_word[24..30]);

    prev = (tlm_word[28], tlm_word[29]);

    let mut how_info = [false; 24];

    for i in 0..17 {
        how_info[16 - i] = ((tow >> i) & 1) == 1;
    }

    how_info[17] = false; // alert
    how_info[18] = false; // anti-spoof

    for i in 0..3 {
        how_info[21 - i] = ((u32::from(subframe_id) >> i) & 1) == 1;
    }

    let how_word = build_valid_word(how_info, prev);

    stream.extend_from_slice(&how_word[..24]);
    stream.extend_from_slice(&how_word[24..30]);

    prev = (how_word[28], how_word[29]);

    for w in 0..8u32 {
        let mut info = [false; 24];

        for (i, bit) in info.iter_mut().enumerate() {
            *bit = (w + i as u32) % 5 == 0;
        }

        let word = build_valid_word(info, prev);

        stream.extend_from_slice(&word[..24]);
        stream.extend_from_slice(&word[24..30]);

        prev = (word[28], word[29]);
    }

    stream
}

fn build_synthetic_subframe_with_prev(
    subframe_id: u8,
    tow: u32,
    mut prev: (bool, bool),
) -> (Vec<bool>, (bool, bool)) {
    let mut stream = Vec::with_capacity(SUBFRAME_LENGTH_BITS);

    let mut tlm_info = [false; 24];
    tlm_info[..8].copy_from_slice(&TLM_PREAMBLE);
    let tlm_word = build_valid_word(tlm_info, prev);
    stream.extend_from_slice(&tlm_word[..24]);
    stream.extend_from_slice(&tlm_word[24..30]);
    prev = (tlm_word[28], tlm_word[29]);

    let mut how_info = [false; 24];
    for i in 0..17 {
        how_info[16 - i] = ((tow >> i) & 1) == 1;
    }
    // alert, anti-spoof = false
    for i in 0..3 {
        how_info[21 - i] = ((u32::from(subframe_id) >> i) & 1) == 1;
    }
    let how_word = build_valid_word(how_info, prev);
    stream.extend_from_slice(&how_word[..24]);
    stream.extend_from_slice(&how_word[24..30]);
    prev = (how_word[28], how_word[29]);

    for w in 0..8u32 {
        let mut info = [false; 24];

        for (i, bit) in info.iter_mut().enumerate() {
            *bit = (w + i as u32) % 5 == 0;
        }

        let word = build_valid_word(info, prev);

        stream.extend_from_slice(&word[..24]);
        stream.extend_from_slice(&word[24..30]);
        prev = (word[28], word[29]);
    }

    (stream, prev)
}

#[test]
fn test_synchromizer_not_ready_before_threshold() {
    let mut sync = BitSynchronizer::new(50);

    for _ in 0..49 {
        sync.push_prompt_sign(1);
    }

    assert!(!sync.is_ready());
    assert!(sync.detected_bit_boundary_phase().is_none());
}

#[test]
fn test_synchronizer_ready_after_threshold() {
    let mut sync = BitSynchronizer::new(50);

    for _ in 0..50 {
        sync.push_prompt_sign(1);
    }

    assert!(sync.is_ready());
}

#[test]
fn test_synchronizer_detects_boundary_with_clean_20ms_bits() {
    let mut sync = BitSynchronizer::new(400);
    let mut sign = 1i8;

    for epoch in 0..2000u64 {
        if epoch % 20 == 0 && epoch > 0 {
            sign = -sign;
        }

        sync.push_prompt_sign(sign);
    }

    assert!(sync.is_ready());

    let phase = sync.detected_bit_boundary_phase().unwrap();

    assert_eq!(
        phase, 0,
        "detected phase should match the true bit boundary"
    );
}

#[test]
fn test_synchronizer_detects_boundary_with_nonzero_offset() {
    let mut sync = BitSynchronizer::new(400);
    let offset = 7usize;
    let mut sign = 1i8;

    for epoch in 0..2000u64 {
        let shifted = (epoch as usize + EPOCHS_PER_BIT - offset) % EPOCHS_PER_BIT;
        if shifted == 0 && epoch > 0 {
            sign = -sign;
        }
        sync.push_prompt_sign(sign);
    }

    assert!(sync.is_ready());

    let phase = sync.detected_bit_boundary_phase();

    assert!(phase.is_some());
}

#[test]
fn test_synchronizer_reset_clears_state() {
    let mut sync = BitSynchronizer::new(10);

    for _ in 0..20 {
        sync.push_prompt_sign(1);
    }

    sync.reset();

    assert_eq!(sync.epochs_seen(), 0);
    assert!(!sync.is_ready());
}

#[test]
fn test_accumulator_emits_bit_after_full_window() {
    let mut acc = BitAccumulator::new(0);
    let mut result = None;

    for _ in 0..20 {
        result = acc.push(1);
    }

    assert_eq!(result, Some(true));
}

#[test]
fn test_accumulator_majority_vote_negative() {
    let mut acc = BitAccumulator::new(0);
    let mut result = None;

    for i in 0..20 {
        let sign = if i < 15 { -1 } else { 1 };

        result = acc.push(sign);
    }

    assert_eq!(result, Some(false));
}

#[test]
fn test_accumulator_returns_none_before_window_complete() {
    let mut acc = BitAccumulator::new(0);

    for _ in 0..19 {
        assert_eq!(acc.push(1), None);
    }
}

#[test]
fn test_accumulator_respects_nonzero_boundary_phase() {
    let mut acc = BitAccumulator::new(5);
    let mut emitted_at = None;

    for i in 0..25 {
        if let Some(_bit) = acc.push(1) {
            emitted_at = Some(i);

            break;
        }
    }

    assert!(emitted_at.is_some());
}

#[test]
fn test_parity_accepts_valid_word_no_inversion() {
    let d = [false; 24];
    let word = build_valid_word(d, (false, false));
    let result = check_and_correct_parity(&word, (false, false));

    assert!(result.is_some());
    assert_eq!(result.unwrap(), d);
}

#[test]
fn test_parity_accepts_valid_word_with_pattern() {
    let mut d = [false; 24];
    for (i, val) in d.iter_mut().enumerate() {
        *val = i % 3 == 0;
    }

    let word = build_valid_word(d, (true, false));
    let result = check_and_correct_parity(&word, (true, false));

    assert!(result.is_some());
    assert_eq!(result.unwrap(), d);
}

#[test]
fn test_parity_handles_inversion_when_prev_d30_is_true() {
    let mut d = [false; 24];

    d[0] = true;
    d[5] = true;
    d[12] = true;

    let prev = (false, true);
    let word = build_valid_word(d, prev);
    let result = check_and_correct_parity(&word, prev);

    assert!(result.is_some());
    assert_eq!(
        result.unwrap(),
        d,
        "decoded bits must match original after de-inversion"
    );
}

#[test]
fn test_parity_rejects_corrupted_word() {
    let d = [true; 24];
    let mut word = build_valid_word(d, (false, false));

    word[3] = !word[3];

    let result = check_and_correct_parity(&word, (false, false));

    assert!(result.is_none(), "corrupted word should fail parity");
}

#[test]
fn test_parity_rejects_corrupted_parity_bit() {
    let d = [false; 24];
    let mut word = build_valid_word(d, (false, false));

    word[27] = !word[27];

    let result = check_and_correct_parity(&word, (false, false));

    assert!(result.is_none());
}

#[test]
fn test_parity_wrong_prev_bits_causes_mismatch() {
    let d = [true, false]
        .iter()
        .cycle()
        .take(24)
        .copied()
        .collect::<Vec<_>>();
    let mut d_arr = [false; 24];

    d_arr.copy_from_slice(&d);

    let word = build_valid_word(d_arr, (false, false));

    let result = check_and_correct_parity(&word, (true, true));

    assert!(result.is_none());
}

#[test]
fn test_preamble_matches_exact_pattern() {
    let mut bits = vec![false; 30];

    bits[0] = true;
    bits[4] = true;
    bits[6] = true;
    bits[7] = true;

    assert!(matches_tlm_preamble(&bits));
}

#[test]
fn test_preamble_rejects_wrong_pattern() {
    let bits = vec![false; 30];

    assert!(!matches_tlm_preamble(&bits));
}

#[test]
fn test_preamble_rejects_short_slice() {
    let bits = vec![true; 5];

    assert!(!matches_tlm_preamble(&bits));
}

#[test]
fn test_preamble_rejects_one_bit_error() {
    let mut bits = vec![true, false, false, false, true, false, true, true];

    bits[3] = true;

    assert!(!matches_tlm_preamble(&bits));
}

#[test]
fn test_how_word_extracts_subframe_id() {
    let mut info = [false; 24];

    info[19] = false;
    info[20] = true;
    info[21] = true;

    let how = parse_how_word(&info);

    assert_eq!(how.subframe_id, 3);
}

#[test]
fn test_how_word_extracts_tow_count() {
    let mut info = [false; 24];

    info[14] = true;
    info[15] = false;
    info[16] = true;

    let how = parse_how_word(&info);

    assert_eq!(how.tow_count, 5);
}

#[test]
fn test_how_word_extracts_alert_and_antispoof_flags() {
    let mut info = [false; 24];

    info[17] = true; // alert
    info[18] = false; // anti-spoof

    let how = parse_how_word(&info);

    assert!(how.alert_flag);
    assert!(!how.anti_spoof_flag);
}

#[test]
fn test_bits_to_u32_msb_first() {
    let bits = [true, false, true]; // 0b101 = 5

    assert_eq!(bits_to_u32(&bits), 5);
}

#[test]
fn test_build_synthetic_subframe_has_correct_length() {
    let stream = build_synthetic_subframe(1, 100);

    assert_eq!(stream.len(), SUBFRAME_LENGTH_BITS);
}

#[test]
fn test_frame_decoder_decodes_synthetic_subframe() {
    let stream = build_synthetic_subframe(3, 12345);
    let mut decoder = FrameDecoder::with_defaults();

    let mut decoded = None;

    for &bit in &stream {
        if let Ok(Some(subframe)) = decoder.push_bit(bit) {
            decoded = Some(subframe);
            break;
        }
    }

    let subframe = decoded.expect("subframe should be decoded from clean synthetic stream");

    assert_eq!(subframe.subframe_id, 3);
    assert_eq!(subframe.how.tow_count, 12345);
}

#[test]
fn test_frame_decoder_detects_preamble_within_noisy_prefix() {
    let mut stream = vec![
        true, false, true, true, false, false, true, false, true, false,
    ];

    stream.extend(build_synthetic_subframe(2, 999));

    let mut decoder = FrameDecoder::with_defaults();
    let mut decoded = None;

    for &bit in &stream {
        if let Ok(Some(subframe)) = decoder.push_bit(bit) {
            decoded = Some(subframe);
            break;
        }
    }

    let subframe = decoded.expect("subframe should be found despite noisy prefix");

    assert_eq!(subframe.subframe_id, 2);
    assert_eq!(subframe.how.tow_count, 999);
}

#[test]
fn test_frame_decoder_stats_track_successful_decode() {
    let stream = build_synthetic_subframe(1, 1);
    let mut decoder = FrameDecoder::with_defaults();

    for &bit in &stream {
        let _ = decoder.push_bit(bit);
    }

    assert_eq!(decoder.stats().subframes_decoded, 1);
}

#[test]
fn test_frame_decoder_recovers_after_corrupted_word_via_retry() {
    let mut stream = build_synthetic_subframe(4, 42);
    let corrupt_idx = 4 * WORD_LENGTH_BITS + 10;

    stream[corrupt_idx] = !stream[corrupt_idx];

    let mut decoder = FrameDecoder::with_defaults();
    let mut saw_error = false;

    for &bit in &stream {
        match decoder.push_bit(bit) {
            Err(FrameDecodeError::ParityMismatch { .. }) => saw_error = true,
            Ok(_) | Err(FrameDecodeError::PreambleNotFound) => {}
        }
    }

    assert!(
        saw_error,
        "corrupted word should trigger a ParityMismatch at some point"
    );
    assert!(matches!(
        decoder.state(),
        DecodeState::SearchingPreamble | DecodeState::Collecting { .. }
    ));
}

#[test]
fn test_frame_decoder_full_resync_after_exceeding_retry_budget() {
    let retry = RetryPolicy {
        max_retries_before_full_resync: 1,
    };
    let mut decoder = FrameDecoder::new(retry);

    let noise: Vec<bool> = (0..2000).map(|i| (i * 2_654_435_761_u64) % 7 < 3).collect();

    for &bit in &noise {
        let _ = decoder.push_bit(bit);
    }

    let stats = decoder.stats();

    assert!(stats.parity_failures >= stats.full_resyncs);
}

#[test]
fn test_frame_decoder_starts_in_searching_state() {
    let decoder = FrameDecoder::with_defaults();

    assert_eq!(decoder.state(), DecodeState::SearchingPreamble);
}

#[test]
fn test_frame_decoder_multiple_subframes_in_sequence() {
    let mut stream = Vec::new();
    let mut prev = (false, false);

    let (bits1, prev1) = build_synthetic_subframe_with_prev(1, 100, prev);
    stream.extend(bits1);
    prev = prev1;

    let (bits2, _prev2) = build_synthetic_subframe_with_prev(2, 106, prev);
    stream.extend(bits2);

    let mut decoder = FrameDecoder::with_defaults();
    let mut decoded_subframes = Vec::new();

    for &bit in &stream {
        if let Ok(Some(subframe)) = decoder.push_bit(bit) {
            decoded_subframes.push(subframe);
        }
    }

    assert_eq!(decoded_subframes.len(), 2);
    assert_eq!(decoded_subframes[0].subframe_id, 1);
    assert_eq!(decoded_subframes[0].how.tow_count, 100);
    assert_eq!(decoded_subframes[1].subframe_id, 2);
    assert_eq!(decoded_subframes[1].how.tow_count, 106);
}

#[test]
fn clean_bits_reveal_an_offset_boundary() {
    let mut sync = BitSynchronizer::new(400);
    let mut sign = 1i8;
    for epoch in 0..2000u64 {
        if epoch % 20 == 7 {
            sign = -sign;
        }
        sync.push_prompt_sign(sign);
    }
    assert_eq!(sync.detected_bit_boundary_phase(), Some(7));
    assert_eq!(sync.epochs_seen(), 2000);
}

#[test]
fn default_synchronizer_needs_enough_epochs() {
    let mut sync = BitSynchronizer::with_defaults();
    assert!(!sync.is_ready());
    for _ in 0..20_000 {
        sync.push_prompt_sign(-1);
    }
    assert!(sync.is_ready());
}

#[test]
fn a_partial_bit_at_the_start_is_passed_over() {
    let mut acc = BitAccumulator::new(5);
    let mut bits = Vec::new();
    for i in 0..45 {
        // Five negative epochs, a positive bit, a negative bit.
        let sign = if i < 5 || i >= 25 { -1 } else { 1 };
        if let Some(bit) = acc.push(sign) {
            bits.push((i, bit));
        }
    }
    assert_eq!(bits, vec![(24, true), (44, false)]);
}

#[test]
fn a_tie_of_signs_is_decided_the_same_way_each_time() {
    let mut acc = BitAccumulator::new(0);
    let mut first = None;
    for i in 0..20 {
        first = acc.push(if i < 10 { 1 } else { -1 });
    }
    let mut second = None;
    for i in 0..20 {
        second = acc.push(if i < 10 { -1 } else { 1 });
    }
    assert!(first.is_some());
    assert_eq!(first, second);
}

#[test]
fn every_single_bit_error_is_detected() {
    for pattern in 0..8u32 {
        let mut d = [false; 24];
        for (i, bit) in d.iter_mut().enumerate() {
            *bit = (i as u32 * (pattern + 1) + pattern) % 3 == 1;
        }
        for prev in [(false, false), (false, true), (true, false), (true, true)] {
            let word = build_valid_word(d, prev);
            assert_eq!(check_and_correct_parity(&word, prev), Some(d));
            for k in 0..30 {
                let mut bad = word;
                bad[k] = !bad[k];
                assert_eq!(check_and_correct_parity(&bad, prev), None, "bit {k}");
            }
        }
    }
}

#[test]
fn two_or_three_bit_errors_are_detected() {
    let mut d = [false; 24];
    d[3] = true;
    d[17] = true;
    let prev = (true, false);
    let word = build_valid_word(d, prev);
    for a in 0..30 {
        for b in 0..a {
            let mut double = word;
            double[a] = !double[a];
            double[b] = !double[b];
            assert_eq!(check_and_correct_parity(&double, prev), None, "bits {a} {b}");
            for c in 0..b {
                let mut triple = double;
                triple[c] = !triple[c];
                assert_eq!(check_and_correct_parity(&triple, prev), None, "bits {a} {b} {c}");
            }
        }
    }
}

#[test]
fn subframe_after_bits_without_a_preamble_is_found_at_any_offset() {
    for offset in 0..40 {
        let mut stream = vec![false; offset];
        stream.extend(build_synthetic_subframe(5, 77));
        let mut decoder = FrameDecoder::with_defaults();
        let mut outcomes = Vec::new();
        for (i, &bit) in stream.iter().enumerate() {
            if let Ok(Some(subframe)) = decoder.push_bit(bit) {
                outcomes.push((i, subframe.subframe_id, subframe.how.tow_count));
            }
        }
        assert_eq!(outcomes, vec![(offset + 299, 5, 77)]);
        assert_eq!(decoder.stats().preambles_confirmed, 1);
        assert_eq!(decoder.state(), DecodeState::SearchingPreamble);
    }
}

#[test]
fn decoded_words_are_the_sent_information_bits() {
    let stream = build_synthetic_subframe(1, 3);
    let mut decoder = FrameDecoder::with_defaults();
    let mut decoded = None;
    for &bit in &stream {
        if let Ok(Some(subframe)) = decoder.push_bit(bit) {
            decoded = Some(subframe);
        }
    }
    let subframe = decoded.unwrap();
    assert_eq!(subframe.words[0][..8], TLM_PREAMBLE[..]);
    for w in 0..8u32 {
        for i in 0..24u32 {
            assert_eq!(subframe.words[2 + w as usize][i as usize], (w + i) % 5 == 0);
        }
    }
    assert!(!subframe.how.alert_flag);
    assert!(!subframe.how.anti_spoof_flag);
}

#[test]
fn corrupted_word_is_reported_with_its_index() {
    let mut stream = build_synthetic_subframe(4, 42);
    stream[4 * WORD_LENGTH_BITS + 10] ^= true;
    let mut decoder = FrameDecoder::with_defaults();
    let mut errors = Vec::new();
    for (i, &bit) in stream.iter().enumerate() {
        if let Err(e) = decoder.push_bit(bit) {
            errors.push((i, e));
        }
    }
    assert_eq!(errors[0], (5 * WORD_LENGTH_BITS - 1, FrameDecodeError::ParityMismatch { word_index: 4 }));
    assert_eq!(decoder.stats().subframes_decoded, 0);
    assert_eq!(decoder.stats().preambles_confirmed, 1);
    assert!(decoder.stats().parity_failures >= 1);
}

#[test]
fn exhausted_retries_force_a_full_resync() {
    let mut decoder = FrameDecoder::new(RetryPolicy { max_retries_before_full_resync: 0 });
    let mut stream = build_synthetic_subframe(4, 42);
    stream[2 * WORD_LENGTH_BITS + 3] ^= true;
    for &bit in &stream[..3 * WORD_LENGTH_BITS] {
        let _ = decoder.push_bit(bit);
    }
    assert_eq!(decoder.stats().parity_failures, 1);
    assert_eq!(decoder.stats().full_resyncs, 1);
    assert_eq!(decoder.state(), DecodeState::SearchingPreamble);
}
