//! Codes shifted by fractions of a sample.

use glrx::signal::code_utilities::{clamped_index, make_epl_replicas, shift_code};

/// A number of samples in units of 10^-9 samples.
fn nano(samples: f64) -> i64 {
    (samples * 1e9).round() as i64
}

/// Chips of a code.
fn chips(code: &[f32]) -> Vec<i32> {
    code.iter().map(|&c| c as i32).collect()
}

/// A shifted code in the units of the code.
fn values(code: Vec<i64>) -> Vec<f32> {
    code.into_iter().map(|c| (c as f64 / 1e9) as f32).collect()
}

fn shifted(code: &[f32], offset_samples: f64) -> Vec<f32> {
    values(shift_code(&chips(code), nano(offset_samples)))
}

fn replicas(prompt: &[f32], half_chip_samples: f64) -> (Vec<f32>, Vec<f32>, Vec<f32>) {
    let (early, prompt, late) = make_epl_replicas(&chips(prompt), nano(half_chip_samples));
    (values(early), values(prompt), values(late))
}

#[test]
fn test_shift_zero_offset_identity() {
    let code = vec![1.0_f32, -1.0, 1.0, -1.0];
    let shifted = shifted(&code, 0.0);

    assert_eq!(shifted, code);
}

#[test]
fn test_shift_zero_offset_longer() {
    let code: Vec<f32> = (0..32)
        .map(|i| if i % 2 == 0 { 1.0 } else { -1.0 })
        .collect();
    let shifted = shifted(&code, 0.0);

    for (a, b) in code.iter().zip(shifted.iter()) {
        assert!((a - b).abs() < 1e-6);
    }
}

#[test]
fn test_shift_integer_delay_one() {
    let code = vec![1.0_f32, 2.0, 3.0, 4.0];
    let shifted = shifted(&code, 1.0);

    assert!((shifted[0] - 1.0).abs() < 1e-9); // clamp: code[0]
    assert!((shifted[1] - 1.0).abs() < 1e-9); // code[0]
    assert!((shifted[2] - 2.0).abs() < 1e-9); // code[1]
    assert!((shifted[3] - 3.0).abs() < 1e-9); // code[2]
}

#[test]
fn test_shift_integer_advance_one() {
    let code = vec![1.0_f32, 2.0, 3.0, 4.0];
    let shifted = shifted(&code, -1.0);

    assert!((shifted[0] - 2.0).abs() < 1e-9); // code[1]
    assert!((shifted[1] - 3.0).abs() < 1e-9); // code[2]
    assert!((shifted[2] - 4.0).abs() < 1e-9); // code[3]
    assert!((shifted[3] - 4.0).abs() < 1e-9); // clamp: code[3]
}

#[test]
fn test_shift_integer_delay_two() {
    let code = vec![10.0_f32, 20.0, 30.0, 40.0, 50.0];
    let shifted = shifted(&code, 2.0);

    assert!((shifted[2] - 10.0).abs() < 1e-9);
    assert!((shifted[3] - 20.0).abs() < 1e-9);
    assert!((shifted[4] - 30.0).abs() < 1e-9);
}

#[test]
fn test_shift_half_sample_interpolates() {
    // offset=0.5: y[i] = lerp(code[i], code[i+1], 0.5)
    let code = vec![0.0_f32, 10.0, 20.0, 30.0];
    let shifted = shifted(&code, 0.5);

    // y[1] = lerp(code[0], code[1], 0.5) = lerp(0, 10, 0.5) = 5.0
    assert!((shifted[1] - 5.0).abs() < 1e-5, "shifted[1]={}", shifted[1]);
    // y[2] = lerp(code[1], code[2], 0.5) = 15.0
    assert!(
        (shifted[2] - 15.0).abs() < 1e-5,
        "shifted[2]={}",
        shifted[2]
    );
}

#[test]
fn test_shift_quarter_sample_interpolates() {
    let code = vec![0.0_f32, 4.0];
    let shifted = shifted(&code, 0.25);

    // y[1] = lerp(code[0], code[1], 0.75) = 3.0
    assert!((shifted[1] - 3.0).abs() < 1e-5, "shifted[1]={}", shifted[1]);
}

#[test]
fn test_shift_fractional_advance() {
    let code = vec![0.0_f32, 0.0, 8.0, 0.0];
    let shifted = shifted(&code, -0.5);

    // y[1] = lerp(code[1], code[2], 0.5) = lerp(0, 8, 0.5) = 4.0
    assert!((shifted[1] - 4.0).abs() < 1e-5, "shifted[1]={}", shifted[1]);
}

#[test]
fn test_shift_large_delay_clamps_right() {
    let code = vec![1.0_f32, 2.0, 3.0];
    let shifted = shifted(&code, 100.0);

    for s in &shifted {
        assert!((s - 1.0).abs() < 1e-6, "s={s}");
    }
}

#[test]
fn test_shift_large_advance_clamps_left() {
    let code = vec![1.0_f32, 2.0, 3.0];
    let shifted = shifted(&code, -100.0);

    for s in &shifted {
        assert!((s - 3.0).abs() < 1e-6, "s={s}");
    }
}

#[test]
fn test_shift_single_element_code() {
    let code = vec![42.0_f32];
    let shifted = shifted(&code, 0.5);

    assert_eq!(shifted.len(), 1);
    assert!((shifted[0] - 42.0).abs() < 1e-6);
}

#[test]
fn test_shift_output_length_matches_input() {
    let code: Vec<f32> = (0..100).map(|i| i as f32).collect();

    for offset in [-10.0, -0.5, 0.0, 0.5, 10.0] {
        let shifted = shifted(&code, offset);
        assert_eq!(shifted.len(), code.len(), "offset={offset}");
    }
}

#[test]
fn test_bpsk_code_delay_by_half_chip_reduces_correlation() {
    let code: Vec<f32> = (0..1023)
        .map(|i| if (i * 7 + 3) % 17 < 9 { 1.0 } else { -1.0 })
        .collect();
    let prompt_corr: f32 = code.iter().zip(code.iter()).map(|(a, b)| a * b).sum();
    let shifted = shifted(&code, 0.5);
    let shifted_corr: f32 = code.iter().zip(shifted.iter()).map(|(a, b)| a * b).sum();

    assert!(
        prompt_corr > shifted_corr.abs(),
        "prompt_corr={prompt_corr} shifted_corr={shifted_corr}"
    );
}

#[test]
fn test_make_epl_replicas_lengths() {
    let prompt: Vec<f32> = vec![1.0; 64];
    let (e, p, l) = replicas(&prompt, 0.5);

    assert_eq!(e.len(), 64);
    assert_eq!(p.len(), 64);
    assert_eq!(l.len(), 64);
}

#[test]
fn test_make_epl_replicas_prompt_clone() {
    let prompt = vec![1.0_f32, -1.0, 1.0, -1.0];
    let (_, p, _) = replicas(&prompt, 1.0);

    assert_eq!(p, prompt);
}

#[test]
fn test_make_epl_early_is_advanced_late_is_delayed() {
    let code = vec![0.0_f32, 0.0, 1.0, 0.0, 0.0, 0.0, 0.0, 0.0];

    let (early, prompt, late) = replicas(&code, 1.0);

    assert!((prompt[2] - 1.0).abs() < 1e-9);

    // Early = advance -> shift left
    assert!((early[1] - 1.0).abs() < 1e-9);

    // Late = delay -> shift right
    assert!((late[3] - 1.0).abs() < 1e-9);
}

#[test]
fn test_make_epl_zero_spacing_all_equal() {
    let prompt = vec![1.0_f32, -1.0, 1.0];
    let (e, p, l) = replicas(&prompt, 0.0);

    for ((ei, pi), li) in e.iter().zip(p.iter()).zip(l.iter()) {
        assert!((ei - pi).abs() < 1e-9);
        assert!((pi - li).abs() < 1e-9);
    }
}

#[test]
fn interpolation_is_exact() {
    assert_eq!(shift_code(&[3, -7], 250_000_000), vec![3_000_000_000, -4_500_000_000]);
    assert_eq!(shift_code(&[3, -7], -1), vec![2_999_999_990, -7_000_000_000]);
    assert_eq!(shift_code(&[i32::MIN, i32::MAX], 1)[1], 2147483642705032705);
    assert_eq!(shift_code(&[], 5), Vec::<i64>::new());
}

#[test]
fn positions_outside_a_code_give_its_ends() {
    assert_eq!(clamped_index(i128::MIN, 4), 0);
    assert_eq!(clamped_index(-1, 4), 0);
    assert_eq!(clamped_index(0, 4), 0);
    assert_eq!(clamped_index(3, 4), 3);
    assert_eq!(clamped_index(4, 4), 3);
    assert_eq!(clamped_index(i128::MAX, 4), 3);
}
