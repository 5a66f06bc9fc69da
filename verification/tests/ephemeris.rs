//! Fields of subframes 1, 2 and 3, and the checks on a set of ephemerides.

use glrx::navigation::ephemeris::{
    concat_data_words, parse_subframe1, parse_subframe2, parse_subframe3, BitCursor, ClockParams,
    Ephemeris, EphemerisValidationError, OrbitPart1, OrbitPart2,
};
use glrx::navigation::frame_decoder::{DecodedSubframe, HowWord};

/// One second in nanoseconds.
const SECOND: i64 = 1_000_000_000;

fn seconds(nanoseconds: i128) -> f64 {
    nanoseconds as f64 * 1e-9
}

fn make_subframe(
    subframe_id: u8,
    data_words: [[bool; 24]; 8],
) -> DecodedSubframe {
    let mut words = [[false; 24]; 10];

    words[2..10].copy_from_slice(&data_words);

    DecodedSubframe {
        subframe_id,
        how: HowWord {
            tow_count: 0,
            subframe_id,
            alert_flag: false,
            anti_spoof_flag: false,
        },
        words,
    }
}

fn bits_from_u32(
    value: u32,
    len: usize,
) -> Vec<bool> {
    (0..len).rev().map(|i| (value >> i) & 1 == 1).collect()
}

fn pad_word(bits: &[bool]) -> [bool; 24] {
    assert!(bits.len() <= 24);

    let mut word = [false; 24];
    let start = 24 - bits.len();

    word[start..].copy_from_slice(bits);

    word
}

fn dummy_clock(
    health: u8,
    iodc: u16,
) -> ClockParams {
    ClockParams {
        week_number: 2300,
        ura_index: 0,
        sv_health: health,
        iodc,
        toc: 0,
        af2: 0,
        af1: 0,
        af0: 0,
    }
}

fn dummy_orbit1(iode: u8) -> OrbitPart1 {
    OrbitPart1 {
        iode,
        crs: 0,
        delta_n: 0,
        m0: 0,
        cuc: 0,
        e: 0,
        cus: 0,
        sqrt_a: (5153.7 * 524_288.0) as u32,
        toe: 0,
    }
}

fn dummy_orbit2(iode: u8) -> OrbitPart2 {
    OrbitPart2 {
        cic: 0,
        omega0: 0,
        cis: 0,
        i0: (0.96 / core::f64::consts::PI * 2_147_483_648.0) as i32,
        crc: 0,
        omega: 0,
        omega_dot: 0,
        iode,
        idot: 0,
    }
}

#[test]
fn test_cursor_unsigned_extracts_correct_value() {
    // 0b1011 = 11
    let bits = [true, false, true, true];
    let c = BitCursor::new(&bits);

    assert_eq!(c.unsigned(0, 4), 11);
}

#[test]
fn test_cursor_unsigned_partial_range() {
    let bits = [false, true, true, false, true];
    let c = BitCursor::new(&bits);

    // bits[1..4] = 1,1,0 = 0b110 = 6
    assert_eq!(c.unsigned(1, 3), 6);
}

#[test]
fn test_cursor_signed_positive_value() {
    // 0b0101 = 5
    let bits = [false, true, false, true];
    let c = BitCursor::new(&bits);

    assert_eq!(c.signed(0, 4), 5);
}

#[test]
fn test_cursor_signed_negative_value() {
    let bits = [true, false, false, false];
    let c = BitCursor::new(&bits);

    assert_eq!(c.signed(0, 4), -8);
}

#[test]
fn test_cursor_signed_negative_one() {
    let bits = [true, true, true, true];
    let c = BitCursor::new(&bits);

    assert_eq!(c.signed(0, 4), -1);
}

#[test]
fn test_parse_subframe1_returns_none_for_wrong_id() {
    let sf = make_subframe(2, [[false; 24]; 8]);

    assert!(parse_subframe1(&sf).is_none());
}

#[test]
fn test_parse_subframe1_extracts_week_and_health() {
    let mut words = [[false; 24]; 8];

    // word0: week[10] l2code[2] ura[4] health[6] iodc_msb[2]
    let mut w0 = Vec::new();

    w0.extend(bits_from_u32(500, 10)); // week = 500
    w0.extend(bits_from_u32(0, 2)); // l2 code
    w0.extend(bits_from_u32(0, 4));
    w0.extend(bits_from_u32(0, 6));
    w0.extend(bits_from_u32(0, 2)); // iodc_msb

    words[0] = pad_word(&w0);

    let sf = make_subframe(1, words);
    let clock = parse_subframe1(&sf).unwrap();

    assert_eq!(clock.week_number, 500);
    assert_eq!(clock.sv_health, 0);
}

#[test]
fn test_parse_subframe1_extracts_nonzero_health() {
    let mut words = [[false; 24]; 8];
    let mut w0 = Vec::new();

    w0.extend(bits_from_u32(0, 10));
    w0.extend(bits_from_u32(0, 2));
    w0.extend(bits_from_u32(0, 4));
    w0.extend(bits_from_u32(0b10_1010, 6));
    w0.extend(bits_from_u32(0, 2));

    words[0] = pad_word(&w0);

    let sf = make_subframe(1, words);
    let clock = parse_subframe1(&sf).unwrap();

    assert_eq!(clock.sv_health, 0b10_1010);
}

#[test]
fn test_parse_subframe1_af0_scale_applied() {
    let mut words = [[false; 24]; 8];

    let mut bits = [false; 192];

    bits[80 + 21] = true;

    for i in 0..8 {
        words[i] = bits[i * 24..(i + 1) * 24].try_into().unwrap();
    }

    let sf = make_subframe(1, words);
    let clock = parse_subframe1(&sf).unwrap();

    let expected = 1.0 * 2f64.powi(-31);

    assert!((f64::from(clock.af0) * 2f64.powi(-31) - expected).abs() < 1e-15);
}

#[test]
fn test_parse_subframe2_returns_none_for_wrong_id() {
    let sf = make_subframe(1, [[false; 24]; 8]);

    assert!(parse_subframe2(&sf).is_none());
}

#[test]
fn test_parse_subframe2_extracts_iode() {
    let mut words = [[false; 24]; 8];
    let mut w0 = Vec::new();

    w0.extend(bits_from_u32(77, 8)); // iode = 77
    w0.extend(bits_from_u32(0, 16)); // crs

    words[0] = pad_word(&w0);

    let sf = make_subframe(2, words);
    let orbit = parse_subframe2(&sf).unwrap();

    assert_eq!(orbit.iode, 77);
}

#[test]
fn test_parse_subframe2_sqrt_a_combines_msb_lsb() {
    let mut bits = [false; 192];

    bits[144 + 23] = true;

    let mut words = [[false; 24]; 8];

    for i in 0..8 {
        words[i] = bits[i * 24..(i + 1) * 24].try_into().unwrap();
    }

    let sf = make_subframe(2, words);
    let orbit = parse_subframe2(&sf).unwrap();

    let expected = 1.0 * 2f64.powi(-19);

    assert!((f64::from(orbit.sqrt_a) * 2f64.powi(-19) - expected).abs() < 1e-12);
}

#[test]
fn test_parse_subframe2_eccentricity_is_unsigned() {
    let mut bits = [false; 192];

    bits[96 + 23] = true;

    let mut words = [[false; 24]; 8];

    for i in 0..8 {
        words[i] = bits[i * 24..(i + 1) * 24].try_into().unwrap();
    }

    let sf = make_subframe(2, words);
    let orbit = parse_subframe2(&sf).unwrap();

    let expected = 1.0 * 2f64.powi(-33);

    assert!((f64::from(orbit.e) * 2f64.powi(-33) - expected).abs() < 1e-15);
    assert!(f64::from(orbit.e) >= 0.0, "eccentricity must be non-negative");
}

#[test]
fn test_parse_subframe3_returns_none_for_wrong_id() {
    let sf = make_subframe(1, [[false; 24]; 8]);

    assert!(parse_subframe3(&sf).is_none());
}

#[test]
fn test_parse_subframe3_extracts_iode_matching_subframe2() {
    let mut words = [[false; 24]; 8];
    let mut w7 = Vec::new();

    w7.extend(bits_from_u32(77, 8));
    w7.extend(bits_from_u32(0, 14)); // idot
    w7.extend(bits_from_u32(0, 2)); // aux

    words[7] = pad_word(&w7);

    let sf = make_subframe(3, words);
    let orbit = parse_subframe3(&sf).unwrap();

    assert_eq!(orbit.iode, 77);
}

#[test]
fn test_parse_subframe3_omega0_sign_extends_negative() {
    let mut bits = [false; 192];

    bits[16] = true;

    let mut words = [[false; 24]; 8];

    for i in 0..8 {
        words[i] = bits[i * 24..(i + 1) * 24].try_into().unwrap();
    }

    let sf = make_subframe(3, words);
    let orbit = parse_subframe3(&sf).unwrap();

    assert!(
        f64::from(orbit.omega0) < 0.0,
        "sign bit set should yield negative omega0"
    );
}

#[test]
fn test_validate_passes_for_healthy_consistent_ephemeris() {
    let eph = Ephemeris::new(
        1,
        dummy_clock(0, 0x00AA),
        dummy_orbit1(0xAA),
        dummy_orbit2(0xAA),
    );

    assert!(eph.validate().is_ok());
}

#[test]
fn test_validate_fails_for_unhealthy_satellite() {
    let eph = Ephemeris::new(
        1,
        dummy_clock(5, 0x00AA),
        dummy_orbit1(0xAA),
        dummy_orbit2(0xAA),
    );

    assert_eq!(
        eph.validate(),
        Err(EphemerisValidationError::UnhealthySatellite { health: 5 })
    );
}

#[test]
fn test_validate_fails_for_iode_mismatch_between_sf2_sf3() {
    let eph = Ephemeris::new(
        1,
        dummy_clock(0, 0x00AA),
        dummy_orbit1(0xAA),
        dummy_orbit2(0xBB),
    );

    assert_eq!(
        eph.validate(),
        Err(EphemerisValidationError::IodeMismatch {
            iode_sf2: 0xAA,
            iode_sf3: 0xBB
        })
    );
}

#[test]
fn test_validate_fails_for_iodc_iode_mismatch() {
    let eph = Ephemeris::new(
        1,
        dummy_clock(0, 0x00FF),
        dummy_orbit1(0xAA),
        dummy_orbit2(0xAA),
    );

    assert_eq!(
        eph.validate(),
        Err(EphemerisValidationError::IodcIodeMismatch {
            iodc_low8: 0xFF,
            iode: 0xAA
        })
    );
}

#[test]
fn test_validate_checks_health_before_iode() {
    let eph = Ephemeris::new(
        1,
        dummy_clock(3, 0x00AA),
        dummy_orbit1(0xAA),
        dummy_orbit2(0xBB),
    );

    assert_eq!(
        eph.validate(),
        Err(EphemerisValidationError::UnhealthySatellite { health: 3 })
    );
}

#[test]
fn test_corrected_time_diff_no_wrap() {
    let dt = seconds(Ephemeris::corrected_time_diff(1000 * SECOND, 900 * SECOND));

    assert!((dt - 100.0).abs() < 1e-12);
}

#[test]
fn test_corrected_time_diff_negative_wrap() {
    let t = 100 * SECOND;
    let t0 = 604_700 * SECOND;

    let dt = seconds(Ephemeris::corrected_time_diff(t, t0));

    assert!(dt > 0.0);
    assert!(dt < 500.0);
}

#[test]
fn test_bitcursor_signed_32bit_boundary() {
    let bits = [true; 32];
    let c = BitCursor::new(&bits);

    let v = c.signed(0, 32);

    assert_eq!(v, -1);
}

fn subframe_of_bits(subframe_id: u8, bits: [bool; 192]) -> DecodedSubframe {
    let mut words = [[false; 24]; 8];
    for i in 0..8 {
        words[i] = bits[i * 24..(i + 1) * 24].try_into().unwrap();
    }
    make_subframe(subframe_id, words)
}

fn put(bits: &mut [bool; 192], offset: usize, len: usize, value: i64) {
    for i in 0..len {
        bits[offset + len - 1 - i] = (value >> i) & 1 == 1;
    }
}

#[test]
fn data_words_are_joined_in_order() {
    let mut bits = [false; 192];
    for (i, bit) in bits.iter_mut().enumerate() {
        *bit = i % 7 == 2 || i % 11 == 0;
    }
    assert_eq!(concat_data_words(&subframe_of_bits(1, bits)), bits);
}

#[test]
fn clock_fields_come_back_as_written() {
    let mut bits = [false; 192];
    put(&mut bits, 0, 10, 1001);
    put(&mut bits, 12, 4, 9);
    put(&mut bits, 16, 6, 33);
    put(&mut bits, 22, 2, 2);
    put(&mut bits, 32, 8, 0xA5);
    put(&mut bits, 40, 16, 37_799);
    put(&mut bits, 56, 8, -3);
    put(&mut bits, 64, 16, -32_768);
    put(&mut bits, 80, 22, -2_097_152);
    assert_eq!(
        parse_subframe1(&subframe_of_bits(1, bits)),
        Some(ClockParams {
            week_number: 1001,
            ura_index: 9,
            sv_health: 33,
            iodc: 0x2A5,
            toc: 604_784,
            af2: -3,
            af1: -32_768,
            af0: -2_097_152,
        })
    );
}

#[test]
fn orbit_fields_come_back_as_written() {
    let mut bits = [false; 192];
    put(&mut bits, 0, 8, 0xAA);
    put(&mut bits, 8, 16, -100);
    put(&mut bits, 24, 16, 12_345);
    put(&mut bits, 40, 32, -2_147_483_648);
    put(&mut bits, 72, 16, -1);
    put(&mut bits, 88, 32, 0xFFFF_FFFF);
    put(&mut bits, 120, 16, 32_767);
    put(&mut bits, 136, 32, 2_702_009_344);
    put(&mut bits, 168, 16, 65_535);
    assert_eq!(
        parse_subframe2(&subframe_of_bits(2, bits)),
        Some(OrbitPart1 {
            iode: 0xAA,
            crs: -100,
            delta_n: 12_345,
            m0: i32::MIN,
            cuc: -1,
            e: u32::MAX,
            cus: 32_767,
            sqrt_a: 2_702_009_344,
            toe: 1_048_560,
        })
    );

    let mut bits = [false; 192];
    put(&mut bits, 0, 16, -7);
    put(&mut bits, 16, 32, 1_000_000_007);
    put(&mut bits, 48, 16, 8);
    put(&mut bits, 64, 32, 660_000_000);
    put(&mut bits, 96, 16, -20_000);
    put(&mut bits, 112, 32, -1_500_000_000);
    put(&mut bits, 144, 24, -8_388_608);
    put(&mut bits, 168, 8, 0xAA);
    put(&mut bits, 176, 14, -8192);
    assert_eq!(
        parse_subframe3(&subframe_of_bits(3, bits)),
        Some(OrbitPart2 {
            cic: -7,
            omega0: 1_000_000_007,
            cis: 8,
            i0: 660_000_000,
            crc: -20_000,
            omega: -1_500_000_000,
            omega_dot: -8_388_608,
            iode: 0xAA,
            idot: -8192,
        })
    );
}

#[test]
fn time_difference_takes_the_short_way_round_the_week() {
    let week = 604_800 * SECOND;
    assert_eq!(Ephemeris::corrected_time_diff(100 * SECOND, week - 100 * SECOND), 200_000_000_000);
    assert_eq!(Ephemeris::corrected_time_diff(week - 100 * SECOND, 100 * SECOND), -200_000_000_000);
    assert_eq!(Ephemeris::corrected_time_diff(week / 2, 0), i128::from(week / 2));
    assert_eq!(Ephemeris::corrected_time_diff(0, week / 2), -i128::from(week / 2));
    assert_eq!(Ephemeris::corrected_time_diff(week / 2 + 1, 0), 1 - i128::from(week / 2));
}
