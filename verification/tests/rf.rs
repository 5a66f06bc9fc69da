//! Formats, configurations, files and streams of IQ samples.

use std::str::FromStr;

use glrx::rf::config::RfConfig;
use glrx::rf::error::{decimal_text, RfError};
use glrx::rf::file::{decode_block, FileSource, FileStep, RawSample};
use glrx::rf::format::SampleFormat;
use glrx::rf::sdr::pseudo_noise;
use glrx::rf::stream::{
    after_read_wait, after_write_wait, BlockAssembly, IqBlock, IqStream, OverflowPolicy,
    SharedBuffer, Slot, SourceMetrics, WriteStatus, GAP_THRESHOLD_NS,
};
use num_complex::Complex32;

// Formats

#[test]
fn test_format_bytes() {
    assert_eq!(SampleFormat::I8.bytes_per_complex_sample(), 2);
    assert_eq!(SampleFormat::I16.bytes_per_complex_sample(), 4);
    assert_eq!(SampleFormat::F32.bytes_per_complex_sample(), 8);
}

#[test]
fn sample_format_from_str() {
    assert_eq!(SampleFormat::from_str("i8").unwrap(), SampleFormat::I8);
    assert_eq!(SampleFormat::from_str("SC8").unwrap(), SampleFormat::I8);
    assert_eq!(SampleFormat::from_str("f32").unwrap(), SampleFormat::F32);
    assert!(SampleFormat::from_str("u8").is_err());
}

#[test]
fn every_name_of_a_format_is_known() {
    for name in ["i8", "sc8", "int8", "INT8", "Sc8"] {
        assert_eq!(SampleFormat::parse(name), Ok(SampleFormat::I8));
    }
    for name in ["i16", "sc16", "int16", "I16"] {
        assert_eq!(SampleFormat::parse(name), Ok(SampleFormat::I16));
    }
    for name in ["f32", "fc32", "float32", "Float32"] {
        assert_eq!(SampleFormat::parse(name), Ok(SampleFormat::F32));
    }
    assert_eq!(
        SampleFormat::parse("CU8"),
        Err(RfError::UnsupportedFormat("cu8".to_string()))
    );
    assert_eq!(SampleFormat::parse(""), Err(RfError::UnsupportedFormat(String::new())));
}

// Errors

#[test]
fn errors_have_messages() {
    assert_eq!(RfError::Io("disk".to_string()).message(), "I/O error: disk");
    assert_eq!(RfError::EndOfFile.message(), "end of IQ file reached");
    assert_eq!(
        RfError::UnsupportedFormat("u8".to_string()).message(),
        "unsupported sample format: u8"
    );
    assert_eq!(
        RfError::BufferOverflow { dropped: 640 }.message(),
        "ring buffer overflow \u{2014} 640 samples dropped"
    );
    assert_eq!(
        RfError::StreamInterrupted { gap_ns: 7_500_000 }.message(),
        "stream interrupted after 7.5ms gap"
    );
    assert_eq!(RfError::Sdr("lost".to_string()).message(), "SDR error: lost");
    assert_eq!(
        RfError::Config("rate".to_string()).message(),
        "invalid configuration: rate"
    );
    assert_eq!(decimal_text(0), "0");
    assert_eq!(decimal_text(u64::MAX), "18446744073709551615");
}

// Configuration

fn cfg_with_rate(rate: f64) -> RfConfig {
    RfConfig { sample_rate_mhz: (rate * 1000.0) as i64, ..RfConfig::default() }
}

#[test]
fn test_rf_config_default_are_valid() {
    RfConfig::default().validate().expect("default config should be valid");
}

#[test]
fn test_rf_config_samples_in_duration() {
    let cfg = RfConfig::default();
    let n = cfg.samples_in(1_000_000);

    assert_eq!(n, 2048);
}

#[test]
fn test_rf_config_validate_errors() {
    let cfg = cfg_with_rate(0.0);

    assert!(cfg.validate().is_err());

    let cfg = cfg_with_rate(0.0);

    assert!(cfg.validate().is_err());
}

#[test]
fn test_bandwidth_and_period() {
    let cfg = RfConfig::default();

    assert_eq!(cfg.bandwidth_mhz() as f64 / 1000.0, 1_024_000.0);
    assert!((1000.0 / cfg.sample_rate_mhz as f64 - 1.0 / 2_048_000.0).abs() < 1e-12);
}

#[test]
fn refused_frequencies_are_named() {
    let text = |c: RfConfig| c.validate().unwrap_err().message();
    assert_eq!(
        text(cfg_with_rate(-12.5)),
        "invalid configuration: sample_rate_hz must be positive, got -12.5"
    );
    assert_eq!(
        text(RfConfig { center_freq_mhz: -3, ..RfConfig::default() }),
        "invalid configuration: center_freq_hz must be positive, got -0.003"
    );
    assert_eq!(
        text(RfConfig { center_freq_mhz: 0, ..RfConfig::default() }),
        "invalid configuration: center_freq_hz must be positive, got 0"
    );
    assert_eq!(
        text(RfConfig { center_freq_mhz: -1_250, ..RfConfig::default() }),
        "invalid configuration: center_freq_hz must be positive, got -1.25"
    );
}

#[test]
fn samples_in_a_time_are_whole_and_bounded() {
    let rate = |r: i64| RfConfig { sample_rate_mhz: r, ..RfConfig::default() };
    assert_eq!(rate(1_500).samples_in(1_999_999_999), 2);
    assert_eq!(rate(1_500).samples_in(2_000_000_000), 3);
    assert_eq!(rate(-5).samples_in(u64::MAX), 0);
    assert_eq!(rate(i64::MAX).samples_in(u64::MAX), usize::MAX);
    assert_eq!(rate(-3).bandwidth_mhz(), -2);
}

// Files

fn i8_bytes(pairs: &[(i8, i8)]) -> Vec<u8> {
    pairs.iter().flat_map(|&(i, q)| [i as u8, q as u8]).collect()
}

fn f32_bytes(pairs: &[(f32, f32)]) -> Vec<u8> {
    let mut bytes = Vec::new();
    for &(i, q) in pairs {
        bytes.extend_from_slice(&i.to_le_bytes());
        bytes.extend_from_slice(&q.to_le_bytes());
    }
    bytes
}

/// A file in memory, read as the library asks.
struct Tape {
    bytes: Vec<u8>,
    at: usize,
    source: FileSource,
}

impl Tape {
    fn open(bytes: Vec<u8>, format: SampleFormat) -> Self {
        Tape { bytes, at: 0, source: FileSource::new(format) }
    }

    fn with_looping(self) -> Self {
        Tape { source: self.source.with_looping(), ..self }
    }

    fn seek(&mut self, sample: u64) {
        self.at = self.source.seek(sample) as usize;
    }

    fn read_block(&mut self, n: usize) -> Result<IqBlock<RawSample>, RfError> {
        let mut read = self.source.begin_block(n);
        let mut step = read.next();
        loop {
            match step {
                FileStep::Read { bytes } => {
                    let end = self.bytes.len().min(self.at + bytes);
                    let start = self.at.min(end);
                    step = read.on_bytes(&self.bytes[start..end]);
                    self.at = end;
                }
                FileStep::Rewind => {
                    self.at = 0;
                    step = read.next();
                }
                FileStep::Done => return Ok(self.source.deliver(read)),
                FileStep::Failed(e) => return Err(e),
            }
        }
    }
}

fn norm(sample: RawSample) -> Complex32 {
    match sample {
        RawSample::I8 { i, q } => Complex32::new(f32::from(i) / 127.0, f32::from(q) / 127.0),
        RawSample::I16 { i, q } => Complex32::new(f32::from(i) / 32767.0, f32::from(q) / 32767.0),
        RawSample::F32 { i_bits, q_bits } => {
            Complex32::new(f32::from_bits(i_bits), f32::from_bits(q_bits))
        }
    }
}

#[test]
fn i8_reads_correct_values() {
    let mut src = Tape::open(i8_bytes(&[(127, -127), (0, 0), (-64, 64)]), SampleFormat::I8);
    let block = src.read_block(3).unwrap();
    assert_eq!(block.samples.len(), 3);
    assert!((norm(block.samples[0]).re - 1.0).abs() < 0.01);
    assert!((norm(block.samples[0]).im + 1.0).abs() < 0.01);
    assert_eq!(norm(block.samples[1]), Complex32::new(0.0, 0.0));
    assert_eq!(block.samples[2], RawSample::I8 { i: -64, q: 64 });
}

#[test]
fn i8_partial_block_at_eof() {
    let mut src = Tape::open(i8_bytes(&[(1, 2), (3, 4)]), SampleFormat::I8);
    let block = src.read_block(10).unwrap();
    assert_eq!(block.samples.len(), 2);
}

#[test]
fn i8_eof_error_on_second_call() {
    let mut src = Tape::open(i8_bytes(&[(1, 2)]), SampleFormat::I8);
    src.read_block(1).unwrap();
    assert!(matches!(src.read_block(1), Err(RfError::EndOfFile)));
}

#[test]
fn f32_reads_correct_values() {
    let mut src = Tape::open(f32_bytes(&[(0.5, -0.5), (1.0, 0.0)]), SampleFormat::F32);
    let block = src.read_block(2).unwrap();
    assert!((norm(block.samples[0]).re - 0.5).abs() < 1e-6);
    assert!((norm(block.samples[0]).im + 0.5).abs() < 1e-6);
}

#[test]
fn seek_reads_from_offset() {
    let pairs: Vec<(i8, i8)> = (0i8..8).map(|i| (i, i)).collect();
    let mut src = Tape::open(i8_bytes(&pairs), SampleFormat::I8);
    src.seek(4);
    let block = src.read_block(1).unwrap();
    assert!((norm(block.samples[0]).re - 4.0 / 127.0).abs() < 0.01);
    assert_eq!(block.start_sample, 4);
}

#[test]
fn looping_wraps_around() {
    let mut src = Tape::open(i8_bytes(&[(10, 20), (30, 40)]), SampleFormat::I8).with_looping();
    let block = src.read_block(3).unwrap();
    assert_eq!(block.samples.len(), 3);
    let first = norm(RawSample::I8 { i: 10, q: 20 });
    assert!((norm(block.samples[2]).re - first.re).abs() < 1e-6);
}

#[test]
fn total_samples_correct() {
    let src = FileSource::new(SampleFormat::I8);
    assert_eq!(src.total_samples(i8_bytes(&[(0, 0); 1024]).len() as u64), 1024);
}

#[test]
fn duration_1ms_at_2048k() {
    let src = FileSource::new(SampleFormat::I8);
    let samples = src.total_samples(i8_bytes(&[(0, 0); 2048]).len() as u64);
    let d = RfConfig::default().duration_ns(samples) as f64 * 1e-9;
    assert!((d - 0.001).abs() < 1e-9);
}

#[test]
fn metrics_count_delivered_samples() {
    let mut src = Tape::open(i8_bytes(&[(0, 0); 128]), SampleFormat::I8);
    src.read_block(64).unwrap();
    src.read_block(64).unwrap();
    assert_eq!(src.source.metrics().total_samples, 128);
}

#[test]
fn start_sample_increments_across_blocks() {
    let mut src = Tape::open(i8_bytes(&[(0, 0); 64]), SampleFormat::I8);
    let b1 = src.read_block(32).unwrap();
    let b2 = src.read_block(32).unwrap();
    assert_eq!(b1.start_sample, 0);
    assert_eq!(b2.start_sample, 32);
}

#[test]
fn samples_of_16_bits_are_little_endian() {
    let bytes = [0x01u8, 0x80, 0xFF, 0x7F, 0xFE, 0xFF, 0x00, 0x01];
    assert_eq!(
        decode_block(&bytes, SampleFormat::I16, 5),
        Ok(vec![RawSample::I16 { i: -32_767, q: 32_767 }, RawSample::I16 { i: -2, q: 256 }])
    );
}

#[test]
fn floating_point_bits_are_little_endian() {
    let bytes = f32_bytes(&[(1.5, -0.0)]);
    assert_eq!(
        decode_block(&bytes, SampleFormat::F32, 1),
        Ok(vec![RawSample::F32 { i_bits: 0x3FC0_0000, q_bits: 0x8000_0000 }])
    );
}

#[test]
fn a_file_torn_within_a_sample_is_reported() {
    // Half a sample is too much to be passed over, less is not.
    let torn = Err(RfError::Io("failed to fill whole buffer".to_string()));
    assert_eq!(decode_block(&[1, 2, 3], SampleFormat::I8, 2), torn);
    assert_eq!(decode_block(&[1, 2], SampleFormat::I16, 1), torn);
    assert_eq!(decode_block(&[1], SampleFormat::I16, 1), Err(RfError::EndOfFile));
    assert_eq!(decode_block(&[], SampleFormat::F32, 1), Err(RfError::EndOfFile));
    assert_eq!(
        decode_block(&[1, 2, 3], SampleFormat::I8, 1),
        Ok(vec![RawSample::I8 { i: 1, q: 2 }])
    );
}

#[test]
fn a_looping_file_never_ends() {
    let mut src = Tape::open(i8_bytes(&[(1, 1), (2, 2), (3, 3)]), SampleFormat::I8).with_looping();
    let mut seen = Vec::new();
    for _ in 0..5 {
        for s in src.read_block(2).unwrap().samples {
            seen.push(s);
        }
    }
    let expected: Vec<RawSample> = (0..10)
        .map(|k| RawSample::I8 { i: (k % 3) as i8 + 1, q: (k % 3) as i8 + 1 })
        .collect();
    assert_eq!(seen, expected);
    let mut empty = Tape::open(Vec::new(), SampleFormat::I8).with_looping();
    assert!(matches!(empty.read_block(1), Err(RfError::EndOfFile)));
}

#[test]
fn blocks_of_a_file_follow_one_another() {
    let pairs: Vec<(i8, i8)> = (0..100i8).map(|k| (k, -k)).collect();
    let mut src = Tape::open(i8_bytes(&pairs), SampleFormat::I8);
    let mut seen = Vec::new();
    while let Ok(block) = src.read_block(7) {
        assert_eq!(block.start_sample, seen.len() as u64);
        seen.extend(block.samples);
    }
    let expected: Vec<RawSample> = pairs.iter().map(|&(i, q)| RawSample::I8 { i, q }).collect();
    assert_eq!(seen, expected);
}

// Metrics

fn ratio(parts: (u64, u128)) -> f64 {
    parts.0 as f64 / parts.1 as f64
}

#[test]
fn test_metrics_loss_ratio() {
    let m = SourceMetrics { total_samples: 900, dropped_samples: 100, ..SourceMetrics::new() };

    assert!((ratio(m.loss_ratio()) - 0.1).abs() < 1e-9);
}

#[test]
fn test_loss_ratio_zero_total() {
    let m = SourceMetrics::new();
    assert_eq!(ratio(m.loss_ratio()), 0.0);
}

#[test]
fn test_loss_ratio_no_drops() {
    let m = SourceMetrics { total_samples: 1000, dropped_samples: 0, ..SourceMetrics::new() };
    assert_eq!(ratio(m.loss_ratio()), 0.0);
}

#[test]
fn test_loss_ratio_drops_more_than_total() {
    let m = SourceMetrics { total_samples: 50, dropped_samples: 150, ..SourceMetrics::new() };
    assert!((ratio(m.loss_ratio()) - 0.75).abs() < 1e-9);
}

// Streams

const SLOT: usize = 64;
const ZERO: Complex32 = Complex32::new(0.0, 0.0);
const ONE: Complex32 = Complex32::new(1.0, 0.0);

fn make_stream(capacity: usize, policy: OverflowPolicy) -> SharedBuffer<Complex32> {
    IqStream::create(capacity, SLOT, policy, 31_250)
}

#[test]
fn test_basic_write_read() {
    let mut s = make_stream(4, OverflowPolicy::DropOldest);
    let data: Vec<Complex32> = vec![ONE; SLOT];

    s.write(&data, 0, 0).unwrap();

    let block = s.read_block(SLOT).unwrap();

    assert_eq!(block.samples.len(), SLOT);
    assert_eq!(block.samples[0], ONE);
    assert_eq!(block.start_sample, 0);
}

#[test]
fn test_multiple_slots_across_reads() {
    let mut s = make_stream(8, OverflowPolicy::DropOldest);

    for i in 0..3u64 {
        let data = vec![Complex32::new(i as f32, 0.0); SLOT];
        s.write(&data, i * SLOT as u64, 0).unwrap();
    }

    for i in 0..3u64 {
        let block = s.read_block(SLOT).unwrap();

        assert!((block.samples[0].re - i as f32).abs() < 1e-9);
        assert_eq!(block.start_sample, i * SLOT as u64);
    }
}

#[test]
fn test_drop_oldest_on_overflow() {
    let mut s = make_stream(2, OverflowPolicy::DropOldest);

    for i in 0..4u64 {
        s.write(&vec![Complex32::new(i as f32, 0.0); SLOT], i * SLOT as u64, 0).unwrap();
    }

    assert!(s.dropped_samples() > 0, "expected drops");

    let block = s.read_block(SLOT).unwrap();

    assert_eq!(block.samples.len(), SLOT);
    assert_eq!(block.samples[0].re, 2.0);
    assert_eq!(s.dropped_samples(), 2 * SLOT as u64);
}

#[test]
fn test_error_on_overflow_policy() {
    let mut s = make_stream(2, OverflowPolicy::ErrorOnOverflow);

    s.write(&vec![ZERO; SLOT], 0, 0).unwrap();
    s.write(&vec![ZERO; SLOT], SLOT as u64, 0).unwrap();

    let result = s.write(&vec![ZERO; SLOT], (2 * SLOT) as u64, 0);

    assert!(matches!(result, Err(RfError::BufferOverflow { .. })));
}

#[test]
fn test_read_larger_than_slot() {
    let mut s = make_stream(8, OverflowPolicy::DropOldest);

    s.write(&vec![Complex32::new(1.0, 0.0); SLOT], 0, 0).unwrap();
    s.write(&vec![Complex32::new(2.0, 0.0); SLOT], SLOT as u64, 0).unwrap();

    let block = s.read_block(SLOT * 2).unwrap();

    assert_eq!(block.samples.len(), SLOT * 2);
}

#[test]
fn test_metrics_track_reads_and_drops() {
    let mut s = make_stream(2, OverflowPolicy::DropOldest);

    for i in 0..5u64 {
        let _ = s.write(&vec![ZERO; SLOT], i * SLOT as u64, 0);
    }

    let _ = s.read_block(SLOT).unwrap();
    let m = s.metrics();

    assert_eq!(m.total_samples, SLOT as u64);
    assert!(m.dropped_samples > 0);
}

#[test]
fn test_used_slots_increases_on_write() {
    let mut s = make_stream(8, OverflowPolicy::ErrorOnOverflow);

    assert_eq!(s.used_slots(), 0);

    s.write(&vec![ZERO; SLOT], 0, 0).unwrap();

    assert_eq!(s.used_slots(), 1);

    s.write(&vec![ZERO; SLOT], SLOT as u64, 0).unwrap();

    assert_eq!(s.used_slots(), 2);
}

#[test]
fn test_available_slots_decreases_on_read() {
    let mut s = make_stream(4, OverflowPolicy::DropOldest);

    s.write(&vec![ZERO; SLOT], 0, 0).unwrap();
    s.write(&vec![ZERO; SLOT], SLOT as u64, 0).unwrap();

    assert_eq!(s.used_slots(), 2);

    s.read_block(SLOT).unwrap();

    assert_eq!(s.used_slots(), 1);
}

#[test]
fn test_start_sample_preserved() {
    let mut s = make_stream(4, OverflowPolicy::DropOldest);
    s.write(&vec![ZERO; SLOT], 12345, 0).unwrap();
    let block = s.read_block(SLOT).unwrap();
    assert_eq!(block.start_sample, 12345);
}

#[test]
fn a_full_buffer_makes_the_producer_wait() {
    let mut s: SharedBuffer<u8> = IqStream::create(2, 4, OverflowPolicy::BlockProducer, 0);
    assert_eq!(s.write(&[1, 2], 0, 0), Ok(WriteStatus::Stored));
    assert_eq!(s.write(&[3, 4], 2, 0), Ok(WriteStatus::Stored));
    assert!(s.is_full());
    assert_eq!(s.write(&[5, 6], 4, 0), Ok(WriteStatus::MustWait));
    let slot = s.take_slot().unwrap().unwrap();
    assert_eq!((slot.samples, slot.start_sample), (vec![1, 2], 0));
    assert_eq!(s.write(&[5, 6], 4, 0), Ok(WriteStatus::Stored));
    assert_eq!(s.dropped_samples(), 0);
    assert_eq!(s.read_block(4).unwrap().samples, vec![3, 4, 5, 6]);
    assert!(s.is_empty());
    assert!(s.take_slot().unwrap().is_none());
}

#[test]
fn every_written_sample_is_accounted_for() {
    let mut s: SharedBuffer<u32> = IqStream::create(3, 10, OverflowPolicy::DropOldest, 0);
    let mut written = 0u64;
    for k in 0..20u32 {
        let data = vec![k; 1 + (k % 5) as usize];
        s.write(&data, written, 0).unwrap();
        written += data.len() as u64;
        if k % 3 == 0 {
            s.take_slot().unwrap().unwrap();
        }
    }
    let mut waiting = 0u64;
    let before = s.metrics();
    while let Some(slot) = s.take_slot().unwrap() {
        waiting += slot.samples.len() as u64;
    }
    assert_eq!(before.total_samples + before.dropped_samples + waiting, written);
}

#[test]
fn a_refused_block_is_counted_as_dropped() {
    let mut s: SharedBuffer<u8> = IqStream::create(2, 4, OverflowPolicy::ErrorOnOverflow, 0);
    s.write(&[1], 0, 0).unwrap();
    s.write(&[2], 1, 0).unwrap();
    assert_eq!(s.write(&[3, 4, 5], 2, 0), Err(RfError::BufferOverflow { dropped: 3 }));
    assert_eq!(s.dropped_samples(), 3);
    assert_eq!(s.used_slots(), 2);
}

#[test]
fn a_pause_in_the_stream_is_reported_once() {
    let slot_ns = 1_000_000;
    let mut s: SharedBuffer<u8> = IqStream::create(4, 4, OverflowPolicy::DropOldest, slot_ns);
    s.write(&[1], 0, 0).unwrap();
    s.write(&[2], 1, slot_ns + GAP_THRESHOLD_NS).unwrap();
    s.write(&[3], 2, 2 * (slot_ns + GAP_THRESHOLD_NS) + 1).unwrap();
    assert_eq!(s.take_slot().unwrap().unwrap().samples, vec![1]);
    assert_eq!(s.take_slot().unwrap().unwrap().samples, vec![2]);
    assert_eq!(
        s.take_slot().unwrap_err(),
        RfError::StreamInterrupted { gap_ns: slot_ns + GAP_THRESHOLD_NS + 1 }
    );
    assert_eq!(s.metrics().interruptions, 1);
    assert_eq!(s.take_slot().unwrap().unwrap().samples, vec![3]);
    assert_eq!(s.metrics().interruptions, 1);
}

#[test]
fn a_pause_in_the_stream_fails_the_read_that_meets_it() {
    let slot_ns = 1_000_000;
    let mut s: SharedBuffer<u8> = IqStream::create(8, 2, OverflowPolicy::DropOldest, slot_ns);
    s.write(&[1, 2], 0, 0).unwrap();
    s.write(&[3, 4], 2, slot_ns).unwrap();
    s.write(&[5, 6], 4, 50 * slot_ns).unwrap();
    s.write(&[7, 8], 6, 51 * slot_ns).unwrap();
    assert_eq!(s.read_block(2).unwrap().samples, vec![1, 2]);
    assert_eq!(
        s.read_block(4).unwrap_err(),
        RfError::StreamInterrupted { gap_ns: 49 * slot_ns }
    );
    assert_eq!(s.used_slots(), 2);
    let block = s.read_block(4).unwrap();
    assert_eq!((block.samples, block.start_sample), (vec![5, 6, 7, 8], 4));
    assert_eq!(s.metrics().interruptions, 1);
}

#[test]
fn waiting_ends_after_a_while() {
    assert_eq!(after_write_wait(5_000_000_000, 7), Ok(()));
    assert_eq!(after_write_wait(5_000_000_001, 7), Err(RfError::BufferOverflow { dropped: 7 }));
    assert_eq!(after_read_wait(2_000_000_000), Ok(()));
    assert_eq!(
        after_read_wait(2_000_000_001),
        Err(RfError::Io("IqStream: timeout waiting for data".to_string()))
    );
}

#[test]
fn too_few_samples_fail_a_read() {
    let mut s: SharedBuffer<u8> = IqStream::create(4, 4, OverflowPolicy::DropOldest, 0);
    s.write(&[1, 2], 0, 0).unwrap();
    assert_eq!(
        s.read_block(3).unwrap_err(),
        RfError::Io("IqStream: timeout waiting for data".to_string())
    );
}

#[test]
fn a_block_is_put_together_from_slots() {
    let mut assembly: BlockAssembly<u8> = BlockAssembly::new(5);
    assert!(!assembly.is_complete());
    assembly.accept(Slot { samples: vec![1, 2, 3], start_sample: 40, written_at_ns: 0 });
    assembly.accept(Slot { samples: vec![4, 5, 6], start_sample: 43, written_at_ns: 0 });
    assert!(assembly.is_complete());
    let block = assembly.into_block();
    assert_eq!(block.samples, vec![1, 2, 3, 4, 5]);
    assert_eq!(block.start_sample, 40);
}

// Noise

#[test]
fn noise_is_that_of_the_xorshift_generator() {
    let xorshift = |mut x: u64| {
        x ^= x << 13;
        x ^= x >> 7;
        x ^= x << 17;
        (x & 0xFFFF_FFFF) as i32
    };
    for x in [0u64, 1, 2, 0xDEAD_BEEF, u64::MAX, 0x1234_5678_9ABC_DEF0] {
        assert_eq!(pseudo_noise(x), xorshift(x));
    }
    assert_eq!(pseudo_noise(0), 0);
}
