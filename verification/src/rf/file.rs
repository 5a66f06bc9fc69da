//! Raw files of IQ samples: a flat row of little-endian pairs without a header.
//!
//! The library decides what to read next and turns bytes into samples; the
//! caller does the reading.

use byteorder::{ByteOrder, LittleEndian};

use crate::rf::error::{RfError, RfResult};
use crate::rf::format::{sample_bytes, SampleFormat};
use crate::rf::stream::{IqBlock, SourceMetrics};
use vstd::prelude::*;
use vstd::string::StringExecFns;

verus! {

/// A complex sample as it stands in a file.
#[derive(Debug, Clone, Copy, PartialEq, Eq, Structural)]
pub enum RawSample {
    /// Two signed integers of 8 bits.
    I8 {
        /// In-phase part.
        i: i8,
        /// Quadrature part.
        q: i8,
    },
    /// Two signed integers of 16 bits.
    I16 {
        /// In-phase part.
        i: i16,
        /// Quadrature part.
        q: i16,
    },
    /// The bits of two floating-point numbers of 32 bits.
    F32 {
        /// Bits of the in-phase part.
        i_bits: u32,
        /// Bits of the quadrature part.
        q_bits: u32,
    },
}

/// The signed number of 8 bits at `at`.
pub open spec fn i8_at(bytes: Seq<u8>, at: int) -> int {
    if bytes[at] < 0x80 {
        bytes[at] as int
    } else {
        bytes[at] - 0x100
    }
}

/// The signed little-endian number of 16 bits at `at`.
pub open spec fn i16_at(bytes: Seq<u8>, at: int) -> int {
    let v = bytes[at] + 0x100 * bytes[at + 1];
    if v < 0x8000 {
        v
    } else {
        v - 0x1_0000
    }
}

/// The little-endian number of 32 bits at `at`.
pub open spec fn u32_at(bytes: Seq<u8>, at: int) -> int {
    bytes[at] + 0x100 * bytes[at + 1] + 0x1_0000 * bytes[at + 2] + 0x100_0000 * bytes[at + 3]
}

/// The sample number `k` of a row of bytes.
pub open spec fn sample_at(bytes: Seq<u8>, format: SampleFormat, k: int) -> RawSample {
    match format {
        SampleFormat::I8 => RawSample::I8 {
            i: i8_at(bytes, 2 * k) as i8,
            q: i8_at(bytes, 2 * k + 1) as i8,
        },
        SampleFormat::I16 => RawSample::I16 {
            i: i16_at(bytes, 4 * k) as i16,
            q: i16_at(bytes, 4 * k + 2) as i16,
        },
        SampleFormat::F32 => RawSample::F32 {
            i_bits: u32_at(bytes, 8 * k) as u32,
            q_bits: u32_at(bytes, 8 * k + 4) as u32,
        },
    }
}

/// The first `n` samples of a row of bytes.
pub open spec fn samples_in(bytes: Seq<u8>, format: SampleFormat, n: int) -> Seq<RawSample> {
    Seq::new(n as nat, |k: int| sample_at(bytes, format, k))
}

/// `byteorder::LittleEndian::read_i16` on the two bytes at `at`: the signed number
/// that they hold, low byte first.
#[verifier::external_body]
fn read_i16(bytes: &[u8], at: usize) -> (value: i16)
    requires
        at + 2 <= bytes@.len(),
    ensures
        value == i16_at(bytes@, at as int),
{
    LittleEndian::read_i16(&bytes[at..at + 2])
}

/// `byteorder::LittleEndian::read_u32` on the four bytes at `at`: the number that
/// they hold, low byte first.
#[verifier::external_body]
fn read_u32(bytes: &[u8], at: usize) -> (value: u32)
    requires
        at + 4 <= bytes@.len(),
    ensures
        value == u32_at(bytes@, at as int),
{
    LittleEndian::read_u32(&bytes[at..at + 4])
}

/// The signed number in one byte.
fn read_i8(bytes: &[u8], at: usize) -> (value: i8)
    requires
        at < bytes@.len(),
    ensures
        value == i8_at(bytes@, at as int),
{
    let v: u8 = bytes[at];
    if v < 0x80 {
        v as i8
    } else {
        (v as i16 - 0x100) as i8
    }
}

/// What comes of reading samples from the rest of a file.
pub enum Decoded {
    /// Samples.
    Samples(Seq<RawSample>),
    /// No sample is left.
    Ended,
    /// The file ends between the two parts of a sample.
    Torn,
}

/// What comes of reading `n` samples from the rest `bytes` of a file: the whole
/// samples among them, at most `n`.
pub open spec fn decoded(bytes: Seq<u8>, format: SampleFormat, n: int) -> Decoded {
    let size = sample_bytes(format);
    let whole = bytes.len() as int / size;
    let left = bytes.len() as int % size;
    if whole >= n {
        Decoded::Samples(samples_in(bytes, format, n))
    } else if 2 * left >= size {
        Decoded::Torn
    } else if whole == 0 {
        Decoded::Ended
    } else {
        Decoded::Samples(samples_in(bytes, format, whole))
    }
}

/// The error of a file that ends between the two parts of a sample.
pub open spec fn is_torn(e: RfError) -> bool {
    e matches RfError::Io(text) && text@ == "failed to fill whole buffer"@
}

/// How an outcome is reported.
pub open spec fn reports(outcome: RfResult<Vec<RawSample>>, d: Decoded) -> bool {
    match d {
        Decoded::Samples(s) => outcome matches Ok(samples) && samples@ == s,
        Decoded::Ended => outcome matches Err(e) && e is EndOfFile,
        Decoded::Torn => outcome matches Err(e) && is_torn(e),
    }
}

/// The sample number `k` of a row of bytes.
fn decode_sample(bytes: &[u8], format: SampleFormat, k: usize) -> (sample: RawSample)
    requires
        (k + 1) * sample_bytes(format) <= bytes@.len(),
    ensures
        sample == sample_at(bytes@, format, k as int),
{
    let total: usize = bytes.len();
    match format {
        SampleFormat::I8 => RawSample::I8 {
            i: read_i8(bytes, 2 * k),
            q: read_i8(bytes, 2 * k + 1),
        },
        SampleFormat::I16 => RawSample::I16 {
            i: read_i16(bytes, 4 * k),
            q: read_i16(bytes, 4 * k + 2),
        },
        SampleFormat::F32 => RawSample::F32 {
            i_bits: read_u32(bytes, 8 * k),
            q_bits: read_u32(bytes, 8 * k + 4),
        },
    }
}

/// Decodes up to `n` samples from `bytes`, which are the next bytes of a file, at
/// least those of `n` samples unless the file ends before.
pub fn decode_block(bytes: &[u8], format: SampleFormat, n: usize) -> (outcome: RfResult<
    Vec<RawSample>,
>)
    ensures
        reports(outcome, decoded(bytes@, format, n as int)),
{
    let size: usize = format.bytes_per_complex_sample();
    let whole: usize = bytes.len() / size;
    let left: usize = bytes.len() % size;
    if whole < n {
        if left >= size / 2 {
            return Err(RfError::Io(String::from_str("failed to fill whole buffer")));
        }
        if whole == 0 {
            return Err(RfError::EndOfFile);
        }
    }
    let count: usize = if whole < n {
        whole
    } else {
        n
    };
    let mut samples: Vec<RawSample> = Vec::with_capacity(count);
    let mut k: usize = 0;
    while k < count
        invariant
            k <= count <= whole,
            size == sample_bytes(format),
            size * whole <= bytes@.len(),
            samples@.len() == k,
            forall|j: int| 0 <= j < k ==> #[trigger] samples@[j] == sample_at(bytes@, format, j),
        decreases count - k,
    {
        assert((k + 1) * size <= size * whole) by (nonlinear_arith)
            requires
                k + 1 <= whole,
                size >= 0,
        ;
        samples.push(decode_sample(bytes, format, k));
        k = k + 1;
    }
    assert(samples@ =~= samples_in(bytes@, format, count as int));
    Ok(samples)
}

/// What the reader of a file has to do next.
#[derive(Debug, Clone, PartialEq, Eq)]
pub enum FileStep {
    /// Read the next bytes, fewer only if the file ends before.
    Read {
        /// Number of bytes.
        bytes: usize,
    },
    /// Go back to the beginning of the file.
    Rewind,
    /// The block is complete.
    Done,
    /// The block cannot be read.
    Failed(RfError),
}

/// A block that is being read from a file.
#[verifier::ext_equal]
pub struct ReadModel {
    /// Format of the samples.
    pub format: SampleFormat,
    /// Number of samples wanted.
    pub wanted: int,
    /// Whether the file starts over at its end.
    pub looping: bool,
    /// Whether nothing was read since the file started over.
    pub rewound: bool,
    /// Samples read.
    pub samples: Seq<RawSample>,
}

/// What to do next, by its kind.
pub enum StepModel {
    /// Read the next bytes.
    Read(int),
    /// Go back to the beginning.
    Rewind,
    /// The block is complete.
    Done,
    /// No sample is left.
    Ended,
    /// The file ends between the two parts of a sample.
    Torn,
}

/// How a step is reported.
pub open spec fn step_is(step: FileStep, m: StepModel) -> bool {
    match m {
        StepModel::Read(n) => step matches FileStep::Read { bytes } && bytes == n,
        StepModel::Rewind => step is Rewind,
        StepModel::Done => step is Done,
        StepModel::Ended => step matches FileStep::Failed(e) && e is EndOfFile,
        StepModel::Torn => step matches FileStep::Failed(e) && is_torn(e),
    }
}

/// A block of which nothing has been read.
pub open spec fn read_start(format: SampleFormat, wanted: int, looping: bool) -> ReadModel {
    ReadModel { format, wanted, looping, rewound: false, samples: Seq::empty() }
}

/// The next bytes to read, if the block is not complete.
pub open spec fn read_next(m: ReadModel) -> StepModel {
    if m.samples.len() < m.wanted {
        StepModel::Read((m.wanted - m.samples.len()) * sample_bytes(m.format))
    } else {
        StepModel::Done
    }
}

/// What bytes read from the file lead to. At the end of a file that starts over
/// the reading goes on from its beginning, unless there is nothing to read at
/// all; at the end of another the block is cut short.
pub open spec fn read_bytes(m: ReadModel, bytes: Seq<u8>) -> (ReadModel, StepModel) {
    match decoded(bytes, m.format, m.wanted - m.samples.len()) {
        Decoded::Samples(chunk) => {
            let next = ReadModel { samples: m.samples + chunk, rewound: false, ..m };
            (next, read_next(next))
        },
        Decoded::Ended => if m.looping {
            if m.rewound {
                (m, StepModel::Ended)
            } else {
                (ReadModel { rewound: true, ..m }, StepModel::Rewind)
            }
        } else if m.samples.len() == 0 {
            (m, StepModel::Ended)
        } else {
            (m, StepModel::Done)
        },
        Decoded::Torn => (m, StepModel::Torn),
    }
}

/// A block that is being read from a file, step by step.
pub struct BlockRead {
    format: SampleFormat,
    wanted: usize,
    looping: bool,
    rewound: bool,
    samples: Vec<RawSample>,
}

impl BlockRead {
    /// The block so far.
    pub closed spec fn view(&self) -> ReadModel {
        ReadModel {
            format: self.format,
            wanted: self.wanted as int,
            looping: self.looping,
            rewound: self.rewound,
            samples: self.samples@,
        }
    }

    /// The bytes of the block can be counted, and it holds no more samples than
    /// are wanted.
    pub open spec fn wf(&self) -> bool {
        &&& self@.wanted * 8 <= usize::MAX
        &&& self@.samples.len() <= self@.wanted
    }

    /// What to do next.
    pub fn next(&self) -> (step: FileStep)
        requires
            self.wf(),
        ensures
            step_is(step, read_next(self@)),
    {
        if self.samples.len() < self.wanted {
            let missing: usize = self.wanted - self.samples.len();
            let size: usize = self.format.bytes_per_complex_sample();
            assert(missing * size <= self.wanted * 8) by (nonlinear_arith)
                requires
                    missing <= self.wanted,
                    0 <= size <= 8,
            ;
            FileStep::Read { bytes: missing * size }
        } else {
            FileStep::Done
        }
    }

    /// Takes the bytes that were read.
    pub fn on_bytes(&mut self, bytes: &[u8]) -> (step: FileStep)
        requires
            old(self).wf(),
        ensures
            final(self).wf(),
            final(self)@ == read_bytes(old(self)@, bytes@).0,
            step_is(step, read_bytes(old(self)@, bytes@).1),
    {
        let missing: usize = self.wanted - self.samples.len();
        match decode_block(bytes, self.format, missing) {
            Ok(mut chunk) => {
                self.samples.append(&mut chunk);
                self.rewound = false;
                self.next()
            },
            Err(RfError::EndOfFile) => {
                if self.looping {
                    if self.rewound {
                        FileStep::Failed(RfError::EndOfFile)
                    } else {
                        self.rewound = true;
                        FileStep::Rewind
                    }
                } else if self.samples.len() == 0 {
                    FileStep::Failed(RfError::EndOfFile)
                } else {
                    FileStep::Done
                }
            },
            Err(e) => FileStep::Failed(e),
        }
    }
}

/// Where a file of samples stands.
pub struct SourceModel {
    /// Format of the samples.
    pub format: SampleFormat,
    /// Whether the file starts over at its end.
    pub looping: bool,
    /// Number of the next sample.
    pub next_sample: int,
    /// Samples delivered.
    pub delivered: int,
}

/// A file of samples: its format, and the samples delivered.
pub struct FileSource {
    format: SampleFormat,
    looping: bool,
    next_samples: u64,
    delivered: u64,
}

impl FileSource {
    /// Where the file stands.
    pub closed spec fn view(&self) -> SourceModel {
        SourceModel {
            format: self.format,
            looping: self.looping,
            next_sample: self.next_samples as int,
            delivered: self.delivered as int,
        }
    }

    /// A file of samples, from its beginning.
    pub fn new(format: SampleFormat) -> (source: Self)
        ensures
            source@ == (SourceModel { format, looping: false, next_sample: 0, delivered: 0 }),
    {
        FileSource { format, looping: false, next_samples: 0, delivered: 0 }
    }

    /// The same file, which starts over at its end.
    pub fn with_looping(self) -> (source: Self)
        ensures
            source@ == (SourceModel { looping: true, ..self@ }),
    {
        let mut source = self;
        source.looping = true;
        source
    }

    /// Number of whole samples in a file of `bytes` bytes.
    pub fn total_samples(&self, bytes: u64) -> (samples: u64)
        ensures
            samples == bytes as int / sample_bytes(self@.format),
            samples * sample_bytes(self@.format) <= bytes < (samples + 1) * sample_bytes(
                self@.format,
            ),
    {
        bytes / self.format.bytes_per_complex_sample() as u64
    }

    /// Goes to a sample; returns where it begins in the file, in bytes.
    pub fn seek(&mut self, sample_offset: u64) -> (byte_offset: u64)
        requires
            sample_offset * sample_bytes(old(self)@.format) <= u64::MAX,
        ensures
            byte_offset == sample_offset * sample_bytes(old(self)@.format),
            final(self)@ == (SourceModel { next_sample: sample_offset as int, ..old(self)@ }),
    {
        let byte_offset: u64 = match self.format {
            SampleFormat::I8 => sample_offset * 2,
            SampleFormat::I16 => sample_offset * 4,
            SampleFormat::F32 => sample_offset * 8,
        };
        self.next_samples = sample_offset;
        byte_offset
    }

    /// Begins to read a block of `n` samples.
    pub fn begin_block(&self, n: usize) -> (read: BlockRead)
        requires
            n * 8 <= usize::MAX,
        ensures
            read.wf(),
            read@ == read_start(self@.format, n as int, self@.looping),
    {
        BlockRead {
            format: self.format,
            wanted: n,
            looping: self.looping,
            rewound: false,
            samples: Vec::with_capacity(n),
        }
    }

    /// Delivers the block that was read.
    pub fn deliver(&mut self, read: BlockRead) -> (block: IqBlock<RawSample>)
        requires
            old(self)@.next_sample + read@.samples.len() <= u64::MAX,
            old(self)@.delivered + read@.samples.len() <= u64::MAX,
        ensures
            block.samples@ == read@.samples,
            block.start_sample == old(self)@.next_sample,
            final(self)@ == (SourceModel {
                next_sample: old(self)@.next_sample + read@.samples.len(),
                delivered: old(self)@.delivered + read@.samples.len(),
                ..old(self)@
            }),
    {
        let start_sample: u64 = self.next_samples;
        let n: u64 = read.samples.len() as u64;
        self.next_samples = self.next_samples + n;
        self.delivered = self.delivered + n;
        IqBlock { samples: read.samples, start_sample }
    }

    /// Counters of the source; a file neither loses samples nor is interrupted.
    pub fn metrics(&self) -> (m: SourceMetrics)
        ensures
            m.total_samples == self@.delivered,
            m.dropped_samples == 0,
            m.interruptions == 0,
    {
        SourceMetrics { total_samples: self.delivered, dropped_samples: 0, interruptions: 0 }
    }
}

/// The bytes that a read of `n` bytes gives at `pos`.
pub open spec fn bytes_at(file: Seq<u8>, pos: int, n: int) -> Seq<u8> {
    file.subrange(
        pos,
        if pos + n <= file.len() {
            pos + n
        } else {
            file.len() as int
        },
    )
}

/// Reading a block from a file whose next byte is at `pos`, to the end.
pub open spec fn file_read(file: Seq<u8>, pos: int, m: ReadModel) -> (ReadModel, StepModel)
    decreases
            2 * (m.wanted - m.samples.len()) + if m.rewound {
                0int
            } else {
                1int
            },
{
    match read_next(m) {
        StepModel::Read(n) => {
            let bytes = bytes_at(file, pos, n);
            let (next, step) = read_bytes(m, bytes);
            match step {
                StepModel::Read(_) => file_read(file, pos + bytes.len(), next),
                StepModel::Rewind => file_read(file, 0, next),
                _ => (next, step),
            }
        },
        step => (m, step),
    }
}

/// One read of `missing` samples from sample `q` of a file of whole samples.
proof fn lemma_one_read(file: Seq<u8>, format: SampleFormat, q: int, missing: int)
    requires
        file.len() as int % sample_bytes(format) == 0,
        0 <= q <= file.len() as int / sample_bytes(format),
        missing > 0,
    ensures
        ({
            let size = sample_bytes(format);
            let total = file.len() as int / size;
            let count = if missing <= total - q {
                missing
            } else {
                total - q
            };
            let bytes = bytes_at(file, q * size, missing * size);
            &&& q * size + bytes.len() == (q + count) * size
            &&& decoded(bytes, format, missing) == if count == 0 {
                Decoded::Ended
            } else {
                Decoded::Samples(Seq::new(count as nat, |k: int| sample_at(file, format, q + k)))
            }
        }),
{
    let size = sample_bytes(format);
    let total = file.len() as int / size;
    let count = if missing <= total - q {
        missing
    } else {
        total - q
    };
    let bytes = bytes_at(file, q * size, missing * size);
    match format {
        SampleFormat::I8 => {
            assert(bytes.len() == 2 * count);
        },
        SampleFormat::I16 => {
            assert(bytes.len() == 4 * count);
        },
        SampleFormat::F32 => {
            assert(bytes.len() == 8 * count);
        },
    }
    if count > 0 {
        assert forall|k: int| 0 <= k < count implies #[trigger] sample_at(bytes, format, k)
            == sample_at(file, format, q + k) by {
            match format {
                SampleFormat::I8 => {},
                SampleFormat::I16 => {},
                SampleFormat::F32 => {},
            }
        }
        assert(samples_in(bytes, format, count) =~= Seq::new(
            count as nat,
            |k: int| sample_at(file, format, q + k),
        ));
    }
}

/// Whether the samples read are those of a file from sample `first` on, over and
/// over, and the next one to read is sample `q`.
spec fn on_track(file: Seq<u8>, m: ReadModel, first: int, q: int) -> bool {
    let total = file.len() as int / sample_bytes(m.format);
    &&& 0 <= q <= total
    &&& m.samples.len() <= m.wanted
    &&& m.rewound ==> q == 0
    &&& (first + m.samples.len()) % total == q % total
    &&& !m.looping ==> q == first + m.samples.len()
    &&& forall|j: int|
        0 <= j < m.samples.len() ==> #[trigger] m.samples[j] == sample_at(
            file,
            m.format,
            (first + j) % total,
        )
}

/// Samples `q` to `q + count` of a file carry the reading on.
proof fn lemma_stays_on_track(file: Seq<u8>, m: ReadModel, first: int, q: int, count: int)
    requires
        on_track(file, m, first, q),
        file.len() as int / sample_bytes(m.format) > 0,
        0 < count <= m.wanted - m.samples.len(),
        q + count <= file.len() as int / sample_bytes(m.format),
    ensures
        ({
            let chunk = Seq::new(count as nat, |k: int| sample_at(file, m.format, q + k));
            on_track(
                file,
                ReadModel { samples: m.samples + chunk, rewound: false, ..m },
                first,
                q + count,
            )
        }),
{
    let total = file.len() as int / sample_bytes(m.format);
    let have = m.samples.len() as int;
    let chunk = Seq::new(count as nat, |k: int| sample_at(file, m.format, q + k));
    let next = ReadModel { samples: m.samples + chunk, rewound: false, ..m };
    vstd::arithmetic::div_mod::lemma_add_mod_noop(first + have, count, total);
    vstd::arithmetic::div_mod::lemma_add_mod_noop(q, count, total);
    assert forall|j: int| 0 <= j < next.samples.len() implies #[trigger] next.samples[j]
        == sample_at(file, m.format, (first + j) % total) by {
        if j < have {
            assert(next.samples[j] == m.samples[j]);
        } else {
            let k = j - have;
            assert(next.samples[j] == chunk[k]);
            vstd::arithmetic::div_mod::lemma_add_mod_noop(first + have, k, total);
            vstd::arithmetic::div_mod::lemma_add_mod_noop(q, k, total);
            vstd::arithmetic::div_mod::lemma_small_mod((q + k) as nat, total as nat);
            assert(first + have + k == first + j);
        }
    }
}

/// Reading on from a sample `q` of a file of whole samples.
proof fn lemma_file_read(file: Seq<u8>, q: int, m: ReadModel, first: int)
    requires
        file.len() as int % sample_bytes(m.format) == 0,
        file.len() as int / sample_bytes(m.format) > 0,
        0 <= first <= file.len() as int / sample_bytes(m.format),
        on_track(file, m, first, q),
    ensures
        ({
            let size = sample_bytes(m.format);
            let total = file.len() as int / size;
            let (after, step) = file_read(file, q * size, m);
            let n = if m.looping || m.wanted <= total - first {
                m.wanted
            } else {
                total - first
            };
            &&& step == if n > 0 || m.wanted == 0 {
                StepModel::Done
            } else {
                StepModel::Ended
            }
            &&& after.samples.len() == n
            &&& forall|j: int|
                0 <= j < n ==> #[trigger] after.samples[j] == sample_at(
                    file,
                    m.format,
                    (first + j) % total,
                )
        }),
    decreases
            2 * (m.wanted - m.samples.len()) + if m.rewound {
                0int
            } else {
                1int
            },
{
    let size = sample_bytes(m.format);
    let total = file.len() as int / size;
    let have = m.samples.len() as int;
    if have < m.wanted {
        let missing = m.wanted - have;
        let count = if missing <= total - q {
            missing
        } else {
            total - q
        };
        lemma_one_read(file, m.format, q, missing);
        let (next, step) = read_bytes(m, bytes_at(file, q * size, missing * size));
        if count > 0 {
            lemma_stays_on_track(file, m, first, q, count);
            lemma_file_read(file, q + count, next, first);
        } else {
            vstd::arithmetic::div_mod::lemma_mod_self_0(total);
            vstd::arithmetic::div_mod::lemma_small_mod(0, total as nat);
            if m.looping {
                assert(next.samples == m.samples);
                assert(0 * size == 0);
                lemma_file_read(file, 0, next, first);
            }
        }
    }
}

/// What a read gives back of a file of whole samples: the next samples in order,
/// as many as are wanted or left.
pub proof fn law_file_is_read_in_order(file: Seq<u8>, format: SampleFormat, first: int, n: int)
    requires
        file.len() as int % sample_bytes(format) == 0,
        0 <= first <= file.len() as int / sample_bytes(format),
        n >= 0,
    ensures
        ({
            let size = sample_bytes(format);
            let total = file.len() as int / size;
            let count = if n <= total - first {
                n
            } else {
                total - first
            };
            let (after, step) = file_read(file, first * size, read_start(format, n, false));
            &&& count > 0 || n == 0 ==> step is Done && after.samples == Seq::new(
                count as nat,
                |j: int| sample_at(file, format, first + j),
            )
            &&& count == 0 && n > 0 ==> step is Ended
        }),
{
    let size = sample_bytes(format);
    let total = file.len() as int / size;
    let m = read_start(format, n, false);
    if total > 0 {
        lemma_file_read(file, first, m, first);
        let (after, step) = file_read(file, first * size, m);
        let count = if n <= total - first {
            n
        } else {
            total - first
        };
        assert forall|j: int| 0 <= j < count implies #[trigger] after.samples[j] == sample_at(
            file,
            format,
            first + j,
        ) by {
            vstd::arithmetic::div_mod::lemma_small_mod((first + j) as nat, total as nat);
        }
        assert(after.samples =~= Seq::new(
            count as nat,
            |j: int| sample_at(file, format, first + j),
        ));
    } else {
        vstd::arithmetic::div_mod::lemma_fundamental_div_mod(file.len() as int, size);
        vstd::arithmetic::mul::lemma_mul_by_zero_is_zero(size);
        assert(total == 0);
        assert(file.len() == 0);
        assert(first * size == 0) by (nonlinear_arith)
            requires
                first == 0,
        ;
        if n == 0 {
            assert(file_read(file, 0, m).0.samples =~= Seq::new(
                0,
                |j: int| sample_at(file, format, first + j),
            ));
        } else {
            let bytes = bytes_at(file, 0, n * size);
            assert(n * size > 0) by (nonlinear_arith)
                requires
                    n > 0,
                    size > 0,
            ;
            assert(bytes.len() == 0);
        }
    }
}

/// A file that starts over never ends: the samples of a block are those of the
/// file from where it stands on, over and over, as many as are wanted.
pub proof fn law_looping_file_never_ends(file: Seq<u8>, format: SampleFormat, first: int, n: int)
    requires
        file.len() as int % sample_bytes(format) == 0,
        file.len() > 0,
        0 <= first <= file.len() as int / sample_bytes(format),
        n >= 0,
    ensures
        ({
            let size = sample_bytes(format);
            let total = file.len() as int / size;
            let (after, step) = file_read(file, first * size, read_start(format, n, true));
            &&& step is Done
            &&& after.samples == Seq::new(
                n as nat,
                |j: int| sample_at(file, format, (first + j) % total),
            )
        }),
{
    let size = sample_bytes(format);
    let total = file.len() as int / size;
    let m = read_start(format, n, true);
    vstd::arithmetic::div_mod::lemma_fundamental_div_mod(file.len() as int, size);
    vstd::arithmetic::div_mod::lemma_div_pos_is_pos(file.len() as int, size);
    if total == 0 {
        vstd::arithmetic::mul::lemma_mul_by_zero_is_zero(size);
    }
    assert(total > 0);
    lemma_file_read(file, first, m, first);
    let (after, step) = file_read(file, first * size, m);
    assert(after.samples =~= Seq::new(
        n as nat,
        |j: int| sample_at(file, format, (first + j) % total),
    ));
}

/// Bytes behind the last whole sample do no harm unless they hold a whole in-phase
/// part: a read that does not get to them, or meets less than half a sample, gives
/// what it would give without them, and only a read that meets more is torn.
pub proof fn law_tail_counts_from_half_a_sample(
    whole: Seq<u8>,
    tail: Seq<u8>,
    format: SampleFormat,
    count: int,
    n: int,
)
    requires
        0 <= count,
        0 <= n,
        whole.len() == count * sample_bytes(format),
        tail.len() < sample_bytes(format),
    ensures
        count >= n || 2 * tail.len() < sample_bytes(format) ==> decoded(whole + tail, format, n)
            == decoded(whole, format, n),
        count < n && 2 * tail.len() >= sample_bytes(format) ==> decoded(whole + tail, format, n)
            is Torn,
        count >= n ==> decoded(whole, format, n) == Decoded::Samples(samples_in(whole, format, n)),
        0 < count < n ==> decoded(whole, format, n) == Decoded::Samples(
            samples_in(whole, format, count),
        ),
        count == 0 && n > 0 ==> decoded(whole, format, n) is Ended,
{
    let size = sample_bytes(format);
    let all = whole + tail;
    vstd::arithmetic::div_mod::lemma_fundamental_div_mod_converse(
        all.len() as int,
        size,
        count,
        tail.len() as int,
    );
    vstd::arithmetic::div_mod::lemma_fundamental_div_mod_converse(
        whole.len() as int,
        size,
        count,
        0,
    );
    assert forall|k: int| 0 <= k < count implies #[trigger] sample_at(all, format, k) == sample_at(
        whole,
        format,
        k,
    ) by {
        match format {
            SampleFormat::I8 => {},
            SampleFormat::I16 => {},
            SampleFormat::F32 => {},
        }
    }
    if count >= n {
        assert(samples_in(all, format, n) =~= samples_in(whole, format, n));
    } else {
        assert(samples_in(all, format, count) =~= samples_in(whole, format, count));
    }
}

/// Samples stand one behind the other: sample `k` is the first of what is left
/// without those before it, the in-phase part stands before the quadrature part, and
/// each byte of a part of 8 bits is read as the number that it is up to a multiple of
/// 256.
pub proof fn law_samples_stand_one_behind_the_other(bytes: Seq<u8>, format: SampleFormat, k: int)
    requires
        0 <= k,
        (k + 1) * sample_bytes(format) <= bytes.len(),
    ensures
        sample_at(bytes, format, k) == sample_at(bytes.skip(k * sample_bytes(format)), format, 0),
        sample_at(bytes, format, k) matches RawSample::I8 { i, q } ==> format == SampleFormat::I8
            && (bytes[2 * k] - i) % 256 == 0 && (bytes[2 * k + 1] - q) % 256 == 0,
        sample_at(bytes, format, k) matches RawSample::I16 { i, q } ==> format == SampleFormat::I16
            && (bytes[4 * k] + 256 * bytes[4 * k + 1] - i) % 65536 == 0 && (bytes[4 * k + 2] + 256
            * bytes[4 * k + 3] - q) % 65536 == 0,
        sample_at(bytes, format, k) matches RawSample::F32 { i_bits, q_bits } ==> format
            == SampleFormat::F32 && i_bits == u32_at(bytes, 8 * k) && q_bits == u32_at(
            bytes,
            8 * k + 4,
        ),
{
    let rest = bytes.skip(k * sample_bytes(format));
    match format {
        SampleFormat::I8 => {
            assert(rest[0] == bytes[2 * k] && rest[1] == bytes[2 * k + 1]);
        },
        SampleFormat::I16 => {
            assert(rest[0] == bytes[4 * k] && rest[1] == bytes[4 * k + 1]);
            assert(rest[2] == bytes[4 * k + 2] && rest[3] == bytes[4 * k + 3]);
        },
        SampleFormat::F32 => {
            assert(rest[0] == bytes[8 * k] && rest[1] == bytes[8 * k + 1]);
            assert(rest[2] == bytes[8 * k + 2] && rest[3] == bytes[8 * k + 3]);
            assert(rest[4] == bytes[8 * k + 4] && rest[5] == bytes[8 * k + 5]);
            assert(rest[6] == bytes[8 * k + 6] && rest[7] == bytes[8 * k + 7]);
        },
    }
}

/// An empty file ends, also one that starts over: it is not read for ever.
pub proof fn law_empty_file_ends(format: SampleFormat, n: int, looping: bool)
    requires
        n > 0,
    ensures
        file_read(Seq::empty(), 0, read_start(format, n, looping)).1 is Ended,
        file_read(Seq::empty(), 0, read_start(format, n, looping)).0.samples.len() == 0,
{
    let file = Seq::<u8>::empty();
    let m = read_start(format, n, looping);
    let size = sample_bytes(format);
    assert(n * size > 0) by (nonlinear_arith)
        requires
            n > 0,
            size > 0,
    ;
    assert(bytes_at(file, 0, n * size) =~= file);
    if looping {
        let next = read_bytes(m, file).0;
        assert(next.rewound && next.samples.len() == 0);
        assert(read_next(next) == StepModel::Read(n * size));
        assert(file_read(file, 0, next).1 is Ended);
    }
}

} // verus!
