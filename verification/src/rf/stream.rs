//! Ring buffer of slots of IQ samples, between a producer and a consumer.
//!
//! The buffer decides what happens to each write and each read; the caller
//! supplies the clock and does any waiting.

use crate::rf::error::RfError;
use vstd::prelude::*;
use vstd::string::StringExecFns;

verus! {

/// What happens to a write when the buffer is full.
#[derive(Debug, Clone, Copy, PartialEq, Eq, Structural)]
pub enum OverflowPolicy {
    /// The oldest slot is dropped.
    DropOldest,
    /// The write is refused.
    ErrorOnOverflow,
    /// The producer has to wait for a free slot.
    BlockProducer,
}

/// What became of a write that was not refused.
#[derive(Debug, Clone, Copy, PartialEq, Eq, Structural)]
pub enum WriteStatus {
    /// The samples are stored.
    Stored,
    /// The buffer is full and the producer has to wait.
    MustWait,
}

/// Samples written together.
#[derive(Debug)]
pub struct Slot<T> {
    /// The samples.
    pub samples: Vec<T>,
    /// Number of the first sample in the stream.
    pub start_sample: u64,
    /// Time of the write, in nanoseconds of the caller's clock.
    pub written_at_ns: u64,
}

/// Samples read together.
#[derive(Debug)]
pub struct IqBlock<T> {
    /// The samples.
    pub samples: Vec<T>,
    /// Number of the first sample in the stream.
    pub start_sample: u64,
}

/// Counters of a source of samples.
#[derive(Debug, Clone, Copy, PartialEq, Eq, Structural)]
pub struct SourceMetrics {
    /// Samples delivered.
    pub total_samples: u64,
    /// Samples lost.
    pub dropped_samples: u64,
    /// Interruptions of the stream.
    pub interruptions: u64,
}

impl SourceMetrics {
    /// Counters of a source that has delivered nothing.
    pub fn new() -> (m: Self)
        ensures
            m.total_samples == 0,
            m.dropped_samples == 0,
            m.interruptions == 0,
    {
        SourceMetrics { total_samples: 0, dropped_samples: 0, interruptions: 0 }
    }

    /// The fraction of samples lost, as numerator and denominator; zero of one
    /// when nothing was delivered.
    pub fn loss_ratio(&self) -> (ratio: (u64, u128))
        ensures
            ratio.1 > 0,
            ratio.0 <= ratio.1,
            self.total_samples == 0 ==> ratio == (0u64, 1u128),
            self.total_samples > 0 ==> ratio.0 == self.dropped_samples && ratio.1
                == self.total_samples + self.dropped_samples,
    {
        if self.total_samples == 0 {
            (0, 1)
        } else {
            (
                self.dropped_samples,
                self.total_samples as u128 + self.dropped_samples as u128,
            )
        }
    }
}

/// A slot, with its samples as a sequence.
pub struct SlotModel<T> {
    /// The samples.
    pub samples: Seq<T>,
    /// Number of the first sample in the stream.
    pub start_sample: u64,
    /// Time of the write.
    pub written_at_ns: u64,
}

impl<T> Slot<T> {
    /// The slot, with its samples as a sequence.
    pub open spec fn view(&self) -> SlotModel<T> {
        SlotModel {
            samples: self.samples@,
            start_sample: self.start_sample,
            written_at_ns: self.written_at_ns,
        }
    }
}

/// Time beyond the length of a slot from which on a gap counts as an
/// interruption, in nanoseconds.
pub const GAP_THRESHOLD_NS: u64 = 5_000_000;

/// What a ring buffer holds.
#[verifier::ext_equal]
pub struct StreamModel<T> {
    /// The slots, oldest first.
    pub queue: Seq<SlotModel<T>>,
    /// Largest number of slots.
    pub capacity: int,
    /// What happens to a write when the buffer is full.
    pub policy: OverflowPolicy,
    /// Length of a full slot in nanoseconds.
    pub slot_ns: int,
    /// Samples written, modulo 2^64.
    pub written: u64,
    /// Samples read, modulo 2^64.
    pub read: u64,
    /// Samples dropped, modulo 2^64.
    pub dropped: u64,
    /// Interruptions, modulo 2^64.
    pub interruptions: u64,
    /// Time of the write of the last slot read.
    pub last_ns: Option<u64>,
}

/// Sum of two counters that wrap around.
pub open spec fn wrapping_sum(a: u64, b: int) -> u64 {
    ((a + b) % 0x1_0000_0000_0000_0000) as u64
}

/// An empty buffer.
pub open spec fn stream_start<T>(
    capacity: int,
    policy: OverflowPolicy,
    slot_ns: int,
) -> StreamModel<T> {
    StreamModel {
        queue: Seq::empty(),
        capacity,
        policy,
        slot_ns,
        written: 0,
        read: 0,
        dropped: 0,
        interruptions: 0,
        last_ns: None,
    }
}

/// A write: the buffer afterwards and what becomes of the samples.
pub open spec fn stream_write<T>(m: StreamModel<T>, slot: SlotModel<T>) -> (
    StreamModel<T>,
    Result<WriteStatus, RfError>,
) {
    let n = slot.samples.len() as int;
    let written = wrapping_sum(m.written, n);
    if m.queue.len() < m.capacity {
        (StreamModel { queue: m.queue.push(slot), written, ..m }, Ok(WriteStatus::Stored))
    } else {
        match m.policy {
            OverflowPolicy::DropOldest => (
                StreamModel {
                    queue: m.queue.skip(1).push(slot),
                    written,
                    dropped: wrapping_sum(m.dropped, m.queue[0].samples.len() as int),
                    ..m
                },
                Ok(WriteStatus::Stored),
            ),
            OverflowPolicy::ErrorOnOverflow => (
                StreamModel { dropped: wrapping_sum(m.dropped, n), ..m },
                Err(RfError::BufferOverflow { dropped: n as usize }),
            ),
            OverflowPolicy::BlockProducer => (m, Ok(WriteStatus::MustWait)),
        }
    }
}

/// Time by which a slot was written too late after the last one read, when it
/// counts as an interruption.
pub open spec fn interruption_before<T>(m: StreamModel<T>, slot: SlotModel<T>) -> Option<u64> {
    match m.last_ns {
        Some(last) if slot.written_at_ns > last && slot.written_at_ns - last > m.slot_ns
            + GAP_THRESHOLD_NS => Some((slot.written_at_ns - last) as u64),
        _ => None,
    }
}

/// The buffer after an interruption before its oldest slot was reported: the slot
/// stays and is the next to be read.
pub open spec fn stream_interrupted<T>(m: StreamModel<T>) -> StreamModel<T> {
    StreamModel {
        interruptions: wrapping_sum(m.interruptions, 1),
        last_ns: Some(m.queue[0].written_at_ns),
        ..m
    }
}

/// The buffer after its oldest slot was read.
pub open spec fn stream_take<T>(m: StreamModel<T>) -> StreamModel<T> {
    let slot = m.queue[0];
    StreamModel {
        queue: m.queue.skip(1),
        read: wrapping_sum(m.read, slot.samples.len() as int),
        last_ns: Some(slot.written_at_ns),
        ..m
    }
}

/// A block under assembly.
#[verifier::ext_equal]
pub struct AssemblyModel<T> {
    /// Number of samples wanted.
    pub wanted: int,
    /// Samples so far.
    pub samples: Seq<T>,
    /// Number of the first sample in the stream.
    pub start_sample: u64,
}

/// A block of which nothing has been read.
pub open spec fn assembly_start<T>(wanted: int) -> AssemblyModel<T> {
    AssemblyModel { wanted, samples: Seq::empty(), start_sample: 0 }
}

/// A block after one more slot, of which it takes no more than it needs.
pub open spec fn assembly_accept<T>(a: AssemblyModel<T>, slot: SlotModel<T>) -> AssemblyModel<T> {
    let all = a.samples + slot.samples;
    AssemblyModel {
        samples: if all.len() <= a.wanted {
            all
        } else {
            all.take(a.wanted)
        },
        start_sample: if a.samples.len() == 0 {
            slot.start_sample
        } else {
            a.start_sample
        },
        ..a
    }
}

/// How a read of a block ended.
pub enum ReadEnd {
    /// The block is complete.
    Complete,
    /// The buffer is empty.
    Empty,
    /// The stream was interrupted for a time in nanoseconds.
    Interrupted(u64),
}

/// Reading slots until a block is complete, the buffer is empty or the stream was
/// interrupted.
pub open spec fn stream_read<T>(m: StreamModel<T>, a: AssemblyModel<T>) -> (
    StreamModel<T>,
    AssemblyModel<T>,
    ReadEnd,
)
    decreases m.queue.len(),
{
    if a.samples.len() >= a.wanted {
        (m, a, ReadEnd::Complete)
    } else if m.queue.len() == 0 {
        (m, a, ReadEnd::Empty)
    } else {
        match interruption_before(m, m.queue[0]) {
            Some(gap_ns) => (stream_interrupted(m), a, ReadEnd::Interrupted(gap_ns)),
            None => stream_read(stream_take(m), assembly_accept(a, m.queue[0])),
        }
    }
}

/// A block that is put together from slots.
pub struct BlockAssembly<T> {
    wanted: usize,
    samples: Vec<T>,
    start_sample: u64,
}

impl<T: Copy> BlockAssembly<T> {
    /// The block so far.
    pub closed spec fn view(&self) -> AssemblyModel<T> {
        AssemblyModel {
            wanted: self.wanted as int,
            samples: self.samples@,
            start_sample: self.start_sample,
        }
    }

    /// A block of `wanted` samples, none of which has been read.
    pub fn new(wanted: usize) -> (a: Self)
        ensures
            a@ == assembly_start::<T>(wanted as int),
    {
        BlockAssembly { wanted, samples: Vec::with_capacity(wanted), start_sample: 0 }
    }

    /// Whether no more samples are needed.
    pub fn is_complete(&self) -> (complete: bool)
        ensures
            complete <==> self@.samples.len() >= self@.wanted,
    {
        self.samples.len() >= self.wanted
    }

    /// Takes from a slot the samples that are still needed.
    pub fn accept(&mut self, slot: Slot<T>)
        requires
            old(self)@.samples.len() <= old(self)@.wanted,
        ensures
            final(self)@ == assembly_accept(old(self)@, slot@),
            final(self)@.samples.len() <= final(self)@.wanted,
    {
        if self.samples.len() == 0 {
            self.start_sample = slot.start_sample;
        }
        let needed: usize = self.wanted - self.samples.len();
        let taken: usize = if slot.samples.len() <= needed {
            slot.samples.len()
        } else {
            needed
        };
        let ghost start = self@;
        let mut i: usize = 0;
        while i < taken
            invariant
                i <= taken <= slot.samples@.len(),
                self.samples@ == old(self)@.samples + slot.samples@.take(i as int),
                self.wanted == start.wanted,
                self.start_sample == start.start_sample,
            decreases taken - i,
        {
            self.samples.push(slot.samples[i]);
            assert(slot.samples@.take(i + 1) =~= slot.samples@.take(i as int).push(
                slot.samples@[i as int],
            ));
            i = i + 1;
        }
        assert(self.samples@ =~= assembly_accept(old(self)@, slot@).samples);
    }

    /// The block.
    pub fn into_block(self) -> (block: IqBlock<T>)
        ensures
            block.samples@ == self@.samples,
            block.start_sample == self@.start_sample,
    {
        IqBlock { samples: self.samples, start_sample: self.start_sample }
    }
}

/// Index of a slot that lies `i` places behind the slot `tail` on a ring.
spec fn ring_index(tail: int, i: int, capacity: int) -> int {
    if tail + i < capacity {
        tail + i
    } else {
        tail + i - capacity
    }
}

/// A bounded first-in first-out buffer of slots.
pub struct SharedBuffer<T> {
    slots: Vec<Option<Slot<T>>>,
    head: usize,
    tail: usize,
    count: usize,
    slot_size: usize,
    slot_ns: u64,
    total_written: u64,
    total_read: u64,
    dropped: u64,
    interruptions: u64,
    last_read_at_ns: Option<u64>,
    policy: OverflowPolicy,
}

/// Longest time that a producer waits for a free slot, in nanoseconds.
pub const WRITE_TIMEOUT_NS: u64 = 5_000_000_000;

/// Longest time that a consumer waits for a slot, in nanoseconds.
pub const READ_TIMEOUT_NS: u64 = 2_000_000_000;

/// The error of a read that has waited in vain.
fn read_timeout() -> (e: RfError)
    ensures
        e matches RfError::Io(text) && text@ == "IqStream: timeout waiting for data"@,
{
    RfError::Io(String::from_str("IqStream: timeout waiting for data"))
}

/// What a producer that has waited `waited_ns` to write `count` samples into a
/// full buffer does: it gives up with an error after five seconds, and waits on
/// before.
pub fn after_write_wait(waited_ns: u64, count: usize) -> (outcome: Result<(), RfError>)
    ensures
        outcome is Ok <==> waited_ns <= 5_000_000_000,
        outcome matches Err(e) ==> e == (RfError::BufferOverflow { dropped: count }),
{
    if waited_ns > WRITE_TIMEOUT_NS {
        Err(RfError::BufferOverflow { dropped: count })
    } else {
        Ok(())
    }
}

/// What a consumer that has waited `waited_ns` for a slot does: it gives up with
/// an error after two seconds, and waits on before.
pub fn after_read_wait(waited_ns: u64) -> (outcome: Result<(), RfError>)
    ensures
        outcome is Ok <==> waited_ns <= 2_000_000_000,
        outcome matches Err(e) ==> (e matches RfError::Io(text) && text@
            == "IqStream: timeout waiting for data"@),
{
    if waited_ns > READ_TIMEOUT_NS {
        Err(read_timeout())
    } else {
        Ok(())
    }
}

/// Maker of ring buffers.
pub struct IqStream;

impl IqStream {
    /// An empty ring buffer of `capacity` slots of `slot_size` samples, whose
    /// samples last `slot_ns` nanoseconds.
    pub fn create<T: Copy>(
        capacity: usize,
        slot_size: usize,
        policy: OverflowPolicy,
        slot_ns: u64,
    ) -> (buffer: SharedBuffer<T>)
        requires
            capacity >= 2,
            slot_size > 0,
        ensures
            buffer.wf(),
            buffer@ == stream_start::<T>(capacity as int, policy, slot_ns as int),
            buffer.slot_size() == slot_size,
    {
        let mut slots: Vec<Option<Slot<T>>> = Vec::with_capacity(capacity);
        let mut i: usize = 0;
        while i < capacity
            invariant
                i <= capacity,
                slots@.len() == i,
                forall|j: int| 0 <= j < i ==> #[trigger] slots@[j] is None,
            decreases capacity - i,
        {
            slots.push(None);
            i = i + 1;
        }
        let buffer = SharedBuffer {
            slots,
            head: 0,
            tail: 0,
            count: 0,
            slot_size,
            slot_ns,
            total_written: 0,
            total_read: 0,
            dropped: 0,
            interruptions: 0,
            last_read_at_ns: None,
            policy,
        };
        assert(buffer@.queue =~= Seq::empty());
        buffer
    }
}

impl<T: Copy> SharedBuffer<T> {
    /// What the buffer holds.
    pub closed spec fn view(&self) -> StreamModel<T> {
        StreamModel {
            queue: Seq::new(
                self.count as nat,
                |i: int|
                    self.slots@[ring_index(
                        self.tail as int,
                        i,
                        self.slots@.len() as int,
                    )]->0@,
            ),
            capacity: self.slots@.len() as int,
            policy: self.policy,
            slot_ns: self.slot_ns as int,
            written: self.total_written,
            read: self.total_read,
            dropped: self.dropped,
            interruptions: self.interruptions,
            last_ns: self.last_read_at_ns,
        }
    }

    /// Samples of a full slot.
    pub closed spec fn slot_size(&self) -> int {
        self.slot_size as int
    }

    /// The filled slots are those from the tail on, and the head lies behind
    /// the last of them.
    pub closed spec fn wf(&self) -> bool {
        let n = self.slots@.len() as int;
        &&& 2 <= n <= usize::MAX
        &&& self.head < n
        &&& self.tail < n
        &&& self.count <= n
        &&& self.head == if self.count == n {
            self.tail as int
        } else {
            ring_index(self.tail as int, self.count as int, n)
        }
        &&& forall|i: int|
            0 <= i < self.count ==> (#[trigger] self.slots@[ring_index(
                self.tail as int,
                i,
                n,
            )]) is Some
    }

    /// The slot behind `i` on the ring.
    fn next_index(&self, i: usize) -> (j: usize)
        requires
            i < self.slots@.len(),
        ensures
            j == ring_index(i as int, 1, self.slots@.len() as int),
    {
        let n: usize = self.slots.len();
        if i < n - 1 {
            i + 1
        } else {
            0
        }
    }

    /// Number of filled slots.
    pub fn used_slots(&self) -> (n: usize)
        ensures
            n == self@.queue.len(),
    {
        self.count
    }

    /// Whether every slot is filled.
    pub fn is_full(&self) -> (full: bool)
        ensures
            full <==> self@.queue.len() >= self@.capacity,
    {
        self.count >= self.slots.len()
    }

    /// Whether no slot is filled.
    pub fn is_empty(&self) -> (empty: bool)
        ensures
            empty <==> self@.queue.len() == 0,
    {
        self.count == 0
    }

    /// Samples dropped because the buffer was full.
    pub fn dropped_samples(&self) -> (n: u64)
        ensures
            n == self@.dropped,
    {
        self.dropped
    }

    /// Removes the oldest slot.
    fn pop_slot(&mut self) -> (slot: Slot<T>)
        requires
            old(self).wf(),
            old(self)@.queue.len() > 0,
        ensures
            final(self).wf(),
            slot@ == old(self)@.queue[0],
            final(self)@ == (StreamModel { queue: old(self)@.queue.skip(1), ..old(self)@ }),
            final(self).slot_size() == old(self).slot_size(),
    {
        let ghost before = self@;
        let t: usize = self.tail;
        assert(ring_index(t as int, 0, self.slots@.len() as int) == t);
        assert(self.slots@[t as int] is Some);
        let taken = self.slots[t].take();
        self.tail = self.next_index(t);
        self.count = self.count - 1;
        proof {
            let n = self.slots@.len() as int;
            assert forall|i: int| 0 <= i < self.count implies (#[trigger] self.slots@[ring_index(
                self.tail as int,
                i,
                n,
            )]) is Some && self.slots@[ring_index(self.tail as int, i, n)]->0@
                == before.queue[i + 1] by {
                assert(ring_index(self.tail as int, i, n) == ring_index(t as int, i + 1, n));
                assert(old(self).slots@[ring_index(t as int, i + 1, n)] is Some);
            }
            assert(self@.queue =~= before.queue.skip(1));
        }
        taken.unwrap()
    }

    /// Adds a slot behind the newest.
    fn push_slot(&mut self, slot: Slot<T>)
        requires
            old(self).wf(),
            old(self)@.queue.len() < old(self)@.capacity,
        ensures
            final(self).wf(),
            final(self)@ == (StreamModel { queue: old(self)@.queue.push(slot@), ..old(self)@ }),
            final(self).slot_size() == old(self).slot_size(),
    {
        let ghost before = self@;
        let ghost added = slot@;
        let h: usize = self.head;
        self.slots[h] = Some(slot);
        self.head = self.next_index(h);
        self.count = self.count + 1;
        proof {
            let n = self.slots@.len() as int;
            assert forall|i: int| 0 <= i < self.count implies (#[trigger] self.slots@[ring_index(
                self.tail as int,
                i,
                n,
            )]) is Some && self.slots@[ring_index(self.tail as int, i, n)]->0@
                == before.queue.push(added)[i] by {
                if i < self.count - 1 {
                    assert(old(self).slots@[ring_index(self.tail as int, i, n)] is Some);
                    assert(ring_index(self.tail as int, i, n) != h);
                } else {
                    assert(ring_index(self.tail as int, i, n) == h);
                }
            }
            assert(self@.queue =~= before.queue.push(added));
        }
    }

    /// Writes samples, the first of which has the number `start_sample`, at time
    /// `now_ns`.
    pub fn write(&mut self, samples: &[T], start_sample: u64, now_ns: u64) -> (outcome: Result<
        WriteStatus,
        RfError,
    >)
        requires
            old(self).wf(),
        ensures
            final(self).wf(),
            (final(self)@, outcome) == stream_write(
                old(self)@,
                SlotModel { samples: samples@, start_sample, written_at_ns: now_ns },
            ),
            final(self).slot_size() == old(self).slot_size(),
    {
        if self.is_full() {
            match self.policy {
                OverflowPolicy::DropOldest => {
                    let evicted = self.pop_slot();
                    self.dropped = self.dropped.wrapping_add(evicted.samples.len() as u64);
                },
                OverflowPolicy::ErrorOnOverflow => {
                    let refused: usize = samples.len();
                    self.dropped = self.dropped.wrapping_add(refused as u64);
                    return Err(RfError::BufferOverflow { dropped: refused });
                },
                OverflowPolicy::BlockProducer => {
                    return Ok(WriteStatus::MustWait);
                },
            }
        }
        let mut copy: Vec<T> = Vec::with_capacity(samples.len());
        let mut i: usize = 0;
        while i < samples.len()
            invariant
                i <= samples@.len(),
                copy@ == samples@.take(i as int),
            decreases samples@.len() - i,
        {
            copy.push(samples[i]);
            assert(samples@.take(i + 1) =~= samples@.take(i as int).push(samples@[i as int]));
            i = i + 1;
        }
        assert(copy@ =~= samples@);
        self.push_slot(Slot { samples: copy, start_sample, written_at_ns: now_ns });
        self.total_written = self.total_written.wrapping_add(samples.len() as u64);
        Ok(WriteStatus::Stored)
    }

    /// Reads the oldest slot, if there is one. An interruption of the stream
    /// before it is reported once, instead of the slot, which the next call gives.
    pub fn take_slot(&mut self) -> (taken: Result<Option<Slot<T>>, RfError>)
        requires
            old(self).wf(),
        ensures
            final(self).wf(),
            final(self).slot_size() == old(self).slot_size(),
            taken == Ok::<Option<Slot<T>>, RfError>(None) <==> old(self)@.queue.len() == 0,
            taken is Err <==> old(self)@.queue.len() > 0 && interruption_before(
                old(self)@,
                old(self)@.queue[0],
            ) is Some,
            match taken {
                Ok(None) => final(self)@ == old(self)@,
                Ok(Some(slot)) => slot@ == old(self)@.queue[0] && final(self)@ == stream_take(
                    old(self)@,
                ),
                Err(e) => e == (RfError::StreamInterrupted {
                    gap_ns: interruption_before(old(self)@, old(self)@.queue[0])->0,
                }) && final(self)@ == stream_interrupted(old(self)@),
            },
    {
        if self.is_empty() {
            return Ok(None);
        }
        let t: usize = self.tail;
        assert(ring_index(t as int, 0, self.slots@.len() as int) == t);
        assert(self.slots@[t as int] is Some);
        let written_at_ns: u64 = match &self.slots[t] {
            Some(slot) => slot.written_at_ns,
            None => 0,
        };
        assert(written_at_ns == self@.queue[0].written_at_ns);
        let last: Option<u64> = self.last_read_at_ns;
        self.last_read_at_ns = Some(written_at_ns);
        match last {
            Some(last) => {
                if written_at_ns > last {
                    let gap_ns: u64 = written_at_ns - last;
                    if gap_ns as u128 > self.slot_ns as u128 + GAP_THRESHOLD_NS as u128 {
                        self.interruptions = self.interruptions.wrapping_add(1);
                        return Err(RfError::StreamInterrupted { gap_ns });
                    }
                }
            },
            None => {},
        }
        let slot = self.pop_slot();
        self.total_read = self.total_read.wrapping_add(slot.samples.len() as u64);
        Ok(Some(slot))
    }

    /// Reads `n` samples from as many slots as it takes. Of the last slot, the
    /// samples that are not needed are lost. A read that meets an interruption of
    /// the stream fails with it and gives up the samples from before; the next
    /// read begins behind the interruption. With too few samples in the buffer
    /// all of them are lost, and the read fails as one that has waited in vain.
    pub fn read_block(&mut self, n: usize) -> (block: Result<IqBlock<T>, RfError>)
        requires
            old(self).wf(),
        ensures
            final(self).wf(),
            final(self).slot_size() == old(self).slot_size(),
            ({
                let (after, assembled, end) = stream_read(
                    old(self)@,
                    assembly_start::<T>(n as int),
                );
                &&& final(self)@ == after
                &&& match end {
                    ReadEnd::Complete => block matches Ok(b) && b.samples@ == assembled.samples
                        && b.start_sample == assembled.start_sample,
                    ReadEnd::Empty => block matches Err(RfError::Io(text)) && text@
                        == "IqStream: timeout waiting for data"@,
                    ReadEnd::Interrupted(gap_ns) => block == Err::<IqBlock<T>, RfError>(
                        RfError::StreamInterrupted { gap_ns },
                    ),
                }
            }),
    {
        let mut assembly = BlockAssembly::new(n);
        let ghost result = stream_read(self@, assembly@);
        while !assembly.is_complete()
            invariant
                self.wf(),
                self.slot_size() == old(self).slot_size(),
                assembly@.wanted == n,
                assembly@.samples.len() <= n,
                stream_read(self@, assembly@) == result,
                result == stream_read(old(self)@, assembly_start::<T>(n as int)),
            decreases self@.queue.len(),
        {
            match self.take_slot() {
                Ok(Some(slot)) => {
                    assembly.accept(slot);
                },
                Ok(None) => {
                    return Err(read_timeout());
                },
                Err(e) => {
                    return Err(e);
                },
            }
        }
        Ok(assembly.into_block())
    }

    /// Counters of the reading side.
    pub fn metrics(&self) -> (m: SourceMetrics)
        ensures
            m.total_samples == self@.read,
            m.dropped_samples == self@.dropped,
            m.interruptions == self@.interruptions,
    {
        SourceMetrics {
            total_samples: self.total_read,
            dropped_samples: self.dropped,
            interruptions: self.interruptions,
        }
    }
}

/// The samples of slots, one after the other.
pub open spec fn samples_of<T>(queue: Seq<SlotModel<T>>) -> Seq<T>
    decreases queue.len(),
{
    if queue.len() == 0 {
        Seq::empty()
    } else {
        samples_of(queue.drop_last()) + queue.last().samples
    }
}

proof fn lemma_samples_of_first<T>(queue: Seq<SlotModel<T>>)
    requires
        queue.len() > 0,
    ensures
        samples_of(queue) == queue[0].samples + samples_of(queue.skip(1)),
    decreases queue.len(),
{
    if queue.len() == 1 {
        assert(queue.drop_last() =~= Seq::empty());
        assert(queue.skip(1) =~= Seq::empty());
        assert(samples_of(queue) =~= queue[0].samples + samples_of(queue.skip(1)));
    } else {
        let head = queue.drop_last();
        lemma_samples_of_first(head);
        assert(queue.skip(1).drop_last() =~= head.skip(1));
        assert(queue.skip(1).last() == queue.last());
        assert(samples_of(queue) =~= queue[0].samples + samples_of(queue.skip(1)));
    }
}

/// First in, first out: a write into a buffer that is not full appends its
/// samples to those waiting, and dropping the oldest slot of a full one removes
/// only the samples of that slot.
pub proof fn law_samples_wait_in_order<T>(m: StreamModel<T>, slot: SlotModel<T>)
    requires
        m.capacity > 0,
    ensures
        m.queue.len() < m.capacity ==> samples_of(stream_write(m, slot).0.queue) == samples_of(
            m.queue,
        ) + slot.samples,
        m.queue.len() >= m.capacity && m.policy == OverflowPolicy::DropOldest ==> samples_of(m.queue)
            + slot.samples == m.queue[0].samples + samples_of(stream_write(m, slot).0.queue),
{
    if m.queue.len() < m.capacity {
        assert(m.queue.push(slot).drop_last() =~= m.queue);
    } else if m.policy == OverflowPolicy::DropOldest {
        lemma_samples_of_first(m.queue);
        let kept = m.queue.skip(1);
        assert(kept.push(slot).drop_last() =~= kept);
        assert(samples_of(m.queue) + slot.samples =~= m.queue[0].samples + samples_of(
            kept.push(slot),
        ));
    }
}

/// What is read is what waits: a block of `n` samples that no interruption breaks
/// holds the first `n` of the samples waiting, in order, whenever there are as
/// many.
pub proof fn law_read_gives_the_oldest_samples<T>(m: StreamModel<T>, n: int)
    requires
        0 <= n <= samples_of(m.queue).len(),
    ensures
        ({
            let (after, assembled, end) = stream_read(m, assembly_start::<T>(n));
            &&& end is Complete || end is Interrupted
            &&& end is Complete ==> assembled.samples == samples_of(m.queue).take(n)
        }),
{
    lemma_read(m, assembly_start::<T>(n));
    assert(Seq::<T>::empty() + samples_of(m.queue) =~= samples_of(m.queue));
}

proof fn lemma_read<T>(m: StreamModel<T>, a: AssemblyModel<T>)
    requires
        a.samples.len() <= a.wanted,
        a.wanted <= a.samples.len() + samples_of(m.queue).len(),
    ensures
        !(stream_read(m, a).2 is Empty),
        stream_read(m, a).2 is Complete ==> stream_read(m, a).1.samples == (a.samples + samples_of(
            m.queue,
        )).take(a.wanted),
    decreases m.queue.len(),
{
    let all = a.samples + samples_of(m.queue);
    if a.samples.len() >= a.wanted {
        assert(all.take(a.wanted) =~= a.samples);
    } else if interruption_before(m, m.queue[0]) is None {
        let slot = m.queue[0];
        let next = assembly_accept(a, slot);
        lemma_samples_of_first(m.queue);
        let rest = samples_of(m.queue.skip(1));
        assert(all =~= (a.samples + slot.samples) + rest);
        lemma_read(stream_take(m), next);
        assert((next.samples + rest).take(a.wanted) =~= all.take(a.wanted));
    }
}

/// Whether slot `i` of those waiting was written too late after the one before
/// it.
pub open spec fn comes_late<T>(m: StreamModel<T>, i: int) -> bool {
    if i == 0 {
        interruption_before(m, m.queue[0]) is Some
    } else {
        m.queue[i].written_at_ns - m.queue[i - 1].written_at_ns > m.slot_ns + GAP_THRESHOLD_NS
    }
}

/// A stream without gaps is read without errors: when no slot comes late, no read
/// is interrupted.
pub proof fn law_steady_stream_is_not_interrupted<T>(m: StreamModel<T>, a: AssemblyModel<T>)
    requires
        m.slot_ns >= 0,
        forall|i: int| 0 <= i < m.queue.len() ==> !#[trigger] comes_late(m, i),
    ensures
        !(stream_read(m, a).2 is Interrupted),
        stream_read(m, a).0.interruptions == m.interruptions,
    decreases m.queue.len(),
{
    if a.samples.len() < a.wanted && m.queue.len() > 0 {
        assert(!comes_late(m, 0));
        let next = stream_take(m);
        assert forall|i: int| 0 <= i < next.queue.len() implies !#[trigger] comes_late(next, i) by {
            assert(!comes_late(m, i + 1));
        }
        law_steady_stream_is_not_interrupted(next, assembly_accept(a, m.queue[0]));
    }
}

/// An interruption is counted and reported once: the read that meets it loses no
/// slot behind it, and the next read gets past it.
pub proof fn law_interruption_is_reported_once<T>(m: StreamModel<T>, n: int)
    requires
        n > 0,
        m.queue.len() > 0,
        interruption_before(m, m.queue[0]) is Some,
    ensures
        ({
            let (after, _, end) = stream_read(m, assembly_start::<T>(n));
            &&& end == ReadEnd::Interrupted(interruption_before(m, m.queue[0])->0)
            &&& after.queue == m.queue
            &&& after.interruptions == wrapping_sum(m.interruptions, 1)
            &&& interruption_before(after, after.queue[0]) is None
        }),
{
}

/// Number of samples waiting in slots.
pub open spec fn waiting<T>(queue: Seq<SlotModel<T>>) -> int {
    samples_of(queue).len() as int
}

/// Samples that were written and then dropped.
pub open spec fn evicted<T>(m: StreamModel<T>) -> int {
    if m.policy == OverflowPolicy::DropOldest {
        m.dropped as int
    } else {
        0
    }
}

/// Whether the counters account for every sample written: it was read, or
/// dropped, or is waiting. The counters wrap around at 2^64.
pub open spec fn accounted_for<T>(m: StreamModel<T>) -> bool {
    (m.read + evicted(m) + waiting(m.queue) - m.written) % 0x1_0000_0000_0000_0000 == 0
}

/// No sample gets lost unnoticed: the account is even for an empty buffer and
/// is kept by every write and every read.
pub proof fn law_every_sample_is_accounted_for<T>(m: StreamModel<T>, slot: SlotModel<T>)
    requires
        m.capacity > 0,
        accounted_for(m),
    ensures
        accounted_for(stream_start::<T>(m.capacity, m.policy, m.slot_ns)),
        accounted_for(stream_write(m, slot).0),
        m.queue.len() > 0 ==> accounted_for(stream_take(m)),
        m.queue.len() > 0 ==> accounted_for(stream_interrupted(m)),
{
    law_samples_wait_in_order(m, slot);
    let n = slot.samples.len() as int;
    let total = m.read + evicted(m) + waiting(m.queue) - m.written;
    let kw = lemma_wrapping(m.written, n);
    lemma_multiple(total, kw);
    if m.queue.len() > 0 {
        lemma_samples_of_first(m.queue);
        let kd = lemma_wrapping(m.dropped, m.queue[0].samples.len() as int);
        let kr = lemma_wrapping(m.read, m.queue[0].samples.len() as int);
        lemma_multiple(total, kw - kd);
        lemma_multiple(total, kr * -1);
        if m.queue.len() >= m.capacity && m.policy == OverflowPolicy::DropOldest {
            let after = stream_write(m, slot).0;
            assert((samples_of(m.queue) + slot.samples).len() == (m.queue[0].samples + samples_of(
                after.queue,
            )).len());
            assert(after.read + evicted(after) + waiting(after.queue) - after.written == total + (kw
                - kd) * 0x1_0000_0000_0000_0000);
        }
        let after = stream_take(m);
        assert(after.read + evicted(after) + waiting(after.queue) - after.written == total + (kr
            * -1) * 0x1_0000_0000_0000_0000);
    }
    if m.queue.len() < m.capacity {
        let after = stream_write(m, slot).0;
        assert((samples_of(m.queue) + slot.samples).len() == waiting(after.queue));
        assert(after.read + evicted(after) + waiting(after.queue) - after.written == total + kw
            * 0x1_0000_0000_0000_0000);
    }
}

/// A wrapping sum differs from the plain one by a multiple of 2^64.
proof fn lemma_wrapping(a: u64, b: int) -> (k: int)
    requires
        b >= 0,
    ensures
        wrapping_sum(a, b) == a + b - k * 0x1_0000_0000_0000_0000,
{
    (a + b) / 0x1_0000_0000_0000_0000
}

/// Adding multiples of 2^64 does not change a remainder of zero.
proof fn lemma_multiple(total: int, k: int)
    requires
        total % 0x1_0000_0000_0000_0000 == 0,
    ensures
        (total + k * 0x1_0000_0000_0000_0000) % 0x1_0000_0000_0000_0000 == 0,
{
}

/// A slot counts as interrupted exactly when it was written more than the length of
/// a slot and five milliseconds after the last one read, and the time reported is the
/// time between the two; nothing comes late before the first read.
pub proof fn law_late_slot_is_an_interruption<T>(m: StreamModel<T>, slot: SlotModel<T>)
    requires
        m.slot_ns >= 0,
    ensures
        m.last_ns is None ==> interruption_before(m, slot) is None,
        m.last_ns matches Some(last) ==> {
            &&& interruption_before(m, slot) is Some <==> slot.written_at_ns - last > m.slot_ns
                + 5_000_000
            &&& interruption_before(m, slot) matches Some(gap_ns) ==> gap_ns == slot.written_at_ns
                - last
        },
{
}

/// What a write does to a full buffer: one that drops the oldest slot stores the
/// samples and counts those of that slot as dropped; one that refuses holds what it
/// held, counts the samples as dropped and says how many; one that blocks stays as it
/// is and has the producer wait. A buffer that is not full stores the samples and
/// drops none. No write touches what has been read.
pub proof fn law_full_buffer_follows_its_policy<T>(m: StreamModel<T>, slot: SlotModel<T>)
    requires
        0 < m.capacity,
        m.queue.len() <= m.capacity,
        slot.samples.len() <= usize::MAX,
    ensures
        ({
            let (after, outcome) = stream_write(m, slot);
            let full = m.queue.len() == m.capacity;
            let n = slot.samples.len() as int;
            &&& after.queue.len() <= m.capacity
            &&& after.read == m.read && after.interruptions == m.interruptions && after.last_ns
                == m.last_ns
            &&& outcome == Ok::<WriteStatus, RfError>(WriteStatus::Stored) <==> !full || m.policy
                == OverflowPolicy::DropOldest
            &&& outcome == Ok::<WriteStatus, RfError>(WriteStatus::Stored) ==> after.queue.len() > 0
                && after.queue.last() == slot && (after.written - m.written - n)
                % 0x1_0000_0000_0000_0000 == 0
            &&& outcome is Err ==> after.queue == m.queue && after.written == m.written && (
            after.dropped - m.dropped - n) % 0x1_0000_0000_0000_0000 == 0 && outcome->Err_0
                == (RfError::BufferOverflow { dropped: slot.samples.len() as usize })
            &&& outcome is Err <==> full && m.policy == OverflowPolicy::ErrorOnOverflow
            &&& full && m.policy == OverflowPolicy::BlockProducer ==> after == m && outcome == Ok::<
                WriteStatus,
                RfError,
            >(WriteStatus::MustWait)
            &&& !full ==> after.dropped == m.dropped
            &&& full && m.policy == OverflowPolicy::DropOldest ==> (after.dropped - m.dropped
                - m.queue[0].samples.len()) % 0x1_0000_0000_0000_0000 == 0
        }),
{
    let n = slot.samples.len() as int;
    let kw = lemma_wrapping(m.written, n);
    let kn = lemma_wrapping(m.dropped, n);
    lemma_multiple(0, -kw);
    lemma_multiple(0, -kn);
    if m.queue.len() == m.capacity {
        let kd = lemma_wrapping(m.dropped, m.queue[0].samples.len() as int);
        lemma_multiple(0, -kd);
    }
}

/// A read takes whole slots, the oldest first, and no more of them than it needs:
/// without the last of those taken the block is not complete. They are counted as
/// read; what is behind them stays. An interruption is that before the first slot
/// that stays, counted once, and found there alone; and an empty buffer is met only
/// after every slot was taken.
pub proof fn law_read_takes_whole_slots<T>(m: StreamModel<T>, a: AssemblyModel<T>) -> (k: int)
    requires
        m.slot_ns >= 0,
        a.samples.len() <= a.wanted,
    ensures
        ({
            let (after, assembled, end) = stream_read(m, a);
            &&& 0 <= k <= m.queue.len()
            &&& after.queue == m.queue.skip(k)
            &&& (after.read - m.read - samples_of(m.queue.take(k)).len()) % 0x1_0000_0000_0000_0000
                == 0
            &&& after.written == m.written && after.dropped == m.dropped
            &&& k > 0 ==> a.samples.len() + samples_of(m.queue.take(k - 1)).len() < a.wanted
            &&& end is Complete <==> a.samples.len() + samples_of(m.queue.take(k)).len() >= a.wanted
            &&& end is Complete ==> assembled.samples.len() == a.wanted
            &&& end is Empty ==> k == m.queue.len()
            &&& end is Interrupted <==> after.interruptions != m.interruptions
            &&& end matches ReadEnd::Interrupted(gap_ns) ==> {
                &&& k < m.queue.len()
                &&& comes_late(m, k)
                &&& after.last_ns == Some(m.queue[k].written_at_ns)
                &&& k > 0 ==> gap_ns == m.queue[k].written_at_ns - m.queue[k - 1].written_at_ns
                &&& after.interruptions == wrapping_sum(m.interruptions, 1)
            }
            &&& !(end is Interrupted) && k > 0 ==> after.last_ns == Some(
                m.queue[k - 1].written_at_ns,
            )
            &&& !(end is Interrupted) && k == 0 ==> after.last_ns == m.last_ns
            &&& forall|i: int| 0 <= i < k ==> !#[trigger] comes_late(m, i)
        }),
    decreases m.queue.len(),
{
    assert(m.queue.skip(0) =~= m.queue);
    assert(m.queue.take(0) =~= Seq::empty());
    assert(samples_of(m.queue.take(0)).len() == 0);
    lemma_multiple(0, 0);
    if a.samples.len() >= a.wanted || m.queue.len() == 0 || interruption_before(
        m,
        m.queue[0],
    ) is Some {
        if a.samples.len() < a.wanted && m.queue.len() > 0 {
            let i = lemma_wrapping(m.interruptions, 1);
        }
        0
    } else {
        let slot = m.queue[0];
        let next = stream_take(m);
        let b = assembly_accept(a, slot);
        let all = a.samples + slot.samples;
        let j = law_read_takes_whole_slots(next, b);
        let k = j + 1;
        let rest = m.queue.skip(1);
        assert(rest.skip(j) =~= m.queue.skip(k));
        assert(m.queue.take(k).skip(1) =~= rest.take(j));
        lemma_samples_of_first(m.queue.take(k));
        let kr = lemma_wrapping(m.read, slot.samples.len() as int);
        let after = stream_read(next, b).0;
        let total = after.read - next.read - samples_of(rest.take(j)).len();
        lemma_multiple(total, -kr);
        assert(after.read - m.read - samples_of(m.queue.take(k)).len() == total + (-kr)
            * 0x1_0000_0000_0000_0000);
        if j > 0 {
            assert(m.queue.take(j).skip(1) =~= rest.take(j - 1));
            lemma_samples_of_first(m.queue.take(j));
        }
        assert forall|i: int| 0 <= i < k implies !#[trigger] comes_late(m, i) by {
            if i > 0 {
                assert(!comes_late(next, i - 1));
            }
        }
        if stream_read(next, b).2 is Interrupted {
            assert(comes_late(next, j));
            assert(next.queue[j] == m.queue[k]);
        }
        k
    }
}

/// A block is numbered by its first sample: where the oldest slot holds samples, the
/// number of the block is that of the slot.
pub proof fn law_block_is_numbered_by_its_first_sample<T>(m: StreamModel<T>, n: int)
    requires
        n > 0,
        m.queue.len() > 0,
        m.queue[0].samples.len() > 0,
    ensures
        stream_read(m, assembly_start::<T>(n)).2 is Complete ==> stream_read(
            m,
            assembly_start::<T>(n),
        ).1.start_sample == m.queue[0].start_sample,
{
    if interruption_before(m, m.queue[0]) is None {
        lemma_number_stays(stream_take(m), assembly_accept(assembly_start::<T>(n), m.queue[0]));
    }
}

/// Once a block holds samples, its number stays.
proof fn lemma_number_stays<T>(m: StreamModel<T>, a: AssemblyModel<T>)
    requires
        a.samples.len() > 0,
    ensures
        stream_read(m, a).1.start_sample == a.start_sample,
    decreases m.queue.len(),
{
    if a.samples.len() < a.wanted && m.queue.len() > 0 && interruption_before(
        m,
        m.queue[0],
    ) is None {
        lemma_number_stays(stream_take(m), assembly_accept(a, m.queue[0]));
    }
}

} // verus!
