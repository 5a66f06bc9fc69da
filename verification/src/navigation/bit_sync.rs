//! Bit synchronisation: from the signs of 1 ms prompt correlations to
//! navigation bits of 20 ms each.
//!
//! [`BitSynchronizer`] finds the phase of the bit boundary from the epochs at
//! which the sign changes; [`BitAccumulator`] then takes the majority of the
//! twenty signs of each bit.

use vstd::prelude::*;

verus! {

/// Number of 1 ms epochs in one navigation bit.
pub const EPOCHS_PER_BIT: usize = 20;

/// What a [`BitSynchronizer`] knows of the signs it was given.
#[verifier::ext_equal]
pub struct SyncModel {
    /// For each phase, the number of sign changes that fell on another phase.
    pub counts: Seq<int>,
    /// Number of signs given.
    pub epochs: int,
    /// The last sign given.
    pub prev: Option<i8>,
    /// Phase of the next epoch.
    pub phase: int,
}

/// The state before any sign was given.
pub open spec fn sync_start() -> SyncModel {
    SyncModel { counts: Seq::new(20, |p: int| 0int), epochs: 0, prev: None, phase: 0 }
}

/// The state after one more sign.
pub open spec fn sync_step(m: SyncModel, sign: i8) -> SyncModel {
    let changed = m.prev matches Some(prev) && prev != sign;
    SyncModel {
        counts: Seq::new(
            20,
            |p: int|
                if changed && p != m.phase {
                    m.counts[p] + 1
                } else {
                    m.counts[p]
                },
        ),
        epochs: m.epochs + 1,
        prev: Some(sign),
        phase: (m.phase + 1) % 20,
    }
}

/// The state after the signs of `signs`, in order.
pub open spec fn sync_run(signs: Seq<i8>) -> SyncModel
    decreases signs.len(),
{
    if signs.len() == 0 {
        sync_start()
    } else {
        sync_step(sync_run(signs.drop_last()), signs.last())
    }
}

/// Whether `p` is the phase that a synchronizer with these counts reports: the
/// first of those with the smallest count.
pub open spec fn is_first_minimum(counts: Seq<int>, p: int) -> bool {
    &&& 0 <= p < counts.len()
    &&& forall|q: int| 0 <= q < counts.len() ==> counts[p] <= #[trigger] counts[q]
    &&& forall|q: int| 0 <= q < p ==> counts[p] < #[trigger] counts[q]
}

/// Whether a value is the sign of a correlation.
pub open spec fn is_sign(sign: i8) -> bool {
    sign == 1 || sign == -1
}

/// Finds the boundary of the 20 ms navigation bit from the sign changes of
/// the prompt correlation.
#[derive(Debug, Clone)]
pub struct BitSynchronizer {
    /// For each phase, the sign changes that would fall inside a bit.
    transition_counts: [u32; 20],
    /// Number of epochs seen.
    epochs_seen: u64,
    /// Sign of the preceding epoch.
    prev_sign: Option<i8>,
    /// Phase of the next epoch within the 20 ms window.
    epoch_in_window: usize,
    /// Number of epochs from which on the decision counts as reliable.
    min_epochs_for_decision: u64,
}

impl BitSynchronizer {
    /// The counters, as mathematical values.
    pub closed spec fn view(&self) -> SyncModel {
        SyncModel {
            counts: Seq::new(20, |p: int| self.transition_counts@[p] as int),
            epochs: self.epochs_seen as int,
            prev: self.prev_sign,
            phase: self.epoch_in_window as int,
        }
    }

    /// The number of epochs that a decision needs.
    pub closed spec fn threshold(&self) -> int {
        self.min_epochs_for_decision as int
    }

    /// The phase of the next epoch lies within the window.
    pub closed spec fn wf(&self) -> bool {
        self.epoch_in_window < 20
    }

    /// The counters have room for one more epoch.
    pub open spec fn has_room(&self) -> bool {
        &&& self@.epochs < u64::MAX
        &&& forall|p: int| 0 <= p < 20 ==> #[trigger] self@.counts[p] < u32::MAX
    }

    /// A synchronizer that decides after `min_epochs_for_decision` epochs.
    pub fn new(min_epochs_for_decision: u64) -> (s: Self)
        ensures
            s.wf(),
            s@ == sync_start(),
            s.threshold() == min_epochs_for_decision,
    {
        let s = BitSynchronizer {
            transition_counts: [0; 20],
            epochs_seen: 0,
            prev_sign: None,
            epoch_in_window: 0,
            min_epochs_for_decision,
        };
        assert(s@.counts =~= sync_start().counts);
        s
    }

    /// A synchronizer that decides after 200 epochs, that is ten bits.
    pub fn with_defaults() -> (s: Self)
        ensures
            s.wf(),
            s@ == sync_start(),
            s.threshold() == 200,
    {
        Self::new(200)
    }

    /// Takes the sign of the prompt correlation of one epoch.
    pub fn push_prompt_sign(&mut self, sign: i8)
        requires
            is_sign(sign),
            old(self).wf(),
            old(self).has_room(),
        ensures
            final(self).wf(),
            final(self)@ == sync_step(old(self)@, sign),
            final(self).threshold() == old(self).threshold(),
    {
        let changed = match self.prev_sign {
            Some(prev) => prev != sign,
            None => false,
        };
        let ghost start = self@;
        assert(forall|p: int| 0 <= p < 20 ==> start.counts[p] == self.transition_counts@[p]);
        if changed {
            let mut phase: usize = 0;
            while phase < 20
                invariant
                    phase <= 20,
                    start.counts.len() == 20,
                    self.epoch_in_window == start.phase,
                    self.epochs_seen == start.epochs,
                    self.prev_sign == start.prev,
                    self.min_epochs_for_decision == old(self).min_epochs_for_decision,
                    forall|p: int| 0 <= p < 20 ==> #[trigger] start.counts[p] < u32::MAX,
                    forall|p: int|
                        0 <= p < 20 ==> #[trigger] self.transition_counts@[p] == if p < phase && p
                            != start.phase {
                            start.counts[p] + 1
                        } else {
                            start.counts[p]
                        },
                decreases 20 - phase,
            {
                if phase != self.epoch_in_window {
                    assert(start.counts[phase as int] < u32::MAX);
                    self.transition_counts[phase] = self.transition_counts[phase] + 1;
                }
                phase = phase + 1;
            }
        }
        self.prev_sign = Some(sign);
        self.epochs_seen = self.epochs_seen + 1;
        self.epoch_in_window = (self.epoch_in_window + 1) % 20;
        assert(self@.counts =~= sync_step(start, sign).counts);
    }

    /// Whether enough epochs were seen for a reliable decision.
    pub fn is_ready(&self) -> (ready: bool)
        ensures
            ready <==> self@.epochs >= self.threshold(),
    {
        self.epochs_seen >= self.min_epochs_for_decision
    }

    /// The phase within the 20 ms window at which a navigation bit begins, once
    /// the decision is reliable: the first phase with the fewest sign changes
    /// inside the bit.
    pub fn detected_bit_boundary_phase(&self) -> (phase: Option<usize>)
        ensures
            phase is Some <==> self@.epochs >= self.threshold(),
            phase matches Some(p) ==> is_first_minimum(self@.counts, p as int),
    {
        if !self.is_ready() {
            return None;
        }
        let mut best: usize = 0;
        let mut phase: usize = 1;
        while phase < 20
            invariant
                best < phase <= 20,
                forall|q: int|
                    0 <= q < phase ==> self.transition_counts@[best as int]
                        <= #[trigger] self.transition_counts@[q],
                forall|q: int|
                    0 <= q < best ==> self.transition_counts@[best as int]
                        < #[trigger] self.transition_counts@[q],
            decreases 20 - phase,
        {
            if self.transition_counts[phase] < self.transition_counts[best] {
                best = phase;
            }
            phase = phase + 1;
        }
        proof {
            let counts = self@.counts;
            assert forall|q: int| 0 <= q < 20 implies counts[best as int] <= #[trigger] counts[q] by {
                assert(counts[q] == self.transition_counts@[q]);
            }
            assert forall|q: int| 0 <= q < best implies counts[best as int]
                < #[trigger] counts[q] by {
                assert(counts[q] == self.transition_counts@[q]);
            }
        }
        Some(best)
    }

    /// Number of epochs seen.
    pub fn epochs_seen(&self) -> (n: u64)
        ensures
            n == self@.epochs,
    {
        self.epochs_seen
    }

    /// Forgets all epochs seen, for instance after a loss of lock.
    pub fn reset(&mut self)
        ensures
            final(self).wf(),
            final(self)@ == sync_start(),
            final(self).threshold() == old(self).threshold(),
    {
        self.transition_counts = [0; 20];
        self.epochs_seen = 0;
        self.prev_sign = None;
        self.epoch_in_window = 0;
        assert(self@.counts =~= sync_start().counts);
    }
}

/// Number of sign changes in `signs` at epochs whose phase is not `p`.
pub open spec fn changes_off_phase(signs: Seq<i8>, p: int) -> int
    decreases signs.len(),
{
    if signs.len() < 2 {
        0
    } else {
        let i = signs.len() - 1;
        changes_off_phase(signs.drop_last(), p) + if signs[i] != signs[i - 1] && i % 20 != p {
            1int
        } else {
            0int
        }
    }
}

/// What the counters mean: after any signs, the counter of a phase is the
/// number of sign changes at the epochs of the other phases.
pub proof fn law_counts_are_changes_off_phase(signs: Seq<i8>, p: int)
    requires
        0 <= p < 20,
    ensures
        sync_run(signs).counts[p] == changes_off_phase(signs, p),
        sync_run(signs).counts.len() == 20,
        sync_run(signs).epochs == signs.len(),
        sync_run(signs).phase == signs.len() as int % 20,
        sync_run(signs).prev == (if signs.len() == 0 {
            None
        } else {
            Some(signs.last())
        }),
    decreases signs.len(),
{
    if signs.len() > 0 {
        law_counts_are_changes_off_phase(signs.drop_last(), p);
        if signs.len() >= 2 {
            assert(signs.drop_last().last() == signs[signs.len() - 2]);
        }
    }
}

/// With sign changes only at the epochs of one phase, nothing is counted
/// against that phase.
proof fn lemma_no_changes_off_boundary(signs: Seq<i8>, p: int)
    requires
        forall|i: int|
            0 < i < signs.len() && signs[i] != #[trigger] signs[i - 1] ==> i % 20 == p,
    ensures
        changes_off_phase(signs, p) == 0,
    decreases signs.len(),
{
    if signs.len() >= 2 {
        let head = signs.drop_last();
        assert forall|i: int|
            0 < i < head.len() && head[i] != #[trigger] head[i - 1] implies i % 20 == p by {
            assert(signs[i - 1] == head[i - 1]);
        }
        lemma_no_changes_off_boundary(head, p);
        let i = signs.len() - 1;
        assert(signs[i] != signs[i - 1] ==> i % 20 == p);
    }
}

/// A sign change at an epoch of another phase is counted.
proof fn lemma_change_is_counted(signs: Seq<i8>, q: int, c: int)
    requires
        0 < c < signs.len(),
        signs[c] != signs[c - 1],
        c % 20 != q,
    ensures
        changes_off_phase(signs, q) > 0,
    decreases signs.len(),
{
    lemma_changes_nonnegative(signs.drop_last(), q);
    if c < signs.len() - 1 {
        lemma_change_is_counted(signs.drop_last(), q, c);
    }
}

proof fn lemma_changes_nonnegative(signs: Seq<i8>, q: int)
    ensures
        changes_off_phase(signs, q) >= 0,
    decreases signs.len(),
{
    if signs.len() >= 2 {
        lemma_changes_nonnegative(signs.drop_last(), q);
    }
}

/// The boundary of clean bits is found: when the signs change only where a bit
/// of phase `p` begins, and change at least once, `p` is the one phase that the
/// counters single out.
pub proof fn law_clean_bits_give_their_phase(signs: Seq<i8>, p: int)
    requires
        0 <= p < 20,
        forall|i: int|
            0 < i < signs.len() && signs[i] != #[trigger] signs[i - 1] ==> i % 20 == p,
        exists|i: int| 0 < i < signs.len() && signs[i] != #[trigger] signs[i - 1],
    ensures
        forall|q: int| is_first_minimum(sync_run(signs).counts, q) <==> q == p,
{
    let counts = sync_run(signs).counts;
    let c = choose|i: int| 0 < i < signs.len() && signs[i] != #[trigger] signs[i - 1];
    law_counts_are_changes_off_phase(signs, p);
    lemma_no_changes_off_boundary(signs, p);
    assert forall|q: int| 0 <= q < 20 && q != p implies #[trigger] counts[q] > 0 by {
        law_counts_are_changes_off_phase(signs, q);
        lemma_change_is_counted(signs, q, c);
    }
    assert(is_first_minimum(counts, p));
}

/// What a [`BitAccumulator`] knows of the bit under way.
#[verifier::ext_equal]
pub struct AccumulatorModel {
    /// Phase at which a bit begins.
    pub boundary: int,
    /// Phase of the next epoch.
    pub phase: int,
    /// Whether the first boundary has been reached.
    pub started: bool,
    /// Positive signs of the bit under way.
    pub positive: int,
    /// Negative signs of the bit under way.
    pub negative: int,
}

/// The state before any sign was given.
pub open spec fn accumulator_start(boundary: int) -> AccumulatorModel {
    AccumulatorModel { boundary, phase: 0, started: boundary == 0, positive: 0, negative: 0 }
}

/// The state after one more sign, and the bit that the sign completes.
pub open spec fn accumulator_step(m: AccumulatorModel, sign: i8) -> (AccumulatorModel, Option<
    bool,
>) {
    let phase = (m.phase + 1) % 20;
    let positive = m.positive + if m.started && sign > 0 {
        1int
    } else {
        0int
    };
    let negative = m.negative + if m.started && sign <= 0 {
        1int
    } else {
        0int
    };
    if phase == m.boundary {
        (
            AccumulatorModel { phase, started: true, positive: 0, negative: 0, ..m },
            if m.started {
                Some(positive >= negative)
            } else {
                None
            },
        )
    } else {
        (AccumulatorModel { phase, positive, negative, ..m }, None)
    }
}

/// Combines the twenty signs of a navigation bit by majority, once the phase of
/// the bit boundary is known.
///
/// The majority withstands single wrong signs. Epochs before the first boundary
/// belong to a bit whose beginning was not seen; they are passed over.
#[derive(Debug, Clone)]
pub struct BitAccumulator {
    boundary_phase: usize,
    current_phase: usize,
    started: bool,
    positive_count: u32,
    negative_count: u32,
}

impl BitAccumulator {
    /// The counters, as mathematical values.
    pub closed spec fn view(&self) -> AccumulatorModel {
        AccumulatorModel {
            boundary: self.boundary_phase as int,
            phase: self.current_phase as int,
            started: self.started,
            positive: self.positive_count as int,
            negative: self.negative_count as int,
        }
    }

    /// The signs counted are those of the epochs since the last boundary.
    pub closed spec fn wf(&self) -> bool {
        &&& self.current_phase < 20
        &&& self.started ==> self.boundary_phase < 20
        &&& self.positive_count + self.negative_count == if self.started {
            (self.current_phase + 20 - self.boundary_phase) % 20
        } else {
            0
        }
    }

    /// An accumulator for bits that begin at `boundary_phase`.
    pub fn new(boundary_phase: usize) -> (a: Self)
        ensures
            a.wf(),
            a@ == accumulator_start(boundary_phase as int),
    {
        BitAccumulator {
            boundary_phase,
            current_phase: 0,
            started: boundary_phase == 0,
            positive_count: 0,
            negative_count: 0,
        }
    }

    /// Takes the sign of one epoch. Returns the bit when the epoch is the last
    /// of the twenty of a navigation bit: `true` unless most of the signs were
    /// negative.
    pub fn push(&mut self, sign: i8) -> (bit: Option<bool>)
        requires
            is_sign(sign),
            old(self).wf(),
        ensures
            final(self).wf(),
            (final(self)@, bit) == accumulator_step(old(self)@, sign),
    {
        if self.started {
            if sign > 0 {
                self.positive_count = self.positive_count + 1;
            } else {
                self.negative_count = self.negative_count + 1;
            }
        }
        self.current_phase = (self.current_phase + 1) % 20;
        if self.current_phase == self.boundary_phase {
            let bit = if self.started {
                Some(self.positive_count >= self.negative_count)
            } else {
                None
            };
            self.started = true;
            self.positive_count = 0;
            self.negative_count = 0;
            bit
        } else {
            None
        }
    }
}

/// Number of positive signs in `signs`.
pub open spec fn positives(signs: Seq<i8>) -> int
    decreases signs.len(),
{
    if signs.len() == 0 {
        0
    } else {
        positives(signs.drop_last()) + if signs.last() > 0 {
            1int
        } else {
            0int
        }
    }
}

/// The bit that the signs of one navigation bit stand for.
pub open spec fn majority(signs: Seq<i8>) -> bool {
    2 * positives(signs) >= signs.len()
}

/// The state after the signs of `signs`, and the bits given back on the way.
pub open spec fn accumulator_run(boundary: int, signs: Seq<i8>) -> (AccumulatorModel, Seq<bool>)
    decreases signs.len(),
{
    if signs.len() == 0 {
        (accumulator_start(boundary), Seq::empty())
    } else {
        let (before, bits) = accumulator_run(boundary, signs.drop_last());
        let (after, bit) = accumulator_step(before, signs.last());
        (
            after,
            match bit {
                Some(b) => bits.push(b),
                None => bits,
            },
        )
    }
}

/// Number of whole navigation bits within the first `n` epochs.
pub open spec fn whole_bits(boundary: int, n: int) -> int {
    if n < boundary {
        0
    } else {
        (n - boundary) / 20
    }
}

proof fn lemma_accumulator_run(boundary: int, signs: Seq<i8>)
    requires
        0 <= boundary < 20,
    ensures
        ({
            let n = signs.len() as int;
            let (m, bits) = accumulator_run(boundary, signs);
            let k = whole_bits(boundary, n);
            let pending = signs.subrange(boundary + 20 * k, n);
            &&& m.boundary == boundary
            &&& m.phase == n % 20
            &&& m.started == (n >= boundary)
            &&& bits.len() == k
            &&& n >= boundary ==> m.positive == positives(pending) && m.positive + m.negative
                == pending.len()
            &&& n < boundary ==> m.positive == 0 && m.negative == 0
            &&& forall|j: int|
                0 <= j < k ==> #[trigger] bits[j] == majority(
                    signs.subrange(boundary + 20 * j, boundary + 20 * j + 20),
                )
        }),
    decreases signs.len(),
{
    let n = signs.len() as int;
    if n == 0 {
        assert(signs.subrange(0, 0) =~= Seq::empty());
    } else {
        let head = signs.drop_last();
        lemma_accumulator_run(boundary, head);
        let (before, bits0) = accumulator_run(boundary, head);
        let (m, bits) = accumulator_run(boundary, signs);
        let k0 = whole_bits(boundary, n - 1);
        let k = whole_bits(boundary, n);
        if n - 1 >= boundary {
            let pending0 = head.subrange(boundary + 20 * k0, n - 1);
            let grown = signs.subrange(boundary + 20 * k0, n);
            assert(grown.drop_last() =~= pending0);
            assert(grown.last() == signs.last());
            if k == k0 + 1 {
                assert(grown =~= signs.subrange(boundary + 20 * k0, boundary + 20 * k0 + 20));
                assert(signs.subrange(boundary + 20 * k, n) =~= Seq::empty());
            } else {
                assert(k == k0);
            }
        } else if n == boundary {
            assert(signs.subrange(boundary, n) =~= Seq::empty());
        }
        assert forall|j: int| 0 <= j < k0 implies #[trigger] bits[j] == majority(
            signs.subrange(boundary + 20 * j, boundary + 20 * j + 20),
        ) by {
            assert(bits[j] == bits0[j]);
            assert(signs.subrange(boundary + 20 * j, boundary + 20 * j + 20) =~= head.subrange(
                boundary + 20 * j,
                boundary + 20 * j + 20,
            ));
        }
    }
}

/// Every whole bit is given back once, in order, as the majority of its twenty
/// signs, and nothing else is given back.
pub proof fn law_bits_are_majorities(boundary: int, signs: Seq<i8>)
    requires
        0 <= boundary < 20,
    ensures
        accumulator_run(boundary, signs).1.len() == whole_bits(boundary, signs.len() as int),
        forall|j: int|
            0 <= j < whole_bits(boundary, signs.len() as int) ==> #[trigger] accumulator_run(
                boundary,
                signs,
            ).1[j] == majority(signs.subrange(boundary + 20 * j, boundary + 20 * j + 20)),
{
    lemma_accumulator_run(boundary, signs);
}

proof fn lemma_positives_of_constant(signs: Seq<i8>, s: i8)
    requires
        forall|i: int| 0 <= i < signs.len() ==> #[trigger] signs[i] == s,
    ensures
        positives(signs) == if s > 0 {
            signs.len() as int
        } else {
            0
        },
    decreases signs.len(),
{
    if signs.len() > 0 {
        let head = signs.drop_last();
        assert forall|i: int| 0 <= i < head.len() implies #[trigger] head[i] == s by {
            assert(signs[i] == head[i]);
        }
        lemma_positives_of_constant(head, s);
        assert(signs.last() == signs[signs.len() - 1]);
    }
}

/// Clean bits come back as they were sent: when the twenty signs of bit `j` are
/// all the same, the bit given back is that sign.
pub proof fn law_clean_bits_come_back(boundary: int, signs: Seq<i8>, j: int, s: i8)
    requires
        0 <= boundary < 20,
        0 <= j < whole_bits(boundary, signs.len() as int),
        forall|i: int|
            boundary + 20 * j <= i < boundary + 20 * j + 20 ==> #[trigger] signs[i] == s,
    ensures
        accumulator_run(boundary, signs).1[j] == (s > 0),
{
    law_bits_are_majorities(boundary, signs);
    let own = signs.subrange(boundary + 20 * j, boundary + 20 * j + 20);
    assert forall|i: int| 0 <= i < own.len() implies #[trigger] own[i] == s by {
        assert(own[i] == signs[boundary + 20 * j + i]);
    }
    lemma_positives_of_constant(own, s);
    assert(accumulator_run(boundary, signs).1[j] == majority(own));
}

/// A bit is one exactly when at least ten of its twenty signs are positive.
pub proof fn law_bit_needs_half_of_its_signs(boundary: int, signs: Seq<i8>, j: int)
    requires
        0 <= boundary < 20,
        0 <= j,
        boundary + 20 * j + 20 <= signs.len(),
    ensures
        accumulator_run(boundary, signs).1.len() == (signs.len() - boundary) / 20,
        accumulator_run(boundary, signs).1[j] <==> positives(
            signs.subrange(boundary + 20 * j, boundary + 20 * j + 20),
        ) >= 10,
{
    law_bits_are_majorities(boundary, signs);
}

/// Positive signs can be counted one by one, in any two parts.
pub proof fn law_positive_signs_add_up(a: Seq<i8>, b: Seq<i8>, sign: i8)
    ensures
        positives(a + b) == positives(a) + positives(b),
        positives(seq![sign]) == if sign > 0 {
            1int
        } else {
            0int
        },
    decreases b.len(),
{
    assert(seq![sign].drop_last() =~= Seq::<i8>::empty());
    assert(positives(Seq::<i8>::empty()) == 0);
    if b.len() == 0 {
        assert(a + b =~= a);
    } else {
        law_positive_signs_add_up(a, b.drop_last(), sign);
        assert((a + b).drop_last() =~= a + b.drop_last());
        assert((a + b).last() == b.last());
    }
}

/// The phase that is reported is unique: no other phase has fewer sign changes inside
/// its bits, and of those with as few it is the first.
pub proof fn law_fewest_changes_give_the_phase(signs: Seq<i8>, p: int, q: int)
    requires
        is_first_minimum(sync_run(signs).counts, p),
        0 <= q < 20,
    ensures
        0 <= p < 20,
        changes_off_phase(signs, p) <= changes_off_phase(signs, q),
        q < p ==> changes_off_phase(signs, p) < changes_off_phase(signs, q),
        is_first_minimum(sync_run(signs).counts, q) ==> q == p,
{
    law_counts_are_changes_off_phase(signs, 0);
    law_counts_are_changes_off_phase(signs, p);
    law_counts_are_changes_off_phase(signs, q);
}

/// A boundary that no epoch has gives no bit.
pub proof fn law_no_bit_without_a_boundary(boundary: int, signs: Seq<i8>)
    requires
        20 <= boundary,
    ensures
        accumulator_run(boundary, signs).1.len() == 0,
{
    lemma_no_boundary(boundary, signs);
}

proof fn lemma_no_boundary(boundary: int, signs: Seq<i8>)
    requires
        20 <= boundary,
    ensures
        accumulator_run(boundary, signs).1.len() == 0,
        accumulator_run(boundary, signs).0.boundary == boundary,
    decreases signs.len(),
{
    if signs.len() > 0 {
        lemma_no_boundary(boundary, signs.drop_last());
    }
}

/// Fewer than ten wrong signs do not change a bit that begins and ends on time.
pub proof fn law_majority_withstands_wrong_signs(boundary: int, signs: Seq<i8>, j: int)
    requires
        0 <= boundary < 20,
        0 <= j,
        boundary + 20 * j + 20 <= signs.len(),
    ensures
        ({
            let own = signs.subrange(boundary + 20 * j, boundary + 20 * j + 20);
            &&& positives(own) > 10 ==> accumulator_run(boundary, signs).1[j]
            &&& positives(own) < 10 ==> !accumulator_run(boundary, signs).1[j]
            &&& positives(own) == 10 ==> accumulator_run(boundary, signs).1[j]
        }),
{
    law_bit_needs_half_of_its_signs(boundary, signs, j);
}

} // verus!
