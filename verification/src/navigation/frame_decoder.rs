//! Framing of the GPS L1 C/A navigation message: finds the TLM preamble in a
//! stream of navigation bits, checks the parity of every word, and collects
//! subframes of ten words.

use std::collections::VecDeque;

use crate::navigation::bits::{bits_value, law_bits_are_binary_digits};
use crate::navigation::parity::{info_of, parity_holds};
use vstd::arithmetic::power2::pow2;
use vstd::prelude::*;

pub use crate::navigation::bit_sync::{BitAccumulator, BitSynchronizer, EPOCHS_PER_BIT};
pub use crate::navigation::bits::bits_to_u32;
pub use crate::navigation::parity::{check_and_correct_parity, WORD_LENGTH_BITS};

verus! {

/// TLM preamble `0b10001011`, the first eight bits of every TLM word.
pub const TLM_PREAMBLE: [bool; 8] = [true, false, false, false, true, false, true, true];

/// Number of words in one subframe.
pub const WORDS_PER_SUBFRAME: usize = 10;

/// Length of one subframe in bits.
pub const SUBFRAME_LENGTH_BITS: usize = 300;

/// State of a [`FrameDecoder`].
#[derive(Debug, Clone, Copy, PartialEq, Eq, Structural)]
pub enum DecodeState {
    /// Looking for the TLM preamble at every bit offset.
    SearchingPreamble,
    /// The preamble was seen; the parity of its word decides whether the word
    /// boundary is genuine.
    VerifyingAlignment {
        /// Offset of the preamble in the buffer.
        offset: usize,
    },
    /// The boundary is confirmed; the remaining words are being collected.
    Collecting {
        /// Bits of the current subframe collected so far.
        bits_collected: usize,
    },
}

/// Why a word could not be decoded.
#[derive(Debug, Clone, Copy, PartialEq, Eq, Structural)]
pub enum FrameDecodeError {
    /// The parity of a word failed.
    ParityMismatch {
        /// Index of the word within the subframe.
        word_index: usize,
    },
    /// The retries are used up and the decoder has started over.
    PreambleNotFound,
}

/// The handover word, the second word of a subframe.
#[derive(Debug, Clone, Copy, PartialEq, Eq, Structural)]
pub struct HowWord {
    /// Start of the next subframe within the week, in units of six seconds.
    pub tow_count: u32,
    /// Number of the subframe.
    pub subframe_id: u8,
    /// Alert flag.
    pub alert_flag: bool,
    /// Anti-spoof flag.
    pub anti_spoof_flag: bool,
}

/// A decoded subframe, every word of which passed its parity check.
#[derive(Debug, Clone)]
pub struct DecodedSubframe {
    /// Number of the subframe, from its handover word.
    pub subframe_id: u8,
    /// The handover word.
    pub how: HowWord,
    /// The information bits of the ten words.
    pub words: [[bool; 24]; 10],
}

/// How often a failed parity check is retried.
#[derive(Debug, Clone, Copy)]
pub struct RetryPolicy {
    /// Number of failures that are answered by a search from the next bit on
    /// before the decoder starts over.
    pub max_retries_before_full_resync: usize,
}

/// Counters of a [`FrameDecoder`].
#[derive(Debug, Clone, Copy)]
pub struct FrameDecoderStats {
    /// Preambles whose word passed its parity check.
    pub preambles_confirmed: u64,
    /// Words that failed their parity check.
    pub parity_failures: u64,
    /// Subframes decoded.
    pub subframes_decoded: u64,
    /// Times the decoder has started over.
    pub full_resyncs: u64,
}

impl Default for RetryPolicy {
    fn default() -> (policy: Self)
        ensures
            policy.max_retries_before_full_resync == 3,
    {
        RetryPolicy { max_retries_before_full_resync: 3 }
    }
}

impl Default for FrameDecoderStats {
    fn default() -> (stats: Self)
        ensures
            stats@ == stats_zero(),
    {
        FrameDecoderStats {
            preambles_confirmed: 0,
            parity_failures: 0,
            subframes_decoded: 0,
            full_resyncs: 0,
        }
    }
}

/// The counters, as mathematical values.
pub struct StatsModel {
    /// Preambles confirmed.
    pub confirmed: int,
    /// Parity failures.
    pub failures: int,
    /// Subframes decoded.
    pub decoded: int,
    /// Full resynchronisations.
    pub resyncs: int,
}

/// Counters of a decoder that has seen no bit.
pub open spec fn stats_zero() -> StatsModel {
    StatsModel { confirmed: 0, failures: 0, decoded: 0, resyncs: 0 }
}

impl FrameDecoderStats {
    /// The counters, as mathematical values.
    pub open spec fn view(&self) -> StatsModel {
        StatsModel {
            confirmed: self.preambles_confirmed as int,
            failures: self.parity_failures as int,
            decoded: self.subframes_decoded as int,
            resyncs: self.full_resyncs as int,
        }
    }
}

/// A subframe, with its words as sequences of bits.
#[verifier::ext_equal]
pub struct SubframeModel {
    /// Number of the subframe.
    pub subframe_id: u8,
    /// The handover word.
    pub how: HowWord,
    /// The information bits of its words.
    pub words: Seq<Seq<bool>>,
}

impl DecodedSubframe {
    /// The subframe, with its words as sequences of bits.
    pub open spec fn view(&self) -> SubframeModel {
        SubframeModel {
            subframe_id: self.subframe_id,
            how: self.how,
            words: Seq::new(10, |i: int| self.words@[i]@),
        }
    }
}

/// Whether the first eight bits are the TLM preamble.
pub open spec fn starts_with_preamble(bits: Seq<bool>) -> bool {
    bits.len() >= 8 && forall|i: int| 0 <= i < 8 ==> #[trigger] bits[i] == TLM_PREAMBLE@[i]
}

/// The handover word written in 24 information bits.
pub open spec fn how_word_of(info: Seq<bool>) -> HowWord {
    HowWord {
        tow_count: bits_value(info.subrange(0, 17)) as u32,
        subframe_id: bits_value(info.subrange(19, 22)) as u8,
        alert_flag: info[17],
        anti_spoof_flag: info[18],
    }
}

/// The subframe made of ten words.
pub open spec fn subframe_of(words: Seq<Seq<bool>>) -> SubframeModel {
    SubframeModel {
        subframe_id: how_word_of(words[1]).subframe_id,
        how: how_word_of(words[1]),
        words,
    }
}

/// Whether the first eight bits of `word_start` are the TLM preamble.
pub fn matches_tlm_preamble(word_start: &[bool]) -> (found: bool)
    ensures
        found <==> starts_with_preamble(word_start@),
{
    if word_start.len() < 8 {
        return false;
    }
    let mut i: usize = 0;
    while i < 8
        invariant
            i <= 8,
            word_start@.len() >= 8,
            forall|j: int| 0 <= j < i ==> #[trigger] word_start@[j] == TLM_PREAMBLE@[j],
        decreases 8 - i,
    {
        if word_start[i] != TLM_PREAMBLE[i] {
            return false;
        }
        i = i + 1;
    }
    true
}

/// Reads the handover word: bits 1-17 are the TOW count, bit 18 the alert flag,
/// bit 19 the anti-spoof flag, bits 20-22 the number of the subframe.
pub fn parse_how_word(info_bits: &[bool; 24]) -> (how: HowWord)
    ensures
        how == how_word_of(info_bits@),
        how.tow_count == bits_value(info_bits@.subrange(0, 17)),
        how.subframe_id == bits_value(info_bits@.subrange(19, 22)),
        how.subframe_id < 8,
        how.tow_count < 0x2_0000,
        how.alert_flag == info_bits@[17],
        how.anti_spoof_flag == info_bits@[18],
{
    let bits: &[bool] = info_bits;
    let tow_count: u32 = bits_to_u32(vstd::slice::slice_subrange(bits, 0, 17));
    let id: u32 = bits_to_u32(vstd::slice::slice_subrange(bits, 19, 22));
    proof {
        crate::navigation::bits::lemma_bits_value_bound(info_bits@.subrange(0, 17));
        crate::navigation::bits::lemma_bits_value_bound(info_bits@.subrange(19, 22));
        vstd::arithmetic::power2::lemma2_to64();
    }
    HowWord {
        tow_count,
        subframe_id: id as u8,
        alert_flag: info_bits[17],
        anti_spoof_flag: info_bits[18],
    }
}

/// What a [`FrameDecoder`] holds between two bits.
#[verifier::ext_equal]
pub struct DecoderModel {
    /// State of the search.
    pub state: DecodeState,
    /// Received bits that are not yet part of a word.
    pub buffer: Seq<bool>,
    /// Last two bits of the last word that passed its parity check.
    pub prev: (bool, bool),
    /// Information bits of the words of the current subframe.
    pub words: Seq<Seq<bool>>,
    /// Failures that are retried before the decoder starts over.
    pub max_retries: int,
    /// Failures retried since the last confirmed preamble or resynchronisation.
    pub retries: int,
    /// Counters.
    pub stats: StatsModel,
}

/// A decoder that has seen no bit.
pub open spec fn decoder_start(max_retries: int) -> DecoderModel {
    DecoderModel {
        state: DecodeState::SearchingPreamble,
        buffer: Seq::empty(),
        prev: (false, false),
        words: Seq::empty(),
        max_retries,
        retries: 0,
        stats: stats_zero(),
    }
}

/// What a bit leads to: the decoder afterwards and what it reports.
pub type Step = (DecoderModel, Result<Option<SubframeModel>, FrameDecodeError>);

/// The last 30 bits of `bits`.
pub open spec fn last_word(bits: Seq<bool>) -> Seq<bool> {
    if bits.len() > 30 {
        bits.skip(1)
    } else {
        bits
    }
}

/// Whether the first eight bits are the TLM preamble once the inversion by the
/// preceding word is undone.
pub open spec fn preamble_found(window: Seq<bool>, inverted: bool) -> bool {
    forall|i: int| 0 <= i < 8 ==> (#[trigger] window[i] ^ inverted) == TLM_PREAMBLE@[i]
}

/// A parity failure: a search from the next bit on, or, with the retries used
/// up, a fresh start.
pub open spec fn after_failure(m: DecoderModel, word_index: int) -> Step {
    let failures = m.stats.failures + 1;
    if m.retries >= m.max_retries {
        (
            DecoderModel {
                stats: StatsModel { failures, resyncs: m.stats.resyncs + 1, ..m.stats },
                ..decoder_start(m.max_retries)
            },
            Err(FrameDecodeError::PreambleNotFound),
        )
    } else {
        (
            DecoderModel {
                state: DecodeState::SearchingPreamble,
                buffer: m.buffer.skip(1),
                words: Seq::empty(),
                retries: m.retries + 1,
                stats: StatsModel { failures, ..m.stats },
                ..m
            },
            Err(FrameDecodeError::ParityMismatch { word_index: word_index as usize }),
        )
    }
}

/// The word in the buffer begins with the preamble: its parity decides whether
/// it is the first word of a subframe.
pub open spec fn after_candidate(m: DecoderModel) -> Step {
    if parity_holds(m.buffer, m.prev) {
        (
            DecoderModel {
                state: DecodeState::Collecting { bits_collected: 30 },
                buffer: Seq::empty(),
                prev: (m.buffer[28], m.buffer[29]),
                words: seq![info_of(m.buffer, m.prev)],
                retries: 0,
                stats: StatsModel { confirmed: m.stats.confirmed + 1, ..m.stats },
                ..m
            },
            Ok(None),
        )
    } else {
        after_failure(m, 0)
    }
}

/// A bit while the preamble is being searched for.
pub open spec fn step_searching(m: DecoderModel, bit: bool) -> Step {
    let buffer = last_word(m.buffer.push(bit));
    let next = DecoderModel { buffer, ..m };
    if buffer.len() == 30 && preamble_found(buffer, m.prev.1) {
        after_candidate(next)
    } else {
        (next, Ok(None))
    }
}

/// A bit while the word behind a preamble is being completed.
pub open spec fn step_verifying(m: DecoderModel, bit: bool) -> Step {
    let buffer = last_word(m.buffer.push(bit));
    let next = DecoderModel { buffer, ..m };
    if buffer.len() == 30 {
        after_candidate(next)
    } else {
        (next, Ok(None))
    }
}

/// A bit while the words of a subframe are being collected.
pub open spec fn step_collecting(m: DecoderModel, bit: bool) -> Step {
    let buffer = m.buffer.push(bit);
    let collected = (m.state->bits_collected + 1) as usize;
    if buffer.len() < 30 {
        (
            DecoderModel {
                state: DecodeState::Collecting { bits_collected: collected },
                buffer,
                ..m
            },
            Ok(None),
        )
    } else if !parity_holds(buffer, m.prev) {
        after_failure(DecoderModel { buffer, ..m }, m.words.len() as int)
    } else {
        let prev = (buffer[28], buffer[29]);
        let words = m.words.push(info_of(buffer, m.prev));
        if words.len() < 10 {
            (
                DecoderModel {
                    state: DecodeState::Collecting { bits_collected: collected },
                    buffer: Seq::empty(),
                    prev,
                    words,
                    ..m
                },
                Ok(None),
            )
        } else {
            (
                DecoderModel {
                    state: DecodeState::SearchingPreamble,
                    buffer: Seq::empty(),
                    prev,
                    words: Seq::empty(),
                    stats: StatsModel { decoded: m.stats.decoded + 1, ..m.stats },
                    ..m
                },
                Ok(Some(subframe_of(words))),
            )
        }
    }
}

/// What one more bit leads to.
pub open spec fn decoder_step(m: DecoderModel, bit: bool) -> Step {
    match m.state {
        DecodeState::SearchingPreamble => step_searching(m, bit),
        DecodeState::VerifyingAlignment { offset } => step_verifying(m, bit),
        DecodeState::Collecting { bits_collected } => step_collecting(m, bit),
    }
}

/// What every decoder keeps between two bits: a buffer of at most one word, no
/// words outside a subframe, and inside one between one and nine words, which
/// together with the buffer are the bits collected.
pub open spec fn decoder_wf(m: DecoderModel) -> bool {
    &&& 0 <= m.retries <= m.max_retries
    &&& forall|i: int| 0 <= i < m.words.len() ==> (#[trigger] m.words[i]).len() == 24
    &&& match m.state {
        DecodeState::Collecting { bits_collected } => {
            &&& 1 <= m.words.len() <= 9
            &&& m.buffer.len() < 30
            &&& bits_collected == 30 * m.words.len() + m.buffer.len()
        },
        _ => m.buffer.len() <= 30 && m.words.len() == 0,
    }
}

/// Finds and decodes the subframes in a stream of navigation bits.
///
/// While searching, the last 30 bits are kept. When they begin with the TLM
/// preamble and pass the parity check of a word, the nine words that follow are
/// collected. A parity failure is retried from the next bit on, a limited
/// number of times; then the decoder starts over.
pub struct FrameDecoder {
    state: DecodeState,
    bit_buffer: VecDeque<bool>,
    prev_d29_d30: (bool, bool),
    current_words: Vec<[bool; 24]>,
    retry: RetryPolicy,
    retries_since_resync: usize,
    stats: FrameDecoderStats,
}

/// The bits of each word of `words`.
spec fn word_bits(words: Seq<[bool; 24]>) -> Seq<Seq<bool>> {
    Seq::new(words.len(), |i: int| words[i]@)
}

/// What an outcome says, with a subframe given by its bits.
pub open spec fn outcome_view(
    outcome: Result<Option<DecodedSubframe>, FrameDecodeError>,
) -> Result<Option<SubframeModel>, FrameDecodeError> {
    match outcome {
        Ok(Some(subframe)) => Ok(Some(subframe@)),
        Ok(None) => Ok(None),
        Err(e) => Err(e),
    }
}

impl FrameDecoder {
    /// What the decoder holds.
    pub closed spec fn view(&self) -> DecoderModel {
        DecoderModel {
            state: self.state,
            buffer: self.bit_buffer@,
            prev: self.prev_d29_d30,
            words: word_bits(self.current_words@),
            max_retries: self.retry.max_retries_before_full_resync as int,
            retries: self.retries_since_resync as int,
            stats: self.stats@,
        }
    }

    /// The counters have room for one more event of each kind.
    pub open spec fn has_room(&self) -> bool {
        &&& self@.stats.confirmed < u64::MAX
        &&& self@.stats.failures < u64::MAX
        &&& self@.stats.decoded < u64::MAX
        &&& self@.stats.resyncs < u64::MAX
    }

    /// A decoder with the given number of retries.
    pub fn new(retry: RetryPolicy) -> (decoder: Self)
        ensures
            decoder@ == decoder_start(retry.max_retries_before_full_resync as int),
            decoder_wf(decoder@),
    {
        let decoder = FrameDecoder {
            state: DecodeState::SearchingPreamble,
            bit_buffer: VecDeque::with_capacity(SUBFRAME_LENGTH_BITS),
            prev_d29_d30: (false, false),
            current_words: Vec::with_capacity(WORDS_PER_SUBFRAME),
            retry,
            retries_since_resync: 0,
            stats: FrameDecoderStats::default(),
        };
        assert(decoder@.words =~= Seq::empty());
        decoder
    }

    /// A decoder with the default number of retries.
    pub fn with_defaults() -> (decoder: Self)
        ensures
            decoder@ == decoder_start(3),
            decoder_wf(decoder@),
    {
        Self::new(RetryPolicy::default())
    }

    /// State of the decoder.
    pub fn state(&self) -> (state: DecodeState)
        ensures
            state == self@.state,
    {
        self.state
    }

    /// Counters of the decoder.
    pub fn stats(&self) -> (stats: FrameDecoderStats)
        ensures
            stats@ == self@.stats,
    {
        self.stats
    }

    /// Takes one navigation bit. Returns a subframe when the bit completes one,
    /// and an error when the bit completes a word whose parity fails.
    pub fn push_bit(&mut self, bit: bool) -> (outcome: Result<
        Option<DecodedSubframe>,
        FrameDecodeError,
    >)
        requires
            decoder_wf(old(self)@),
            old(self).has_room(),
        ensures
            decoder_wf(final(self)@),
            (final(self)@, outcome_view(outcome)) == decoder_step(old(self)@, bit),
    {
        match self.state {
            DecodeState::SearchingPreamble => self.step_searching(bit),
            DecodeState::VerifyingAlignment { .. } => self.step_verifying(bit),
            DecodeState::Collecting { bits_collected } => self.step_collecting(bit, bits_collected),
        }
    }

    /// Adds a bit to the buffer, which keeps at most the last 30.
    fn shift_in(&mut self, bit: bool)
        requires
            old(self)@.buffer.len() <= 30,
        ensures
            final(self)@ == (DecoderModel { buffer: last_word(old(self)@.buffer.push(bit)), ..old(
                self,
            )@ }),
    {
        self.bit_buffer.push_back(bit);
        if self.bit_buffer.len() > WORD_LENGTH_BITS {
            self.bit_buffer.pop_front();
            assert(self.bit_buffer@ =~= old(self).bit_buffer@.push(bit).skip(1));
        }
    }

    /// The 30 bits in the buffer.
    fn buffered_word(&self) -> (word: [bool; 30])
        requires
            self@.buffer.len() == 30,
        ensures
            word@ == self@.buffer,
    {
        let mut word: [bool; 30] = [false; 30];
        let mut i: usize = 0;
        while i < 30
            invariant
                i <= 30,
                self.bit_buffer@.len() == 30,
                forall|j: int| 0 <= j < i ==> word@[j] == self.bit_buffer@[j],
            decreases 30 - i,
        {
            word[i] = self.bit_buffer[i];
            i = i + 1;
        }
        assert(word@ =~= self.bit_buffer@);
        word
    }

    fn step_searching(&mut self, bit: bool) -> (outcome: Result<
        Option<DecodedSubframe>,
        FrameDecodeError,
    >)
        requires
            decoder_wf(old(self)@),
            old(self).has_room(),
            old(self)@.state is SearchingPreamble,
        ensures
            decoder_wf(final(self)@),
            (final(self)@, outcome_view(outcome)) == step_searching(old(self)@, bit),
    {
        self.shift_in(bit);
        if self.bit_buffer.len() < WORD_LENGTH_BITS {
            return Ok(None);
        }
        let mut i: usize = 0;
        while i < 8
            invariant
                i <= 8,
                self.bit_buffer@.len() == 30,
                forall|j: int|
                    0 <= j < i ==> (#[trigger] self.bit_buffer@[j] ^ self.prev_d29_d30.1)
                        == TLM_PREAMBLE@[j],
                self@ == (DecoderModel { buffer: last_word(old(self)@.buffer.push(bit)), ..old(
                    self,
                )@ }),
                decoder_wf(self@),
            decreases 8 - i,
        {
            if (self.bit_buffer[i] ^ self.prev_d29_d30.1) != TLM_PREAMBLE[i] {
                assert((self@.buffer[i as int] ^ self@.prev.1) != TLM_PREAMBLE@[i as int]);
                return Ok(None);
            }
            i = i + 1;
        }
        self.try_verify_current_word()
    }

    fn step_verifying(&mut self, bit: bool) -> (outcome: Result<
        Option<DecodedSubframe>,
        FrameDecodeError,
    >)
        requires
            decoder_wf(old(self)@),
            old(self).has_room(),
            old(self)@.state is VerifyingAlignment,
        ensures
            decoder_wf(final(self)@),
            (final(self)@, outcome_view(outcome)) == step_verifying(old(self)@, bit),
    {
        self.shift_in(bit);
        if self.bit_buffer.len() < WORD_LENGTH_BITS {
            return Ok(None);
        }
        self.try_verify_current_word()
    }

    /// Checks the parity of the word in the buffer, which begins with the
    /// preamble.
    fn try_verify_current_word(&mut self) -> (outcome: Result<
        Option<DecodedSubframe>,
        FrameDecodeError,
    >)
        requires
            decoder_wf(old(self)@),
            old(self).has_room(),
            !(old(self)@.state is Collecting),
            old(self)@.buffer.len() == 30,
        ensures
            decoder_wf(final(self)@),
            (final(self)@, outcome_view(outcome)) == after_candidate(old(self)@),
    {
        let word = self.buffered_word();
        match check_and_correct_parity(&word, self.prev_d29_d30) {
            Some(info_bits) => {
                self.stats.preambles_confirmed = self.stats.preambles_confirmed + 1;
                self.prev_d29_d30 = (word[28], word[29]);
                self.current_words.clear();
                self.current_words.push(info_bits);
                self.bit_buffer.clear();
                self.state = DecodeState::Collecting { bits_collected: WORD_LENGTH_BITS };
                self.retries_since_resync = 0;
                assert(self@.words =~= seq![info_of(old(self)@.buffer, old(self)@.prev)]);
                Ok(None)
            },
            None => self.handle_failure(0),
        }
    }

    fn step_collecting(&mut self, bit: bool, bits_collected: usize) -> (outcome: Result<
        Option<DecodedSubframe>,
        FrameDecodeError,
    >)
        requires
            decoder_wf(old(self)@),
            old(self).has_room(),
            old(self)@.state == (DecodeState::Collecting { bits_collected }),
        ensures
            decoder_wf(final(self)@),
            (final(self)@, outcome_view(outcome)) == step_collecting(old(self)@, bit),
    {
        self.bit_buffer.push_back(bit);
        let new_bits_collected: usize = bits_collected + 1;
        if self.bit_buffer.len() < WORD_LENGTH_BITS {
            self.state = DecodeState::Collecting { bits_collected: new_bits_collected };
            return Ok(None);
        }
        let word = self.buffered_word();
        let word_index: usize = self.current_words.len();
        match check_and_correct_parity(&word, self.prev_d29_d30) {
            Some(info_bits) => {
                self.prev_d29_d30 = (word[28], word[29]);
                self.current_words.push(info_bits);
                self.bit_buffer.clear();
                assert(self@.words =~= old(self)@.words.push(info_bits@));
                if self.current_words.len() == WORDS_PER_SUBFRAME {
                    let subframe = self.finalize_subframe();
                    self.reset_for_next_subframe();
                    Ok(Some(subframe))
                } else {
                    self.state = DecodeState::Collecting { bits_collected: new_bits_collected };
                    Ok(None)
                }
            },
            None => self.handle_failure(word_index),
        }
    }

    /// The subframe made of the ten words collected.
    fn finalize_subframe(&self) -> (subframe: DecodedSubframe)
        requires
            self@.words.len() == 10,
        ensures
            subframe@ == subframe_of(self@.words),
    {
        let how = parse_how_word(&self.current_words[1]);
        let mut words: [[bool; 24]; 10] = [[false; 24]; 10];
        let mut i: usize = 0;
        while i < 10
            invariant
                i <= 10,
                self.current_words@.len() == 10,
                forall|j: int| 0 <= j < i ==> words@[j] == self.current_words@[j],
            decreases 10 - i,
        {
            words[i] = self.current_words[i];
            i = i + 1;
        }
        let subframe = DecodedSubframe { subframe_id: how.subframe_id, how, words };
        assert(self@.words[1] == self.current_words@[1]@);
        assert(subframe@.words =~= self@.words);
        subframe
    }

    fn reset_for_next_subframe(&mut self)
        requires
            old(self)@.stats.decoded < u64::MAX,
        ensures
            final(self)@ == (DecoderModel {
                state: DecodeState::SearchingPreamble,
                buffer: Seq::empty(),
                words: Seq::empty(),
                stats: StatsModel {
                    decoded: old(self)@.stats.decoded + 1,
                    ..old(self)@.stats
                },
                ..old(self)@
            }),
    {
        self.stats.subframes_decoded = self.stats.subframes_decoded + 1;
        self.current_words.clear();
        self.bit_buffer.clear();
        self.state = DecodeState::SearchingPreamble;
        assert(self@.words =~= Seq::empty());
    }

    /// Counts a parity failure and either moves the search on by one bit or,
    /// with the retries used up, starts over.
    fn handle_failure(&mut self, word_index: usize) -> (outcome: Result<
        Option<DecodedSubframe>,
        FrameDecodeError,
    >)
        requires
            old(self).has_room(),
            0 < old(self)@.buffer.len() <= 30,
            0 <= old(self)@.retries <= old(self)@.max_retries,
        ensures
            decoder_wf(final(self)@),
            (final(self)@, outcome_view(outcome)) == after_failure(old(self)@, word_index as int),
    {
        self.stats.parity_failures = self.stats.parity_failures + 1;
        if self.retries_since_resync >= self.retry.max_retries_before_full_resync {
            self.full_resync();
            return Err(FrameDecodeError::PreambleNotFound);
        }
        self.retries_since_resync = self.retries_since_resync + 1;
        self.current_words.clear();
        self.state = DecodeState::SearchingPreamble;
        self.bit_buffer.pop_front();
        assert(self.bit_buffer@ =~= old(self).bit_buffer@.skip(1));
        assert(self@.words =~= Seq::empty());
        Err(FrameDecodeError::ParityMismatch { word_index })
    }

    fn full_resync(&mut self)
        requires
            old(self)@.stats.resyncs < u64::MAX,
        ensures
            final(self)@ == (DecoderModel {
                stats: StatsModel {
                    resyncs: old(self)@.stats.resyncs + 1,
                    ..old(self)@.stats
                },
                ..decoder_start(old(self)@.max_retries)
            }),
    {
        self.stats.full_resyncs = self.stats.full_resyncs + 1;
        self.state = DecodeState::SearchingPreamble;
        self.bit_buffer.clear();
        self.current_words.clear();
        self.prev_d29_d30 = (false, false);
        self.retries_since_resync = 0;
        assert(self@.words =~= Seq::empty());
    }
}

/// A subframe holds its ten words as they came, and what its handover word says
/// stands in the second of them: the count in the first 17 bits, most significant
/// first, then the alert flag, the anti-spoof flag and the number of the subframe in
/// three bits.
pub proof fn law_handover_word_is_read_in_place(words: Seq<Seq<bool>>, i: int)
    requires
        words.len() == 10,
        words[1].len() == 24,
    ensures
        ({
            let s = subframe_of(words);
            &&& s.words == words
            &&& s.how.tow_count < 0x2_0000
            &&& s.how.subframe_id < 8
            &&& s.subframe_id == s.how.subframe_id
            &&& s.how.alert_flag == words[1][17]
            &&& s.how.anti_spoof_flag == words[1][18]
            &&& 0 <= i < 17 ==> (words[1][i] <==> (s.how.tow_count as nat / pow2(
                (16 - i) as nat,
            )) % 2 == 1)
            &&& 0 <= i < 3 ==> (words[1][19 + i] <==> (s.subframe_id as nat / pow2(
                (2 - i) as nat,
            )) % 2 == 1)
        }),
{
    let count = words[1].subrange(0, 17);
    let id = words[1].subrange(19, 22);
    crate::navigation::bits::lemma_bits_value_bound(count);
    crate::navigation::bits::lemma_bits_value_bound(id);
    vstd::arithmetic::power2::lemma2_to64();
    if 0 <= i < 17 {
        law_bits_are_binary_digits(count, i);
    }
    if 0 <= i < 3 {
        law_bits_are_binary_digits(id, i);
    }
}

proof fn lemma_first_byte(bits: Seq<bool>)
    requires
        bits.len() >= 8,
    ensures
        bits_value(bits.take(8)) == 128 * bit_weight(bits[0]) + 64 * bit_weight(bits[1]) + 32
            * bit_weight(bits[2]) + 16 * bit_weight(bits[3]) + 8 * bit_weight(bits[4]) + 4
            * bit_weight(bits[5]) + 2 * bit_weight(bits[6]) + bit_weight(bits[7]),
{
    assert(bits.take(8).drop_last() =~= bits.take(7));
    assert(bits.take(7).drop_last() =~= bits.take(6));
    assert(bits.take(6).drop_last() =~= bits.take(5));
    assert(bits.take(5).drop_last() =~= bits.take(4));
    assert(bits.take(4).drop_last() =~= bits.take(3));
    assert(bits.take(3).drop_last() =~= bits.take(2));
    assert(bits.take(2).drop_last() =~= bits.take(1));
    assert(bits.take(1).drop_last() =~= bits.take(0));
    assert(bits_value(bits.take(0)) == 0);
    assert(bits_value(bits.take(1)) == bit_weight(bits[0]));
    assert(bits_value(bits.take(2)) == 2 * bits_value(bits.take(1)) + bit_weight(bits[1]));
    assert(bits_value(bits.take(3)) == 2 * bits_value(bits.take(2)) + bit_weight(bits[2]));
    assert(bits_value(bits.take(4)) == 2 * bits_value(bits.take(3)) + bit_weight(bits[3]));
    assert(bits_value(bits.take(5)) == 2 * bits_value(bits.take(4)) + bit_weight(bits[4]));
    assert(bits_value(bits.take(6)) == 2 * bits_value(bits.take(5)) + bit_weight(bits[5]));
    assert(bits_value(bits.take(7)) == 2 * bits_value(bits.take(6)) + bit_weight(bits[6]));
}

/// What a bit adds at the lowest place.
spec fn bit_weight(bit: bool) -> nat {
    if bit {
        1
    } else {
        0
    }
}

/// The preamble is the number 139 in eight bits, and after an inverting word the
/// number 116, which is what is left of 255.
pub proof fn law_preamble_is_a_number(bits: Seq<bool>, inverted: bool)
    ensures
        starts_with_preamble(bits) <==> bits.len() >= 8 && bits_value(bits.take(8)) == 0b1000_1011,
        bits.len() >= 8 ==> (preamble_found(bits, inverted) <==> bits_value(bits.take(8)) == (
        if inverted {
            0b0111_0100nat
        } else {
            0b1000_1011nat
        })),
{
    let p = TLM_PREAMBLE@;
    assert(p[0] && !p[1] && !p[2] && !p[3] && p[4] && !p[5] && p[6] && p[7]);
    if bits.len() >= 8 {
        lemma_first_byte(bits);
        if starts_with_preamble(bits) {
            assert(bits[0] && !bits[1] && !bits[2] && !bits[3] && bits[4] && !bits[5] && bits[6]
                && bits[7]);
        }
        if preamble_found(bits, inverted) {
            assert((bits[0] ^ inverted) == p[0]);
            assert((bits[1] ^ inverted) == p[1]);
            assert((bits[2] ^ inverted) == p[2]);
            assert((bits[3] ^ inverted) == p[3]);
            assert((bits[4] ^ inverted) == p[4]);
            assert((bits[5] ^ inverted) == p[5]);
            assert((bits[6] ^ inverted) == p[6]);
            assert((bits[7] ^ inverted) == p[7]);
        }
        if bits_value(bits.take(8)) == 139 {
            assert(bits[0] && !bits[1] && !bits[2] && !bits[3] && bits[4] && !bits[5] && bits[6]
                && bits[7]);
        }
        if bits_value(bits.take(8)) == 116 {
            assert(!bits[0] && bits[1] && bits[2] && bits[3] && !bits[4] && bits[5] && !bits[6]
                && !bits[7]);
        }
    }
}

} // verus!
