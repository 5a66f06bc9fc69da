//! What a [`FrameDecoder`](crate::navigation::frame_decoder::FrameDecoder)
//! makes of a whole stream of bits.

use crate::navigation::frame_decoder::{
    after_failure, decoder_step, decoder_wf, last_word, preamble_found, starts_with_preamble,
    step_collecting, step_searching, subframe_of, DecodeState, DecoderModel, FrameDecodeError,
    StatsModel, SubframeModel, TLM_PREAMBLE,
};
use crate::navigation::parity::{
    encode_word, info_of, law_accepted_word_is_encoded, law_encoded_word_is_accepted, parity_holds,
};
use vstd::prelude::*;

verus! {

/// What a decoder reports for one bit.
pub type Outcome = Result<Option<SubframeModel>, FrameDecodeError>;

/// A bit that completes nothing.
pub open spec fn nothing() -> Outcome {
    Ok(None)
}

/// A bit that completes the subframe made of `words`.
pub open spec fn delivery(words: Seq<Seq<bool>>) -> Outcome {
    Ok(Some(subframe_of(words)))
}

/// The decoder after the bits of `bits`, and what it reported for each.
pub open spec fn decoder_run(m: DecoderModel, bits: Seq<bool>) -> (DecoderModel, Seq<Outcome>)
    decreases bits.len(),
{
    if bits.len() == 0 {
        (m, Seq::empty())
    } else {
        let (before, outcomes) = decoder_run(m, bits.drop_last());
        let (after, outcome) = decoder_step(before, bits.last());
        (after, outcomes.push(outcome))
    }
}

/// The last two transmitted bits after the words of `words`.
pub open spec fn prev_after(words: Seq<Seq<bool>>, prev: (bool, bool)) -> (bool, bool)
    decreases words.len(),
{
    if words.len() == 0 {
        prev
    } else {
        let word = encode_word(words.last(), prev_after(words.drop_last(), prev));
        (word[28], word[29])
    }
}

/// The transmitted bits that carry the words of `words`, one after the other.
pub open spec fn encode_words(words: Seq<Seq<bool>>, prev: (bool, bool)) -> Seq<bool>
    decreases words.len(),
{
    if words.len() == 0 {
        Seq::empty()
    } else {
        encode_words(words.drop_last(), prev) + encode_word(
            words.last(),
            prev_after(words.drop_last(), prev),
        )
    }
}

/// Ten words of 24 bits, the first of which begins with the TLM preamble.
pub open spec fn is_subframe(words: Seq<Seq<bool>>) -> bool {
    &&& words.len() == 10
    &&& forall|i: int| 0 <= i < 10 ==> (#[trigger] words[i]).len() == 24
    &&& starts_with_preamble(words[0])
}

/// A decoder at a subframe boundary: searching, with nothing in its buffer.
pub open spec fn at_boundary(m: DecoderModel) -> bool {
    decoder_wf(m) && m.state is SearchingPreamble && m.buffer.len() == 0
}

/// The encoding of a prefix of the words is a prefix of the encoding.
proof fn lemma_encode_words_prefix(words: Seq<Seq<bool>>, prev: (bool, bool), i: int)
    requires
        0 <= i <= words.len(),
    ensures
        encode_words(words, prev).len() == 30 * words.len(),
        encode_words(words.take(i), prev) == encode_words(words, prev).take(30 * i),
    decreases words.len(),
{
    if i == words.len() {
        assert(words.take(i) =~= words);
        if i > 0 {
            lemma_encode_words_prefix(words.drop_last(), prev, i - 1);
        }
        assert(encode_words(words, prev).take(30 * i) =~= encode_words(words, prev));
    } else {
        lemma_encode_words_prefix(words.drop_last(), prev, i);
        assert(words.drop_last().take(i) =~= words.take(i));
        assert(encode_words(words, prev).take(30 * i) =~= encode_words(
            words.drop_last(),
            prev,
        ).take(30 * i));
    }
}

/// The bits of one word within the encoding of many.
proof fn lemma_encoded_word(words: Seq<Seq<bool>>, prev: (bool, bool), i: int)
    requires
        0 <= i < words.len(),
    ensures
        encode_words(words, prev).len() == 30 * words.len(),
        encode_words(words, prev).subrange(30 * i, 30 * i + 30) == encode_word(
            words[i],
            prev_after(words.take(i), prev),
        ),
        prev_after(words.take(i + 1), prev) == ({
            let word = encode_word(words[i], prev_after(words.take(i), prev));
            (word[28], word[29])
        }),
{
    lemma_encode_words_prefix(words, prev, i);
    lemma_encode_words_prefix(words, prev, i + 1);
    let upto = words.take(i + 1);
    assert(upto.drop_last() =~= words.take(i));
    assert(upto.last() == words[i]);
    let word = encode_word(words[i], prev_after(words.take(i), prev));
    assert(encode_words(upto, prev) == encode_words(words.take(i), prev) + word);
    assert(encode_words(words, prev).subrange(30 * i, 30 * i + 30) =~= encode_words(
        words,
        prev,
    ).take(30 * (i + 1)).subrange(30 * i, 30 * i + 30));
    assert(encode_words(upto, prev).subrange(30 * i, 30 * i + 30) =~= word);
}

/// The decoder after the first `n` bits of a clean subframe.
spec fn in_progress(m: DecoderModel, words: Seq<Seq<bool>>, n: int) -> DecoderModel {
    let bits = encode_words(words, m.prev);
    let i = n / 30;
    if i == 0 {
        DecoderModel { buffer: bits.take(n), ..m }
    } else {
        DecoderModel {
            state: DecodeState::Collecting { bits_collected: n as usize },
            buffer: bits.subrange(30 * i, n),
            prev: prev_after(words.take(i), m.prev),
            words: words.take(i),
            retries: 0,
            stats: StatsModel { confirmed: m.stats.confirmed + 1, ..m.stats },
            ..m
        }
    }
}

/// The decoder after all bits of a clean subframe.
pub open spec fn after_subframe(m: DecoderModel, words: Seq<Seq<bool>>) -> DecoderModel {
    DecoderModel {
        prev: prev_after(words, m.prev),
        retries: 0,
        stats: StatsModel {
            confirmed: m.stats.confirmed + 1,
            decoded: m.stats.decoded + 1,
            ..m.stats
        },
        ..m
    }
}

/// One bit of a clean subframe.
proof fn lemma_clean_bit(m: DecoderModel, words: Seq<Seq<bool>>, n: int)
    requires
        at_boundary(m),
        is_subframe(words),
        0 <= n < 300,
    ensures
        encode_words(words, m.prev).len() == 300,
        n < 299 ==> decoder_step(in_progress(m, words, n), encode_words(words, m.prev)[n]) == (
            in_progress(m, words, n + 1),
            nothing(),
        ),
        n == 299 ==> decoder_step(in_progress(m, words, n), encode_words(words, m.prev)[n]) == (
            after_subframe(m, words),
            delivery(words),
        ),
{
    let bits = encode_words(words, m.prev);
    let i = n / 30;
    let k = n % 30;
    lemma_encoded_word(words, m.prev, i);
    let before = in_progress(m, words, n);
    let bit = bits[n];
    let prev = prev_after(words.take(i), m.prev);
    let word = bits.subrange(30 * i, 30 * i + 30);
    assert(words.take(0) =~= Seq::<Seq<bool>>::empty());
    law_encoded_word_is_accepted(words[i], prev);
    if k < 29 {
        assert((n + 1) / 30 == i);
        assert(before.buffer.push(bit) =~= bits.subrange(30 * i, n + 1));
        if i == 0 {
            assert(bits.subrange(0, n + 1) =~= bits.take(n + 1));
            assert(in_progress(m, words, n + 1) =~= DecoderModel {
                buffer: before.buffer.push(bit),
                ..m
            });
        } else {
            assert(in_progress(m, words, n + 1) =~= step_collecting(before, bit).0);
        }
    } else {
        assert((n + 1) / 30 == i + 1);
        assert(before.buffer.push(bit) =~= word);
        assert(bits.subrange(n + 1, n + 1) =~= Seq::empty());
        if i == 0 {
            assert(words[0][0] == TLM_PREAMBLE@[0]);
            assert forall|j: int| 0 <= j < 8 implies (#[trigger] word[j] ^ m.prev.1)
                == TLM_PREAMBLE@[j] by {
                assert(words[0][j] == TLM_PREAMBLE@[j]);
            }
            assert(preamble_found(word, m.prev.1));
            assert(words.take(1) =~= seq![words[0]]);
            assert(in_progress(m, words, n + 1) =~= step_searching(before, bit).0);
        } else if i < 9 {
            assert(words.take(i + 1) =~= words.take(i).push(words[i]));
            assert(in_progress(m, words, n + 1) =~= step_collecting(before, bit).0);
        } else {
            assert(words.take(9).push(words[9]) =~= words);
            assert(words.take(10) =~= words);
            assert(m.words =~= Seq::empty());
            assert(m.buffer =~= Seq::empty());
            assert(after_subframe(m, words) =~= step_collecting(before, bit).0);
        }
    }
}

proof fn lemma_clean_bits(m: DecoderModel, words: Seq<Seq<bool>>, n: int)
    requires
        at_boundary(m),
        is_subframe(words),
        0 <= n < 300,
    ensures
        encode_words(words, m.prev).len() == 300,
        ({
            let (after, outcomes) = decoder_run(m, encode_words(words, m.prev).take(n));
            &&& after == in_progress(m, words, n)
            &&& outcomes.len() == n
            &&& forall|j: int| 0 <= j < n ==> #[trigger] outcomes[j] == nothing()
        }),
    decreases n,
{
    let bits = encode_words(words, m.prev);
    lemma_encode_words_prefix(words, m.prev, 0);
    if n == 0 {
        assert(m.buffer =~= bits.take(0));
    } else {
        lemma_clean_bits(m, words, n - 1);
        lemma_clean_bit(m, words, n - 1);
        assert(bits.take(n).drop_last() =~= bits.take(n - 1));
    }
}

/// A clean subframe is decoded: a decoder at a subframe boundary that is given
/// the 300 transmitted bits of a subframe reports exactly that subframe, with
/// the last bit, and is at a subframe boundary again, ready for a word that
/// follows the last one.
pub proof fn law_clean_subframe_is_decoded(m: DecoderModel, words: Seq<Seq<bool>>)
    requires
        at_boundary(m),
        is_subframe(words),
    ensures
        ({
            let (after, outcomes) = decoder_run(m, encode_words(words, m.prev));
            &&& after == after_subframe(m, words)
            &&& at_boundary(after)
            &&& outcomes.len() == 300
            &&& forall|j: int| 0 <= j < 299 ==> #[trigger] outcomes[j] == nothing()
            &&& outcomes[299] == delivery(words)
        }),
{
    let bits = encode_words(words, m.prev);
    lemma_clean_bits(m, words, 299);
    lemma_clean_bit(m, words, 299);
    assert(bits.drop_last() =~= bits.take(299));
}

/// Running on: the bits of `b` after those of `a`.
proof fn lemma_run_append(m: DecoderModel, a: Seq<bool>, b: Seq<bool>)
    ensures
        ({
            let (middle, first) = decoder_run(m, a);
            let (after, second) = decoder_run(middle, b);
            decoder_run(m, a + b) == (after, first + second)
        }),
    decreases b.len(),
{
    let (middle, first) = decoder_run(m, a);
    if b.len() == 0 {
        assert(a + b =~= a);
        assert(first + decoder_run(middle, b).1 =~= first);
    } else {
        lemma_run_append(m, a, b.drop_last());
        assert((a + b).drop_last() =~= a + b.drop_last());
        assert((a + b).last() == b.last());
        let (before, outcomes) = decoder_run(middle, b.drop_last());
        let (after, outcome) = decoder_step(before, b.last());
        assert((first + outcomes).push(outcome) =~= first + outcomes.push(outcome));
    }
}

proof fn lemma_run_len(m: DecoderModel, bits: Seq<bool>)
    ensures
        decoder_run(m, bits).1.len() == bits.len(),
    decreases bits.len(),
{
    if bits.len() > 0 {
        lemma_run_len(m, bits.drop_last());
    }
}

/// The last two transmitted bits after the subframes of `frames`.
pub open spec fn prev_after_frames(frames: Seq<Seq<Seq<bool>>>, prev: (bool, bool)) -> (bool, bool)
    decreases frames.len(),
{
    if frames.len() == 0 {
        prev
    } else {
        prev_after(frames.last(), prev_after_frames(frames.drop_last(), prev))
    }
}

/// The transmitted bits of the subframes of `frames`, one after the other.
pub open spec fn encode_frames(frames: Seq<Seq<Seq<bool>>>, prev: (bool, bool)) -> Seq<bool>
    decreases frames.len(),
{
    if frames.len() == 0 {
        Seq::empty()
    } else {
        encode_frames(frames.drop_last(), prev) + encode_words(
            frames.last(),
            prev_after_frames(frames.drop_last(), prev),
        )
    }
}

/// A clean stream is decoded without loss: of subframes that follow each other
/// without a gap, every one is reported, in order, each with its last bit, and
/// nothing else is reported.
pub proof fn law_clean_stream_is_decoded(m: DecoderModel, frames: Seq<Seq<Seq<bool>>>)
    requires
        at_boundary(m),
        forall|f: int| 0 <= f < frames.len() ==> is_subframe(#[trigger] frames[f]),
    ensures
        ({
            let (after, outcomes) = decoder_run(m, encode_frames(frames, m.prev));
            &&& at_boundary(after)
            &&& after.prev == prev_after_frames(frames, m.prev)
            &&& after.stats == (StatsModel {
                confirmed: m.stats.confirmed + frames.len(),
                decoded: m.stats.decoded + frames.len(),
                ..m.stats
            })
            &&& outcomes.len() == 300 * frames.len()
            &&& forall|j: int|
                0 <= j < outcomes.len() ==> #[trigger] outcomes[j] == if j % 300 == 299 {
                    delivery(frames[j / 300])
                } else {
                    nothing()
                }
        }),
    decreases frames.len(),
{
    if frames.len() > 0 {
        let head = frames.drop_last();
        assert forall|f: int| 0 <= f < head.len() implies is_subframe(#[trigger] head[f]) by {
            assert(head[f] == frames[f]);
        }
        law_clean_stream_is_decoded(m, head);
        let n = head.len() as int;
        let (middle, first) = decoder_run(m, encode_frames(head, m.prev));
        let last = frames.last();
        assert(last == frames[n]);
        law_clean_subframe_is_decoded(middle, last);
        lemma_run_append(m, encode_frames(head, m.prev), encode_words(last, middle.prev));
        let (after, second) = decoder_run(middle, encode_words(last, middle.prev));
        let outcomes = first + second;
        assert forall|j: int| 0 <= j < outcomes.len() implies #[trigger] outcomes[j] == if j % 300
            == 299 {
            delivery(frames[j / 300])
        } else {
            nothing()
        } by {
            if j < 300 * n {
                assert(outcomes[j] == first[j]);
            } else {
                let r = j - 300 * n;
                assert(outcomes[j] == second[r]);
                assert(j / 300 == n && j % 300 == r);
            }
        }
    }
}

/// The words and the buffer of a collecting decoder are the last bits of the
/// history `h`, the words as they are transmitted after `start`.
spec fn collected_from(m: DecoderModel, h: Seq<bool>, start: (bool, bool)) -> bool {
    let n = 30 * m.words.len() + m.buffer.len();
    &&& n <= h.len()
    &&& h.skip(h.len() - n) == encode_words(m.words, start) + m.buffer
    &&& m.prev == prev_after(m.words, start)
    &&& starts_with_preamble(m.words[0])
}

/// What a decoder holds is the end of the bits `h` that it was given.
spec fn traced(m: DecoderModel, h: Seq<bool>) -> bool {
    match m.state {
        DecodeState::Collecting { bits_collected } => exists|start: (bool, bool)|
            collected_from(m, h, start),
        _ => m.buffer.len() <= h.len() && h.skip(h.len() - m.buffer.len()) == m.buffer,
    }
}

/// Whether the last 300 bits of `h` are a transmission of `subframe`.
pub open spec fn ends_with_subframe(h: Seq<bool>, subframe: SubframeModel) -> bool {
    &&& is_subframe(subframe.words)
    &&& subframe == subframe_of(subframe.words)
    &&& h.len() >= 300
    &&& exists|start: (bool, bool)|
        h.skip(h.len() - 300) == #[trigger] encode_words(subframe.words, start)
}

/// One word more at the end of an encoding.
proof fn lemma_word_completed(
    words: Seq<Seq<bool>>,
    start: (bool, bool),
    word: Seq<bool>,
)
    requires
        word.len() == 30,
        parity_holds(word, prev_after(words, start)),
    ensures
        ({
            let grown = words.push(info_of(word, prev_after(words, start)));
            &&& encode_words(grown, start) == encode_words(words, start) + word
            &&& prev_after(grown, start) == (word[28], word[29])
        }),
{
    let prev = prev_after(words, start);
    let grown = words.push(info_of(word, prev));
    law_accepted_word_is_encoded(word, prev);
    assert(grown.drop_last() =~= words);
}

proof fn lemma_step_traced(m: DecoderModel, h: Seq<bool>, bit: bool)
    requires
        decoder_wf(m),
        !(m.state is VerifyingAlignment),
        traced(m, h),
    ensures
        decoder_wf(decoder_step(m, bit).0),
        !(decoder_step(m, bit).0.state is VerifyingAlignment),
        traced(decoder_step(m, bit).0, h.push(bit)),
        decoder_step(m, bit).1 matches Ok(Some(subframe)) ==> ends_with_subframe(
            h.push(bit),
            subframe,
        ),
{
    let g = h.push(bit);
    let (after, outcome) = decoder_step(m, bit);
    let buffer = m.buffer.push(bit);
    if m.state is Collecting {
        let start = choose|start: (bool, bool)| collected_from(m, h, start);
        let n = 30 * m.words.len() + m.buffer.len();
        lemma_encode_words_prefix(m.words, start, 0);
        assert(g.skip(g.len() - (n + 1)) =~= h.skip(h.len() - n).push(bit));
        assert((encode_words(m.words, start) + m.buffer).push(bit) =~= encode_words(m.words, start)
            + buffer);
        if buffer.len() < 30 {
            assert(collected_from(after, g, start));
        } else if !parity_holds(buffer, m.prev) {
            lemma_suffix_of_suffix(g, encode_words(m.words, start), buffer);
            assert(after.buffer =~= g.skip(g.len() - after.buffer.len()));
        } else {
            lemma_word_completed(m.words, start, buffer);
            let words = m.words.push(info_of(buffer, m.prev));
            assert(words[0] == m.words[0]);
            assert(g.skip(g.len() - (n + 1)) == encode_words(words, start));
            if words.len() < 10 {
                assert(encode_words(words, start) + Seq::<bool>::empty() =~= encode_words(
                    words,
                    start,
                ));
                assert(collected_from(after, g, start));
            } else {
                assert(g.skip(g.len() - 300) == encode_words(words, start));
                assert(g.skip(g.len() as int) =~= Seq::<bool>::empty());
            }
        }
    } else {
        assert(g.skip(g.len() - buffer.len()) =~= buffer);
        let window = last_word(buffer);
        assert(g.skip(g.len() - window.len()) =~= window);
        if window.len() == 30 && preamble_found(window, m.prev.1) {
            if parity_holds(window, m.prev) {
                let words = seq![info_of(window, m.prev)];
                lemma_word_completed(Seq::empty(), m.prev, window);
                assert(Seq::<Seq<bool>>::empty().push(info_of(window, m.prev)) =~= words);
                assert(Seq::<bool>::empty() + window =~= window);
                assert(encode_words(words, m.prev) + Seq::<bool>::empty() =~= window);
                assert forall|i: int| 0 <= i < 8 implies #[trigger] words[0][i]
                    == TLM_PREAMBLE@[i] by {
                    assert((window[i] ^ m.prev.1) == TLM_PREAMBLE@[i]);
                }
                assert(collected_from(after, g, m.prev));
            } else {
                assert(after.buffer =~= g.skip(g.len() - after.buffer.len()));
            }
        }
    }
}

proof fn lemma_suffix_of_suffix(g: Seq<bool>, a: Seq<bool>, b: Seq<bool>)
    requires
        a.len() + b.len() <= g.len(),
        g.skip(g.len() - (a.len() + b.len())) == a + b,
    ensures
        g.skip(g.len() - b.len()) == b,
{
    assert forall|i: int| 0 <= i < b.len() implies g.skip(g.len() - b.len())[i] == b[i] by {
        assert((a + b)[a.len() + i] == b[i]);
        assert(g.skip(g.len() - (a.len() + b.len()))[a.len() + i] == b[i]);
    }
    assert(g.skip(g.len() - b.len()) =~= b);
}

proof fn lemma_run_traced(m: DecoderModel, bits: Seq<bool>)
    requires
        at_boundary(m),
    ensures
        decoder_wf(decoder_run(m, bits).0),
        !(decoder_run(m, bits).0.state is VerifyingAlignment),
        traced(decoder_run(m, bits).0, bits),
    decreases bits.len(),
{
    if bits.len() == 0 {
        assert(bits.skip(0) =~= m.buffer);
    } else {
        lemma_run_traced(m, bits.drop_last());
        lemma_step_traced(decoder_run(m, bits.drop_last()).0, bits.drop_last(), bits.last());
        assert(bits.drop_last().push(bits.last()) =~= bits);
    }
}

/// Nothing is made up: whatever bits a decoder is given, a subframe that it
/// reports is one whose 300 bits, preamble and parity included, are exactly the
/// last 300 bits received.
pub proof fn law_reported_subframe_was_received(m: DecoderModel, bits: Seq<bool>, i: int)
    requires
        at_boundary(m),
        0 <= i < bits.len(),
    ensures
        decoder_run(m, bits).1.len() == bits.len(),
        decoder_run(m, bits).1[i] matches Ok(Some(subframe)) ==> ends_with_subframe(
            bits.take(i + 1),
            subframe,
        ),
    decreases bits.len(),
{
    lemma_run_len(m, bits);
    lemma_run_len(m, bits.drop_last());
    let head = bits.drop_last();
    if i < head.len() {
        law_reported_subframe_was_received(m, head, i);
        assert(head.take(i + 1) =~= bits.take(i + 1));
    } else {
        lemma_run_traced(m, head);
        lemma_step_traced(decoder_run(m, head).0, head, bits.last());
        assert(head.push(bits.last()) =~= bits.take(i + 1));
    }
}

/// Every state that a decoder reaches is well formed, and the word behind a
/// preamble is always checked at once: no decoder is found in between.
pub proof fn law_reached_states(m: DecoderModel, bits: Seq<bool>)
    requires
        at_boundary(m),
    ensures
        decoder_wf(decoder_run(m, bits).0),
        !(decoder_run(m, bits).0.state is VerifyingAlignment),
{
    lemma_run_traced(m, bits);
}

/// Number of outcomes of one kind.
pub open spec fn count_outcomes(outcomes: Seq<Outcome>, kind: spec_fn(Outcome) -> bool) -> int
    decreases outcomes.len(),
{
    if outcomes.len() == 0 {
        0
    } else {
        count_outcomes(outcomes.drop_last(), kind) + if kind(outcomes.last()) {
            1int
        } else {
            0int
        }
    }
}

/// The counters tell what was reported: the failures are the errors, the
/// resynchronisations those that report a lost preamble, and the decoded
/// subframes those delivered.
pub proof fn law_counters_count_outcomes(m: DecoderModel, bits: Seq<bool>)
    ensures
        ({
            let (after, outcomes) = decoder_run(m, bits);
            &&& after.stats.failures == m.stats.failures + count_outcomes(
                outcomes,
                |o: Outcome| o is Err,
            )
            &&& after.stats.resyncs == m.stats.resyncs + count_outcomes(
                outcomes,
                |o: Outcome| o == Err::<Option<SubframeModel>, FrameDecodeError>(
                    FrameDecodeError::PreambleNotFound,
                ),
            )
            &&& after.stats.decoded == m.stats.decoded + count_outcomes(
                outcomes,
                |o: Outcome| o matches Ok(Some(subframe)),
            )
        }),
    decreases bits.len(),
{
    if bits.len() > 0 {
        law_counters_count_outcomes(m, bits.drop_last());
        let (before, outcomes) = decoder_run(m, bits.drop_last());
        let (after, outcome) = decoder_step(before, bits.last());
        assert(outcomes.push(outcome).drop_last() =~= outcomes);
    }
}

/// The retries are bounded: after `max_retries` parity failures without a
/// confirmed preamble in between, the next failure starts the decoder over,
/// with nothing kept but the counters.
pub proof fn law_retries_are_bounded(m: DecoderModel, word_index: int)
    requires
        decoder_wf(m),
    ensures
        m.retries < m.max_retries ==> after_failure(m, word_index).0.retries == m.retries + 1,
        m.retries == m.max_retries ==> after_failure(m, word_index) == (
            DecoderModel {
                stats: StatsModel {
                    failures: m.stats.failures + 1,
                    resyncs: m.stats.resyncs + 1,
                    ..m.stats
                },
                ..crate::navigation::frame_decoder::decoder_start(m.max_retries)
            },
            Err::<Option<SubframeModel>, FrameDecodeError>(FrameDecodeError::PreambleNotFound),
        ),
{
}

/// The last 30 bits, or all of fewer.
spec fn last_bits(bits: Seq<bool>) -> Seq<bool> {
    if bits.len() > 30 {
        bits.skip(bits.len() - 30)
    } else {
        bits
    }
}

/// Whether no 30 bits that begin within the first `n` look like the beginning of
/// a subframe.
pub open spec fn no_preamble_before(bits: Seq<bool>, n: int, inverted: bool) -> bool {
    forall|i: int|
        0 <= i < n && i + 30 <= bits.len() ==> !preamble_found(
            #[trigger] bits.subrange(i, i + 30),
            inverted,
        )
}

/// While nothing looks like a preamble, the decoder keeps the last bits.
proof fn lemma_search_on(m: DecoderModel, bits: Seq<bool>, n: int, offset: int)
    requires
        at_boundary(m),
        0 <= n <= bits.len(),
        n < offset + 30,
        no_preamble_before(bits, offset, m.prev.1),
    ensures
        ({
            let (after, outcomes) = decoder_run(m, bits.take(n));
            &&& after == (DecoderModel { buffer: last_bits(bits.take(n)), ..m })
            &&& outcomes.len() == n
            &&& forall|j: int| 0 <= j < n ==> #[trigger] outcomes[j] == nothing()
        }),
    decreases n,
{
    if n == 0 {
        assert(m.buffer =~= last_bits(bits.take(0)));
    } else {
        lemma_search_on(m, bits, n - 1, offset);
        assert(bits.take(n).drop_last() =~= bits.take(n - 1));
        let before = DecoderModel { buffer: last_bits(bits.take(n - 1)), ..m };
        let buffer = last_word(before.buffer.push(bits[n - 1]));
        assert(buffer =~= last_bits(bits.take(n)));
        if n >= 30 {
            assert(buffer =~= bits.subrange(n - 30, n - 30 + 30));
            assert(!preamble_found(bits.subrange(n - 30, n - 30 + 30), m.prev.1));
        }
    }
}

/// The words behind the first one of a clean subframe.
proof fn lemma_remaining_words(m: DecoderModel, words: Seq<Seq<bool>>, n: int)
    requires
        at_boundary(m),
        is_subframe(words),
        30 <= n < 300,
    ensures
        encode_words(words, m.prev).len() == 300,
        ({
            let bits = encode_words(words, m.prev);
            let (after, outcomes) = decoder_run(in_progress(m, words, 30), bits.subrange(30, n));
            &&& after == in_progress(m, words, n)
            &&& outcomes.len() == n - 30
            &&& forall|j: int| 0 <= j < n - 30 ==> #[trigger] outcomes[j] == nothing()
        }),
    decreases n,
{
    let bits = encode_words(words, m.prev);
    lemma_encode_words_prefix(words, m.prev, 0);
    if n == 30 {
        assert(bits.subrange(30, 30) =~= Seq::empty());
    } else {
        lemma_remaining_words(m, words, n - 1);
        lemma_clean_bit(m, words, n - 1);
        assert(bits.subrange(30, n).drop_last() =~= bits.subrange(30, n - 1));
    }
}

/// A subframe is found at any bit offset: behind any bits among which nothing
/// looks like a preamble, a clean subframe is reported with its last bit, and
/// nothing is reported before.
pub proof fn law_subframe_is_found_at_any_offset(
    m: DecoderModel,
    noise: Seq<bool>,
    words: Seq<Seq<bool>>,
)
    requires
        at_boundary(m),
        is_subframe(words),
        no_preamble_before(noise + encode_words(words, m.prev), noise.len() as int, m.prev.1),
    ensures
        ({
            let (after, outcomes) = decoder_run(m, noise + encode_words(words, m.prev));
            &&& after == after_subframe(m, words)
            &&& outcomes.len() == noise.len() + 300
            &&& forall|j: int|
                0 <= j < noise.len() + 299 ==> #[trigger] outcomes[j] == nothing()
            &&& outcomes[noise.len() as int + 299] == delivery(words)
        }),
{
    let bits = encode_words(words, m.prev);
    let stream = noise + bits;
    let p = noise.len() as int;
    lemma_encoded_word(words, m.prev, 0);
    lemma_search_on(m, stream, p + 29, p);
    let before = DecoderModel { buffer: last_bits(stream.take(p + 29)), ..m };
    let bit = bits[29];
    let word = bits.subrange(0, 30);
    assert(words.take(0) =~= Seq::<Seq<bool>>::empty());
    law_encoded_word_is_accepted(words[0], m.prev);
    assert(last_word(before.buffer.push(bit)) =~= word);
    assert forall|j: int| 0 <= j < 8 implies (#[trigger] word[j] ^ m.prev.1)
        == TLM_PREAMBLE@[j] by {
        assert(words[0][j] == TLM_PREAMBLE@[j]);
    }
    assert(words.take(1) =~= seq![words[0]]);
    assert(bits.subrange(30, 30) =~= Seq::empty());
    assert(decoder_step(before, bit).0 =~= in_progress(m, words, 30));
    assert(decoder_step(before, bit).1 == nothing());
    let upto = stream.take(p + 30);
    assert(upto.drop_last() =~= stream.take(p + 29));
    assert(upto.last() == bit);
    lemma_remaining_words(m, words, 299);
    lemma_clean_bit(m, words, 299);
    let rest = bits.subrange(30, 300);
    assert(rest.drop_last() =~= bits.subrange(30, 299));
    lemma_run_append(m, upto, rest);
    assert(upto + rest =~= stream);
}

/// The last two bits that a decoder remembers are those of the last word that
/// passed its parity check: they change when a bit completes such a word, to the
/// last two bits of that word, and otherwise only when the decoder starts over.
pub proof fn law_remembered_bits_are_those_of_the_last_good_word(m: DecoderModel, bit: bool)
    requires
        decoder_wf(m),
        !(m.state is VerifyingAlignment),
    ensures
        ({
            let (after, outcome) = decoder_step(m, bit);
            let received = m.buffer.push(bit);
            let n = received.len() as int;
            &&& outcome matches Err(FrameDecodeError::ParityMismatch { word_index }) ==> after.prev
                == m.prev && word_index == m.words.len()
            &&& outcome == Err::<Option<SubframeModel>, FrameDecodeError>(
                FrameDecodeError::PreambleNotFound,
            ) ==> after.prev == (false, false)
            &&& outcome matches Ok(Some(subframe)) ==> after.prev == (received[n - 2], bit)
            &&& outcome == nothing() ==> after.prev == (if after.words.len() > m.words.len() {
                (received[n - 2], bit)
            } else {
                m.prev
            })
        }),
{
}

/// A word that fails its parity check while retries are left costs no more than its
/// first bit: the search goes on over the bits behind that one, with the limit on
/// retries and all counters but that of failures as they were.
pub proof fn law_failed_word_is_searched_again(m: DecoderModel, bit: bool)
    requires
        decoder_wf(m),
        !(m.state is VerifyingAlignment),
        decoder_step(m, bit).1 is Err,
        m.retries < m.max_retries,
    ensures
        ({
            let (after, outcome) = decoder_step(m, bit);
            &&& outcome matches Err(FrameDecodeError::ParityMismatch { word_index })
            &&& after.state is SearchingPreamble
            &&& after.buffer.len() == 29
            &&& forall|i: int|
                0 <= i < 29 ==> #[trigger] after.buffer[i] == m.buffer.push(bit)[m.buffer.len() - 28
                    + i]
            &&& after.words.len() == 0
            &&& after.max_retries == m.max_retries
            &&& after.retries == m.retries + 1
            &&& after.stats.failures == m.stats.failures + 1
            &&& after.stats.confirmed == m.stats.confirmed
            &&& after.stats.decoded == m.stats.decoded
            &&& after.stats.resyncs == m.stats.resyncs
        }),
{
}

/// A failure with the retries used up is a fresh start: nothing is remembered but
/// the limit on retries and the counters.
pub proof fn law_fresh_start_forgets_everything(m: DecoderModel, bit: bool)
    requires
        decoder_wf(m),
        !(m.state is VerifyingAlignment),
        decoder_step(m, bit).1 is Err,
        m.retries == m.max_retries,
    ensures
        ({
            let (after, outcome) = decoder_step(m, bit);
            &&& outcome == Err::<Option<SubframeModel>, FrameDecodeError>(
                FrameDecodeError::PreambleNotFound,
            )
            &&& after.state is SearchingPreamble
            &&& after.buffer.len() == 0
            &&& after.prev == (false, false)
            &&& after.words.len() == 0
            &&& after.max_retries == m.max_retries
            &&& after.retries == 0
            &&& after.stats.failures == m.stats.failures + 1
            &&& after.stats.resyncs == m.stats.resyncs + 1
            &&& after.stats.confirmed == m.stats.confirmed
            &&& after.stats.decoded == m.stats.decoded
        }),
{
}

/// Whether no 30 bits that begin within the first `n` and end behind the first
/// `seen` look like the beginning of a subframe.
pub open spec fn no_preamble_between(bits: Seq<bool>, seen: int, n: int, inverted: bool) -> bool {
    forall|i: int|
        0 <= i < n && seen < i + 30 <= bits.len() ==> !preamble_found(
            #[trigger] bits.subrange(i, i + 30),
            inverted,
        )
}

/// While nothing looks like a preamble, a searching decoder keeps the last bits.
proof fn lemma_search_goes_on(m: DecoderModel, bits: Seq<bool>, n: int, offset: int)
    requires
        decoder_wf(m),
        m.state is SearchingPreamble,
        0 <= n <= bits.len(),
        m.buffer.len() + n < offset + 30,
        no_preamble_between(m.buffer + bits, m.buffer.len() as int, offset, m.prev.1),
    ensures
        ({
            let (after, outcomes) = decoder_run(m, bits.take(n));
            &&& after == (DecoderModel { buffer: last_bits(m.buffer + bits.take(n)), ..m })
            &&& outcomes.len() == n
            &&& forall|j: int| 0 <= j < n ==> #[trigger] outcomes[j] == nothing()
        }),
    decreases n,
{
    if n == 0 {
        assert(m.buffer =~= last_bits(m.buffer + bits.take(0)));
    } else {
        lemma_search_goes_on(m, bits, n - 1, offset);
        assert(bits.take(n).drop_last() =~= bits.take(n - 1));
        let all = m.buffer + bits;
        let before = DecoderModel { buffer: last_bits(m.buffer + bits.take(n - 1)), ..m };
        let buffer = last_word(before.buffer.push(bits[n - 1]));
        assert(buffer =~= last_bits(m.buffer + bits.take(n)));
        let end = m.buffer.len() + n;
        if end >= 30 {
            assert(buffer =~= all.subrange(end - 30, end - 30 + 30));
            assert(!preamble_found(all.subrange(end - 30, end - 30 + 30), m.prev.1));
        }
    }
}

/// A searching decoder without its buffer.
spec fn emptied(m: DecoderModel) -> DecoderModel {
    DecoderModel { buffer: Seq::empty(), ..m }
}

/// A searching decoder finds the next clean subframe, whatever bits it still holds:
/// behind any bits with which nothing looks like a preamble, a subframe transmitted
/// after the two remembered bits is reported with its last bit, and nothing is
/// reported before.
pub proof fn law_searching_decoder_finds_the_next_subframe(
    m: DecoderModel,
    noise: Seq<bool>,
    words: Seq<Seq<bool>>,
)
    requires
        decoder_wf(m),
        m.state is SearchingPreamble,
        is_subframe(words),
        no_preamble_between(
            m.buffer + noise + encode_words(words, m.prev),
            m.buffer.len() as int,
            (m.buffer + noise).len() as int,
            m.prev.1,
        ),
    ensures
        ({
            let (after, outcomes) = decoder_run(m, noise + encode_words(words, m.prev));
            &&& at_boundary(after)
            &&& after.prev == prev_after(words, m.prev)
            &&& after.retries == 0
            &&& after.stats.confirmed == m.stats.confirmed + 1
            &&& after.stats.decoded == m.stats.decoded + 1
            &&& after.stats.failures == m.stats.failures
            &&& after.stats.resyncs == m.stats.resyncs
            &&& outcomes.len() == noise.len() + 300
            &&& forall|j: int|
                0 <= j < noise.len() + 299 ==> #[trigger] outcomes[j] == nothing()
            &&& outcomes[noise.len() as int + 299] == delivery(words)
        }),
{
    let bits = encode_words(words, m.prev);
    let stream = noise + bits;
    let held = m.buffer;
    let p = noise.len() as int;
    let e = emptied(m);
    assert(held + noise + bits =~= held + stream);
    lemma_encoded_word(words, m.prev, 0);
    lemma_search_goes_on(m, stream, p + 29, held.len() + p);
    let before = DecoderModel { buffer: last_bits(held + stream.take(p + 29)), ..m };
    let bit = bits[29];
    let word = bits.subrange(0, 30);
    assert(words.take(0) =~= Seq::<Seq<bool>>::empty());
    law_encoded_word_is_accepted(words[0], m.prev);
    assert(last_word(before.buffer.push(bit)) =~= word);
    assert forall|j: int| 0 <= j < 8 implies (#[trigger] word[j] ^ m.prev.1)
        == TLM_PREAMBLE@[j] by {
        assert(words[0][j] == TLM_PREAMBLE@[j]);
    }
    assert(words.take(1) =~= seq![words[0]]);
    assert(bits.subrange(30, 30) =~= Seq::empty());
    assert(decoder_step(before, bit).0 =~= in_progress(e, words, 30));
    assert(decoder_step(before, bit).1 == nothing());
    let upto = stream.take(p + 30);
    assert(upto.drop_last() =~= stream.take(p + 29));
    assert(upto.last() == bit);
    lemma_remaining_words(e, words, 299);
    lemma_clean_bit(e, words, 299);
    let rest = bits.subrange(30, 300);
    assert(rest.drop_last() =~= bits.subrange(30, 299));
    lemma_run_append(m, upto, rest);
    assert(upto + rest =~= stream);
}

/// Recovery after an error: when a word fails its parity check and retries are
/// left, a clean subframe that follows is reported with its last bit, if it is
/// transmitted after the two bits that were remembered when the word failed and
/// nothing before it looks like a preamble.
pub proof fn law_decoder_recovers_after_an_error(
    m: DecoderModel,
    bit: bool,
    noise: Seq<bool>,
    words: Seq<Seq<bool>>,
)
    requires
        decoder_wf(m),
        !(m.state is VerifyingAlignment),
        decoder_step(m, bit).1 is Err,
        m.retries < m.max_retries,
        is_subframe(words),
        ({
            let held = m.buffer.push(bit).skip(m.buffer.len() - 28);
            no_preamble_between(
                held + noise + encode_words(words, m.prev),
                29,
                29 + noise.len() as int,
                m.prev.1,
            )
        }),
    ensures
        ({
            let (after, outcomes) = decoder_run(m, seq![bit] + noise + encode_words(words, m.prev));
            &&& at_boundary(after)
            &&& outcomes.len() == noise.len() + 301
            &&& outcomes[0] == Err::<Option<SubframeModel>, FrameDecodeError>(
                FrameDecodeError::ParityMismatch { word_index: m.words.len() as usize },
            )
            &&& forall|j: int|
                1 <= j < noise.len() + 300 ==> #[trigger] outcomes[j] == nothing()
            &&& outcomes[noise.len() as int + 300] == delivery(words)
            &&& after.stats.decoded == m.stats.decoded + 1
            &&& after.stats.failures == m.stats.failures + 1
        }),
{
    law_failed_word_is_searched_again(m, bit);
    law_remembered_bits_are_those_of_the_last_good_word(m, bit);
    let bits = encode_words(words, m.prev);
    let (middle, outcome) = decoder_step(m, bit);
    let held = m.buffer.push(bit).skip(m.buffer.len() - 28);
    assert(middle.buffer =~= held);
    law_searching_decoder_finds_the_next_subframe(middle, noise, words);
    let first = seq![bit];
    assert(first.drop_last() =~= Seq::<bool>::empty());
    assert(decoder_run(m, first.drop_last()) == (m, Seq::<Outcome>::empty()));
    assert(decoder_run(m, first) == (middle, Seq::<Outcome>::empty().push(outcome)));
    lemma_run_append(m, first, noise + bits);
    assert(first + noise + bits =~= first + (noise + bits));
}

/// A collecting decoder gathers the bits of a word.
proof fn lemma_word_in_progress(m: DecoderModel, word: Seq<bool>, n: int)
    requires
        decoder_wf(m),
        m.state is Collecting,
        m.buffer.len() == 0,
        word.len() == 30,
        0 <= n < 30,
    ensures
        ({
            let (after, outcomes) = decoder_run(m, word.take(n));
            &&& after == (DecoderModel {
                state: DecodeState::Collecting {
                    bits_collected: (m.state->bits_collected + n) as usize,
                },
                buffer: word.take(n),
                ..m
            })
            &&& outcomes.len() == n
            &&& forall|j: int| 0 <= j < n ==> #[trigger] outcomes[j] == nothing()
        }),
    decreases n,
{
    if n == 0 {
        assert(m.buffer =~= word.take(0));
    } else {
        lemma_word_in_progress(m, word, n - 1);
        assert(word.take(n).drop_last() =~= word.take(n - 1));
        assert(word.take(n - 1).push(word[n - 1]) =~= word.take(n));
    }
}

/// A bad word costs its subframe and no more: when word `k` of a subframe arrives
/// with a wrong parity, this is reported with its last bit, and the next subframe
/// is reported with its last bit, if it is transmitted after the last two bits of
/// the good word before and nothing in between looks like a preamble.
pub proof fn law_bad_word_does_not_hide_the_next_subframe(
    m: DecoderModel,
    broken: Seq<Seq<bool>>,
    k: int,
    word: Seq<bool>,
    noise: Seq<bool>,
    words: Seq<Seq<bool>>,
)
    requires
        at_boundary(m),
        m.max_retries > 0,
        is_subframe(broken),
        1 <= k < 10,
        word.len() == 30,
        is_subframe(words),
        ({
            let prev = prev_after(broken.take(k), m.prev);
            &&& !parity_holds(word, prev)
            &&& no_preamble_between(
                word.skip(1) + noise + encode_words(words, prev),
                29,
                29 + noise.len() as int,
                prev.1,
            )
        }),
    ensures
        ({
            let prev = prev_after(broken.take(k), m.prev);
            let good = encode_words(broken.take(k), m.prev);
            let bits = good + word + noise + encode_words(words, prev);
            let (after, outcomes) = decoder_run(m, bits);
            let last = 30 * k + 30 + noise.len() + 299;
            &&& at_boundary(after)
            &&& outcomes.len() == last + 1
            &&& outcomes[30 * k + 29] == Err::<Option<SubframeModel>, FrameDecodeError>(
                FrameDecodeError::ParityMismatch { word_index: k as usize },
            )
            &&& outcomes[last] == delivery(words)
            &&& forall|j: int|
                0 <= j < last && j != 30 * k + 29 ==> #[trigger] outcomes[j] == nothing()
            &&& after.stats.decoded == m.stats.decoded + 1
        }),
{
    let prev = prev_after(broken.take(k), m.prev);
    let good = encode_words(broken.take(k), m.prev);
    let rest = encode_words(words, prev);
    lemma_encode_words_prefix(broken, m.prev, k);
    lemma_clean_bits(m, broken, 30 * k);
    let before = in_progress(m, broken, 30 * k);
    let all = encode_words(broken, m.prev);
    assert(all.subrange(30 * k, 30 * k) =~= Seq::<bool>::empty());
    assert(decoder_wf(before)) by {
        lemma_run_traced(m, all.take(30 * k));
    }
    lemma_word_in_progress(before, word, 29);
    let full = decoder_run(before, word.take(29)).0;
    let bit = word[29];
    assert(full.buffer.push(bit) =~= word);
    assert(decoder_wf(full));
    assert(full.buffer.push(bit).skip(full.buffer.len() - 28) =~= word.skip(1));
    law_decoder_recovers_after_an_error(full, bit, noise, words);
    let tail = seq![bit] + noise + rest;
    lemma_run_append(before, word.take(29), tail);
    lemma_run_append(m, good, word.take(29) + tail);
    assert(good + word + noise + rest =~= good + (word.take(29) + tail));
    lemma_run_len(before, word.take(29));
    lemma_run_len(m, good);
}

/// A confirmed preamble is counted and clears the retries; no other bit counts as one,
/// and the retries change otherwise only by a failure. The number of retries allowed
/// never changes.
pub proof fn law_confirmed_preamble_clears_the_retries(m: DecoderModel, bit: bool)
    requires
        decoder_wf(m),
    ensures
        ({
            let (after, outcome) = decoder_step(m, bit);
            let confirmed = !(m.state is Collecting) && after.state is Collecting;
            &&& confirmed ==> after.retries == 0 && after.stats.confirmed == m.stats.confirmed + 1
                && after.words.len() == 1 && after.buffer.len() == 0 && outcome is Ok
            &&& !confirmed ==> after.stats.confirmed == m.stats.confirmed
            &&& !confirmed && outcome is Ok ==> after.retries == m.retries
            &&& after.max_retries == m.max_retries
        }),
{
}

} // verus!
