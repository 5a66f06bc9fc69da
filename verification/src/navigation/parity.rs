//! Word parity of the GPS L1 C/A navigation message.
//!
//! A word is 30 bits long: 24 information bits `d1..d24` and six parity bits
//! `D25..D30`. The transmitter inverts the information bits when the last bit
//! `D*30` of the preceding word is one, and every parity bit is the exclusive
//! or of one of the last two bits of the preceding word with a fixed choice of
//! the (non-inverted) information bits.

use vstd::prelude::*;

verus! {

/// Length of one word in bits: 24 information bits and 6 parity bits.
pub const WORD_LENGTH_BITS: usize = 30;

/// Number of information bits in one word.
pub const INFO_BITS: usize = 24;

/// Numbers (counted from one) of the information bits that enter `D25`.
pub const D25_TAPS: [usize; 14] = [1, 2, 3, 5, 6, 10, 11, 12, 13, 14, 17, 18, 20, 23];

/// Numbers of the information bits that enter `D26`.
pub const D26_TAPS: [usize; 14] = [2, 3, 4, 6, 7, 11, 12, 13, 14, 15, 18, 19, 21, 24];

/// Numbers of the information bits that enter `D27`.
pub const D27_TAPS: [usize; 14] = [1, 3, 4, 5, 7, 8, 12, 13, 14, 15, 16, 19, 20, 22];

/// Numbers of the information bits that enter `D28`.
pub const D28_TAPS: [usize; 14] = [2, 4, 5, 6, 8, 9, 13, 14, 15, 16, 17, 20, 21, 23];

/// Numbers of the information bits that enter `D29`.
pub const D29_TAPS: [usize; 15] = [1, 3, 5, 6, 7, 9, 10, 14, 15, 16, 17, 18, 21, 22, 24];

/// Numbers of the information bits that enter `D30`.
pub const D30_TAPS: [usize; 13] = [3, 5, 6, 8, 9, 10, 11, 13, 15, 19, 22, 23, 24];

/// Exclusive or of the bits of `info` whose numbers (from one) are in `taps`.
pub open spec fn xor_of(info: Seq<bool>, taps: Seq<usize>) -> bool
    decreases taps.len(),
{
    if taps.len() == 0 {
        false
    } else {
        xor_of(info, taps.drop_last()) ^ info[taps.last() - 1]
    }
}

/// Taps of the parity bit `D(25 + k)`.
pub open spec fn parity_taps(k: int) -> Seq<usize> {
    if k == 0 {
        D25_TAPS@
    } else if k == 1 {
        D26_TAPS@
    } else if k == 2 {
        D27_TAPS@
    } else if k == 3 {
        D28_TAPS@
    } else if k == 4 {
        D29_TAPS@
    } else {
        D30_TAPS@
    }
}

/// The bit of the preceding word, `(D*29, D*30)`, that enters `D(25 + k)`.
pub open spec fn parity_seed(prev: (bool, bool), k: int) -> bool {
    if k == 0 || k == 2 || k == 5 {
        prev.0
    } else {
        prev.1
    }
}

/// The parity bit `D(25 + k)` of the information bits `info` after a word that
/// ended in `prev`.
pub open spec fn parity_bit(info: Seq<bool>, prev: (bool, bool), k: int) -> bool {
    parity_seed(prev, k) ^ xor_of(info, parity_taps(k))
}

/// The 30 transmitted bits that carry `info` after a word that ended in `prev`.
pub open spec fn encode_word(info: Seq<bool>, prev: (bool, bool)) -> Seq<bool> {
    Seq::new(
        30,
        |i: int|
            if i < 24 {
                info[i] ^ prev.1
            } else {
                parity_bit(info, prev, i - 24)
            },
    )
}

/// The information bits of a received word, with the inversion undone.
pub open spec fn info_of(word: Seq<bool>, prev: (bool, bool)) -> Seq<bool> {
    Seq::new(24, |i: int| word[i] ^ prev.1)
}

/// Whether all six parity equations of a received word hold.
pub open spec fn parity_holds(word: Seq<bool>, prev: (bool, bool)) -> bool {
    forall|k: int|
        0 <= k < 6 ==> word[24 + k] == #[trigger] parity_bit(info_of(word, prev), prev, k)
}

/// Exclusive or of the bits of `info` at the numbers in `taps`.
fn xor_taps(info: &[bool; 24], taps: &[usize]) -> (x: bool)
    requires
        forall|j: int| 0 <= j < taps@.len() ==> 1 <= #[trigger] taps@[j] <= 24,
    ensures
        x == xor_of(info@, taps@),
{
    let mut x = false;
    let mut j: usize = 0;
    while j < taps.len()
        invariant
            j <= taps@.len(),
            x == xor_of(info@, taps@.take(j as int)),
            forall|j: int| 0 <= j < taps@.len() ==> 1 <= #[trigger] taps@[j] <= 24,
        decreases taps@.len() - j,
    {
        assert(taps@.take(j as int + 1).drop_last() =~= taps@.take(j as int));
        x = x ^ info[taps[j] - 1];
        j = j + 1;
    }
    assert(taps@.take(j as int) =~= taps@);
    x
}

/// Checks a 30-bit word and undoes the inversion of its information bits.
///
/// `word[0..24]` are the information bits as received, `word[24..30]` the
/// parity bits, and `prev_d29_d30` the last two bits of the preceding word.
/// Returns the 24 information bits when all six parity equations hold.
pub fn check_and_correct_parity(word: &[bool; 30], prev_d29_d30: (bool, bool)) -> (info: Option<
    [bool; 24],
>)
    ensures
        info is Some <==> parity_holds(word@, prev_d29_d30),
        info matches Some(bits) ==> bits@ == info_of(word@, prev_d29_d30),
{
    let mut d: [bool; 24] = [false; 24];
    let mut i: usize = 0;
    while i < 24
        invariant
            i <= 24,
            forall|j: int| 0 <= j < i ==> d@[j] == word@[j] ^ prev_d29_d30.1,
        decreases 24 - i,
    {
        d[i] = word[i] ^ prev_d29_d30.1;
        i = i + 1;
    }
    assert(d@ =~= info_of(word@, prev_d29_d30));
    let (d_star_29, d_star_30) = prev_d29_d30;
    let computed_d25 = d_star_29 ^ xor_taps(&d, &D25_TAPS);
    let computed_d26 = d_star_30 ^ xor_taps(&d, &D26_TAPS);
    let computed_d27 = d_star_29 ^ xor_taps(&d, &D27_TAPS);
    let computed_d28 = d_star_30 ^ xor_taps(&d, &D28_TAPS);
    let computed_d29 = d_star_30 ^ xor_taps(&d, &D29_TAPS);
    let computed_d30 = d_star_29 ^ xor_taps(&d, &D30_TAPS);
    assert(computed_d25 == parity_bit(d@, prev_d29_d30, 0));
    assert(computed_d26 == parity_bit(d@, prev_d29_d30, 1));
    assert(computed_d27 == parity_bit(d@, prev_d29_d30, 2));
    assert(computed_d28 == parity_bit(d@, prev_d29_d30, 3));
    assert(computed_d29 == parity_bit(d@, prev_d29_d30, 4));
    assert(computed_d30 == parity_bit(d@, prev_d29_d30, 5));
    if word[24] == computed_d25 && word[25] == computed_d26 && word[26] == computed_d27 && word[27]
        == computed_d28 && word[28] == computed_d29 && word[29] == computed_d30 {
        Some(d)
    } else {
        None
    }
}

/// Every well-formed transmission is accepted and gives back what was sent:
/// the word that carries `info` passes the parity check and decodes to `info`.
pub proof fn law_encoded_word_is_accepted(info: Seq<bool>, prev: (bool, bool))
    requires
        info.len() == 24,
    ensures
        parity_holds(encode_word(info, prev), prev),
        info_of(encode_word(info, prev), prev) == info,
{
    assert(info_of(encode_word(info, prev), prev) =~= info);
}

/// Nothing but a well-formed transmission is accepted: a word that passes the
/// parity check is the one that carries its information bits.
pub proof fn law_accepted_word_is_encoded(word: Seq<bool>, prev: (bool, bool))
    requires
        word.len() == 30,
        parity_holds(word, prev),
    ensures
        word == encode_word(info_of(word, prev), prev),
{
    let info = info_of(word, prev);
    assert forall|i: int| 0 <= i < 30 implies word[i] == encode_word(info, prev)[i] by {
        if i >= 24 {
            assert(word[24 + (i - 24)] == parity_bit(info, prev, i - 24));
        }
    }
    assert(word =~= encode_word(info, prev));
}

/// Changing one information bit changes an exclusive or exactly when the bit
/// is one of the taps.
proof fn lemma_xor_of_flip(info: Seq<bool>, taps: Seq<usize>, b: int)
    requires
        info.len() == 24,
        0 <= b < 24,
        taps.no_duplicates(),
        forall|j: int| 0 <= j < taps.len() ==> 1 <= #[trigger] taps[j] <= 24,
    ensures
        xor_of(info.update(b, !info[b]), taps) == (xor_of(info, taps) ^ taps.contains(
            (b + 1) as usize,
        )),
    decreases taps.len(),
{
    let flipped = info.update(b, !info[b]);
    let tap = (b + 1) as usize;
    if taps.len() > 0 {
        let head = taps.drop_last();
        lemma_xor_of_flip(info, head, b);
        assert(taps[taps.len() - 1] == taps.last());
        if taps.last() == tap {
            assert(!head.contains(tap));
            assert(taps.contains(tap));
        } else {
            assert(head.contains(tap) <==> taps.contains(tap)) by {
                if taps.contains(tap) {
                    let j = choose|j: int| 0 <= j < taps.len() && taps[j] == tap;
                    assert(head[j] == tap);
                }
                if head.contains(tap) {
                    let j = choose|j: int| 0 <= j < head.len() && head[j] == tap;
                    assert(taps[j] == tap);
                }
            }
        }
    }
}

/// The tables of taps hold bit numbers, each at most once.
proof fn lemma_taps(k: int)
    requires
        0 <= k < 6,
    ensures
        parity_taps(k).no_duplicates(),
        forall|j: int| 0 <= j < parity_taps(k).len() ==> 1 <= #[trigger] parity_taps(k)[j] <= 24,
{
}

/// Whether information bit `n`, counted from one, enters the parity bit
/// `D(25 + k)`.
spec fn is_tap(n: int, k: int) -> bool {
    if k == 0 {
        n == 1 || n == 2 || n == 3 || n == 5 || n == 6 || n == 10 || n == 11 || n == 12 || n == 13
            || n == 14 || n == 17 || n == 18 || n == 20 || n == 23
    } else if k == 1 {
        n == 2 || n == 3 || n == 4 || n == 6 || n == 7 || n == 11 || n == 12 || n == 13 || n == 14
            || n == 15 || n == 18 || n == 19 || n == 21 || n == 24
    } else if k == 2 {
        n == 1 || n == 3 || n == 4 || n == 5 || n == 7 || n == 8 || n == 12 || n == 13 || n == 14
            || n == 15 || n == 16 || n == 19 || n == 20 || n == 22
    } else if k == 3 {
        n == 2 || n == 4 || n == 5 || n == 6 || n == 8 || n == 9 || n == 13 || n == 14 || n == 15
            || n == 16 || n == 17 || n == 20 || n == 21 || n == 23
    } else if k == 4 {
        n == 1 || n == 3 || n == 5 || n == 6 || n == 7 || n == 9 || n == 10 || n == 14 || n == 15
            || n == 16 || n == 17 || n == 18 || n == 21 || n == 22 || n == 24
    } else {
        n == 3 || n == 5 || n == 6 || n == 8 || n == 9 || n == 10 || n == 11 || n == 13 || n == 15
            || n == 19 || n == 22 || n == 23 || n == 24
    }
}

/// The tables of taps hold exactly the bits that enter.
proof fn lemma_is_tap(n: int, k: int)
    requires
        1 <= n <= 24,
        0 <= k < 6,
    ensures
        parity_taps(k).contains(n as usize) == is_tap(n, k),
{
    let taps = parity_taps(k);
    if k == 0 {
        assert(taps[0] == 1 && taps[1] == 2 && taps[2] == 3 && taps[3] == 5 && taps[4] == 6
            && taps[5] == 10 && taps[6] == 11 && taps[7] == 12 && taps[8] == 13 && taps[9] == 14
            && taps[10] == 17 && taps[11] == 18 && taps[12] == 20 && taps[13] == 23);
        if taps.contains(n as usize) {
            let j = choose|j: int| 0 <= j < taps.len() && taps[j] == n as usize;
            assert(j == 0 || j == 1 || j == 2 || j == 3 || j == 4 || j == 5 || j == 6 || j == 7
                || j == 8 || j == 9 || j == 10 || j == 11 || j == 12 || j == 13);
        }
    } else if k == 1 {
        assert(taps[0] == 2 && taps[1] == 3 && taps[2] == 4 && taps[3] == 6 && taps[4] == 7
            && taps[5] == 11 && taps[6] == 12 && taps[7] == 13 && taps[8] == 14 && taps[9] == 15
            && taps[10] == 18 && taps[11] == 19 && taps[12] == 21 && taps[13] == 24);
        if taps.contains(n as usize) {
            let j = choose|j: int| 0 <= j < taps.len() && taps[j] == n as usize;
            assert(j == 0 || j == 1 || j == 2 || j == 3 || j == 4 || j == 5 || j == 6 || j == 7
                || j == 8 || j == 9 || j == 10 || j == 11 || j == 12 || j == 13);
        }
    } else if k == 2 {
        assert(taps[0] == 1 && taps[1] == 3 && taps[2] == 4 && taps[3] == 5 && taps[4] == 7
            && taps[5] == 8 && taps[6] == 12 && taps[7] == 13 && taps[8] == 14 && taps[9] == 15
            && taps[10] == 16 && taps[11] == 19 && taps[12] == 20 && taps[13] == 22);
        if taps.contains(n as usize) {
            let j = choose|j: int| 0 <= j < taps.len() && taps[j] == n as usize;
            assert(j == 0 || j == 1 || j == 2 || j == 3 || j == 4 || j == 5 || j == 6 || j == 7
                || j == 8 || j == 9 || j == 10 || j == 11 || j == 12 || j == 13);
        }
    } else if k == 3 {
        assert(taps[0] == 2 && taps[1] == 4 && taps[2] == 5 && taps[3] == 6 && taps[4] == 8
            && taps[5] == 9 && taps[6] == 13 && taps[7] == 14 && taps[8] == 15 && taps[9] == 16
            && taps[10] == 17 && taps[11] == 20 && taps[12] == 21 && taps[13] == 23);
        if taps.contains(n as usize) {
            let j = choose|j: int| 0 <= j < taps.len() && taps[j] == n as usize;
            assert(j == 0 || j == 1 || j == 2 || j == 3 || j == 4 || j == 5 || j == 6 || j == 7
                || j == 8 || j == 9 || j == 10 || j == 11 || j == 12 || j == 13);
        }
    } else if k == 4 {
        assert(taps[0] == 1 && taps[1] == 3 && taps[2] == 5 && taps[3] == 6 && taps[4] == 7
            && taps[5] == 9 && taps[6] == 10 && taps[7] == 14 && taps[8] == 15 && taps[9] == 16
            && taps[10] == 17 && taps[11] == 18 && taps[12] == 21 && taps[13] == 22
            && taps[14] == 24);
        if taps.contains(n as usize) {
            let j = choose|j: int| 0 <= j < taps.len() && taps[j] == n as usize;
            assert(j == 0 || j == 1 || j == 2 || j == 3 || j == 4 || j == 5 || j == 6 || j == 7
                || j == 8 || j == 9 || j == 10 || j == 11 || j == 12 || j == 13 || j == 14);
        }
    } else {
        assert(taps[0] == 3 && taps[1] == 5 && taps[2] == 6 && taps[3] == 8 && taps[4] == 9
            && taps[5] == 10 && taps[6] == 11 && taps[7] == 13 && taps[8] == 15 && taps[9] == 19
            && taps[10] == 22 && taps[11] == 23 && taps[12] == 24);
        if taps.contains(n as usize) {
            let j = choose|j: int| 0 <= j < taps.len() && taps[j] == n as usize;
            assert(j == 0 || j == 1 || j == 2 || j == 3 || j == 4 || j == 5 || j == 6 || j == 7
                || j == 8 || j == 9 || j == 10 || j == 11 || j == 12);
        }
    }
}

/// Whether bit `b` of a word enters the parity equation `k`.
spec fn enters(b: int, k: int) -> bool {
    if b < 24 {
        is_tap(b + 1, k)
    } else {
        b - 24 == k
    }
}

/// The parity equations that a bit enters, as a number of six bits.
spec fn column(b: int) -> int {
    if b == 0 {
        21
    } else if b == 1 {
        11
    } else if b == 2 {
        55
    } else if b == 3 {
        14
    } else if b == 4 {
        61
    } else if b == 5 {
        59
    } else if b == 6 {
        22
    } else if b == 7 {
        44
    } else if b == 8 {
        56
    } else if b == 9 {
        49
    } else if b == 10 {
        35
    } else if b == 11 {
        7
    } else if b == 12 {
        47
    } else if b == 13 {
        31
    } else if b == 14 {
        62
    } else if b == 15 {
        28
    } else if b == 16 {
        25
    } else if b == 17 {
        19
    } else if b == 18 {
        38
    } else if b == 19 {
        13
    } else if b == 20 {
        26
    } else if b == 21 {
        52
    } else if b == 22 {
        41
    } else if b == 23 {
        50
    } else if b == 24 {
        1
    } else if b == 25 {
        2
    } else if b == 26 {
        4
    } else if b == 27 {
        8
    } else if b == 28 {
        16
    } else {
        32
    }
}

/// Every bit enters an odd number of parity equations, and no two bits enter the
/// same.
proof fn lemma_columns(b: int, c: int)
    requires
        0 <= b < 30,
        0 <= c < 30,
    ensures
        enters(b, 0) ^ enters(b, 1) ^ enters(b, 2) ^ enters(b, 3) ^ enters(b, 4) ^ enters(b, 5),
        b != c ==> exists|k: int| 0 <= k < 6 && #[trigger] enters(b, k) != enters(c, k),
{
    lemma_column(b);
    lemma_column(c);
    if b != c {
        assert(column(b) != column(c));
        assert(enters(b, 0) != enters(c, 0) || enters(b, 1) != enters(c, 1) || enters(b, 2)
            != enters(c, 2) || enters(b, 3) != enters(c, 3) || enters(b, 4) != enters(c, 4)
            || enters(b, 5) != enters(c, 5));
    }
}

/// The number of a column has the bits of the equations.
proof fn lemma_column(b: int)
    requires
        0 <= b < 30,
    ensures
        column(b) == weight(b, 0, 1) + weight(b, 1, 2) + weight(b, 2, 4) + weight(b, 3, 8) + weight(
            b,
            4,
            16,
        ) + weight(b, 5, 32),
        enters(b, 0) ^ enters(b, 1) ^ enters(b, 2) ^ enters(b, 3) ^ enters(b, 4) ^ enters(b, 5),
{
}

/// `w` where bit `b` enters the parity equation `k`, else zero.
spec fn weight(b: int, k: int, w: int) -> int {
    if enters(b, k) {
        w
    } else {
        0
    }
}

/// Whether the parity equation `k` of a word fails.
spec fn fails(word: Seq<bool>, prev: (bool, bool), k: int) -> bool {
    word[24 + k] != parity_bit(info_of(word, prev), prev, k)
}

/// A word with one bit turned over.
pub open spec fn flip(word: Seq<bool>, b: int) -> Seq<bool> {
    word.update(b, !word[b])
}

/// Turning over a bit turns over the equations that it enters.
proof fn lemma_flip(word: Seq<bool>, prev: (bool, bool), b: int, k: int)
    requires
        word.len() == 30,
        0 <= b < 30,
        0 <= k < 6,
    ensures
        fails(flip(word, b), prev, k) == (fails(word, prev, k) ^ enters(b, k)),
{
    let info = info_of(word, prev);
    if b < 24 {
        lemma_taps(k);
        lemma_is_tap(b + 1, k);
        lemma_xor_of_flip(info, parity_taps(k), b);
        assert(info_of(flip(word, b), prev) =~= info.update(b, !info[b]));
    } else {
        assert(info_of(flip(word, b), prev) =~= info);
    }
}

/// A word in which some equation fails does not pass the check.
proof fn lemma_failing_word(word: Seq<bool>, prev: (bool, bool), k: int)
    requires
        0 <= k < 6,
        fails(word, prev, k),
    ensures
        !parity_holds(word, prev),
{
    assert(word[24 + k] != parity_bit(info_of(word, prev), prev, k));
}

/// A word that passes the check fails no equation.
proof fn lemma_holding_word(word: Seq<bool>, prev: (bool, bool), k: int)
    requires
        0 <= k < 6,
        parity_holds(word, prev),
    ensures
        !fails(word, prev, k),
{
    assert(word[24 + k] == parity_bit(info_of(word, prev), prev, k));
}

/// A single wrong bit is always noticed: turning over any one bit of a word that
/// passes the parity check gives a word that fails it.
pub proof fn law_single_bit_error_is_detected(word: Seq<bool>, prev: (bool, bool), b: int)
    requires
        word.len() == 30,
        parity_holds(word, prev),
        0 <= b < 30,
    ensures
        !parity_holds(flip(word, b), prev),
{
    lemma_columns(b, b);
    let k = choose|k: int| 0 <= k < 6 && enters(b, k);
    assert(enters(b, 0) || enters(b, 1) || enters(b, 2) || enters(b, 3) || enters(b, 4) || enters(
        b,
        5,
    ));
    lemma_flip(word, prev, b, k);
    lemma_holding_word(word, prev, k);
    lemma_failing_word(flip(word, b), prev, k);
}

/// Two wrong bits are always noticed.
pub proof fn law_double_bit_error_is_detected(word: Seq<bool>, prev: (bool, bool), b: int, c: int)
    requires
        word.len() == 30,
        parity_holds(word, prev),
        0 <= b < 30,
        0 <= c < 30,
        b != c,
    ensures
        !parity_holds(flip(flip(word, b), c), prev),
{
    lemma_columns(b, c);
    let k = choose|k: int| 0 <= k < 6 && #[trigger] enters(b, k) != enters(c, k);
    lemma_flip(word, prev, b, k);
    lemma_flip(flip(word, b), prev, c, k);
    lemma_holding_word(word, prev, k);
    lemma_failing_word(flip(flip(word, b), c), prev, k);
}

/// Three wrong bits are always noticed.
pub proof fn law_triple_bit_error_is_detected(
    word: Seq<bool>,
    prev: (bool, bool),
    b: int,
    c: int,
    d: int,
)
    requires
        word.len() == 30,
        parity_holds(word, prev),
        0 <= b < 30,
        0 <= c < 30,
        0 <= d < 30,
        b != c,
        c != d,
        b != d,
    ensures
        !parity_holds(flip(flip(flip(word, b), c), d), prev),
{
    lemma_columns(b, b);
    lemma_columns(c, c);
    lemma_columns(d, d);
    let k = choose|k: int| 0 <= k < 6 && (#[trigger] enters(b, k) ^ enters(c, k) ^ enters(d, k));
    assert((enters(b, 0) ^ enters(c, 0) ^ enters(d, 0)) || (enters(b, 1) ^ enters(c, 1) ^ enters(
        d,
        1,
    )) || (enters(b, 2) ^ enters(c, 2) ^ enters(d, 2)) || (enters(b, 3) ^ enters(c, 3) ^ enters(
        d,
        3,
    )) || (enters(b, 4) ^ enters(c, 4) ^ enters(d, 4)) || (enters(b, 5) ^ enters(c, 5) ^ enters(
        d,
        5,
    )));
    lemma_flip(word, prev, b, k);
    lemma_flip(flip(word, b), prev, c, k);
    lemma_flip(flip(flip(word, b), c), prev, d, k);
    lemma_holding_word(word, prev, k);
    lemma_failing_word(flip(flip(flip(word, b), c), d), prev, k);
}

/// The exclusive or of two rows of bits, place by place.
pub open spec fn xor_bits(a: Seq<bool>, b: Seq<bool>) -> Seq<bool> {
    Seq::new(a.len(), |i: int| a[i] ^ b[i])
}

proof fn lemma_xor_of_sum(a: Seq<bool>, b: Seq<bool>, taps: Seq<usize>)
    requires
        a.len() == 24,
        b.len() == 24,
        forall|j: int| 0 <= j < taps.len() ==> 1 <= #[trigger] taps[j] <= 24,
    ensures
        xor_of(xor_bits(a, b), taps) == (xor_of(a, taps) ^ xor_of(b, taps)),
    decreases taps.len(),
{
    if taps.len() > 0 {
        lemma_xor_of_sum(a, b, taps.drop_last());
        assert(1 <= taps[taps.len() - 1] <= 24);
    }
}

/// The code is linear: the sum of two transmitted words, bit by bit, is the word that
/// carries the sum of what they carry, after the sum of what they follow.
pub proof fn law_code_is_linear(
    a: Seq<bool>,
    p: (bool, bool),
    b: Seq<bool>,
    q: (bool, bool),
)
    requires
        a.len() == 24,
        b.len() == 24,
    ensures
        encode_word(xor_bits(a, b), (p.0 ^ q.0, p.1 ^ q.1)) == xor_bits(
            encode_word(a, p),
            encode_word(b, q),
        ),
{
    let sum = encode_word(xor_bits(a, b), (p.0 ^ q.0, p.1 ^ q.1));
    assert forall|i: int| 0 <= i < 30 implies sum[i] == (encode_word(a, p)[i] ^ encode_word(
        b,
        q,
    )[i]) by {
        if i >= 24 {
            lemma_taps(i - 24);
            lemma_xor_of_sum(a, b, parity_taps(i - 24));
        }
    }
    assert(sum =~= xor_bits(encode_word(a, p), encode_word(b, q)));
}

/// What the last two bits of the preceding word do: the first of them turns over
/// `D25`, `D27` and `D30`, and the second the information bits, `D26`, `D28` and
/// `D29`.
pub proof fn law_preceding_word_enters(info: Seq<bool>, prev: (bool, bool), i: int)
    requires
        info.len() == 24,
        0 <= i < 30,
    ensures
        encode_word(info, (!prev.0, prev.1))[i] != encode_word(info, prev)[i] <==> i == 24 || i
            == 26 || i == 29,
        encode_word(info, (prev.0, !prev.1))[i] != encode_word(info, prev)[i] <==> i < 24 || i
            == 25 || i == 27 || i == 28,
{
}

/// The polarity of the carrier does not matter: a word of which every bit is turned
/// over, after a word of which every bit is, passes the parity check exactly when the
/// word itself does, and carries the same information.
pub proof fn law_polarity_does_not_matter(
    word: Seq<bool>,
    turned: Seq<bool>,
    prev: (bool, bool),
)
    requires
        word.len() == 30,
        turned.len() == 30,
        forall|i: int| 0 <= i < 30 ==> #[trigger] turned[i] == !word[i],
    ensures
        parity_holds(turned, (!prev.0, !prev.1)) <==> parity_holds(word, prev),
        info_of(turned, (!prev.0, !prev.1)) == info_of(word, prev),
{
    let other = (!prev.0, !prev.1);
    assert(info_of(turned, other) =~= info_of(word, prev));
    assert forall|k: int| 0 <= k < 6 implies (turned[24 + k] == #[trigger] parity_bit(
        info_of(turned, other),
        other,
        k,
    )) == (word[24 + k] == parity_bit(info_of(word, prev), prev, k)) by {
        assert(turned[24 + k] == !word[24 + k]);
    }
    if parity_holds(turned, other) {
        assert forall|k: int| 0 <= k < 6 implies word[24 + k] == #[trigger] parity_bit(
            info_of(word, prev),
            prev,
            k,
        ) by {
            assert(turned[24 + k] == parity_bit(info_of(turned, other), other, k));
        }
    }
    if parity_holds(word, prev) {
        assert forall|k: int| 0 <= k < 6 implies turned[24 + k] == #[trigger] parity_bit(
            info_of(turned, other),
            other,
            k,
        ) by {
            assert(word[24 + k] == parity_bit(info_of(word, prev), prev, k));
        }
    }
}

} // verus!
