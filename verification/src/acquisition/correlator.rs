//! Search for the strongest correlation over slices of code phases, one slice
//! per Doppler trial.

use vstd::prelude::*;

verus! {

/// Index of the last of the largest numbers.
pub open spec fn last_max(s: Seq<u32>) -> int
    decreases s.len(),
{
    if s.len() <= 1 {
        0
    } else {
        let j = last_max(s.drop_last());
        if s.last() >= s[j] {
            s.len() - 1
        } else {
            j
        }
    }
}

/// What makes an index that of the last of the largest numbers.
pub proof fn lemma_last_max(s: Seq<u32>)
    requires
        s.len() > 0,
    ensures
        0 <= last_max(s) < s.len(),
        forall|i: int| 0 <= i < s.len() ==> #[trigger] s[i] <= s[last_max(s)],
        forall|i: int| last_max(s) < i < s.len() ==> #[trigger] s[i] < s[last_max(s)],
    decreases s.len(),
{
    if s.len() > 1 {
        let head = s.drop_last();
        lemma_last_max(head);
        assert forall|i: int| 0 <= i < s.len() implies #[trigger] s[i] <= s[last_max(s)] by {
            if i < head.len() {
                assert(s[i] == head[i]);
            }
        }
        assert forall|i: int| last_max(s) < i < s.len() implies #[trigger] s[i]
            < s[last_max(s)] by {
            if i < head.len() {
                assert(s[i] == head[i]);
            }
        }
    }
}

/// Index of the largest number, the last of equals; zero of an empty row.
pub fn peak_index(keys: &[u32]) -> (at: usize)
    ensures
        at == last_max(keys@),
        keys@.len() > 0 ==> at < keys@.len(),
        forall|i: int| 0 <= i < keys@.len() ==> #[trigger] keys@[i] <= keys@[at as int],
        forall|i: int| at < i < keys@.len() ==> #[trigger] keys@[i] < keys@[at as int],
{
    let mut at: usize = 0;
    let mut i: usize = 0;
    while i < keys.len()
        invariant
            i <= keys@.len(),
            at == last_max(keys@.take(i as int)),
            i > 0 ==> at < i,
            i == 0 ==> at == 0,
        decreases keys@.len() - i,
    {
        let ghost head = keys@.take(i as int);
        assert(keys@.take(i + 1).drop_last() =~= head);
        if i > 0 {
            assert(head[at as int] == keys@[at as int]);
        }
        if keys[i] >= keys[at] {
            at = i;
        }
        i = i + 1;
    }
    assert(keys@.take(i as int) =~= keys@);
    proof {
        if keys@.len() > 0 {
            lemma_last_max(keys@);
        }
    }
    at
}

/// The strongest correlation found so far.
#[derive(Debug, Clone, Copy, PartialEq, Eq, Structural)]
pub struct SliceSearch {
    /// Trial with the strongest correlation.
    pub best_trial: usize,
    /// Its code phase in samples.
    pub best_phase: usize,
    /// Its power.
    pub best_power: u32,
}

/// The strongest correlation after one more slice; an earlier slice of equal
/// strength stays.
pub open spec fn after_slice(s: SliceSearch, trial: usize, slice: Seq<u32>) -> SliceSearch {
    let at = last_max(slice);
    if slice[at] > s.best_power {
        SliceSearch { best_trial: trial, best_phase: at as usize, best_power: slice[at] }
    } else {
        s
    }
}

/// The strongest correlation over slices, offered in order.
pub open spec fn after_slices(slices: Seq<Seq<u32>>) -> SliceSearch
    decreases slices.len(),
{
    if slices.len() == 0 {
        SliceSearch { best_trial: 0, best_phase: 0, best_power: 0 }
    } else {
        after_slice(
            after_slices(slices.drop_last()),
            (slices.len() - 1) as usize,
            slices.last(),
        )
    }
}

impl SliceSearch {
    /// Nothing found.
    pub fn new() -> (s: Self)
        ensures
            s == after_slices(Seq::empty()),
    {
        SliceSearch { best_trial: 0, best_phase: 0, best_power: 0 }
    }

    /// Takes the powers of one trial over all code phases.
    pub fn offer(&mut self, trial: usize, slice: &[u32])
        requires
            slice@.len() > 0,
        ensures
            *final(self) == after_slice(*old(self), trial, slice@),
    {
        let at: usize = peak_index(slice);
        if slice[at] > self.best_power {
            self.best_trial = trial;
            self.best_phase = at;
            self.best_power = slice[at];
        }
    }
}

/// The strongest correlation is found: no slice holds more at any code phase,
/// and what is reported stands where it is reported.
pub proof fn law_strongest_correlation_is_found(slices: Seq<Seq<u32>>)
    requires
        slices.len() <= usize::MAX,
        forall|t: int| 0 <= t < slices.len() ==> 0 < (#[trigger] slices[t]).len() <= usize::MAX,
    ensures
        ({
            let s = after_slices(slices);
            &&& forall|t: int, c: int|
                0 <= t < slices.len() && 0 <= c < slices[t].len() ==> #[trigger] slices[t][c]
                    <= s.best_power
            &&& s.best_power > 0 ==> s.best_trial < slices.len() && s.best_phase
                < slices[s.best_trial as int].len()
                && slices[s.best_trial as int][s.best_phase as int] == s.best_power
        }),
    decreases slices.len(),
{
    if slices.len() > 0 {
        let head = slices.drop_last();
        assert forall|t: int| 0 <= t < head.len() implies 0 < (#[trigger] head[t]).len()
            <= usize::MAX by {
            assert(head[t] == slices[t]);
        }
        law_strongest_correlation_is_found(head);
        let before = after_slices(head);
        let s = after_slices(slices);
        let last = slices.last();
        assert(last == slices[slices.len() - 1]);
        lemma_last_max(last);
        assert forall|t: int, c: int|
            0 <= t < slices.len() && 0 <= c < slices[t].len() implies #[trigger] slices[t][c]
            <= s.best_power by {
            if t < head.len() {
                assert(head[t][c] == slices[t][c]);
            }
        }
    }
}

/// Code phase in millionths of a chip of a phase in samples, rounded down.
pub open spec fn microchips_of(phase: int, block_size: int) -> int {
    phase * 1_023_000_000 / block_size
}

/// Code phase in millionths of a chip of a phase in samples, of a code that
/// lasts `block_size` samples.
pub fn code_phase_microchips(phase: usize, block_size: usize) -> (microchips: u64)
    requires
        phase < block_size,
    ensures
        microchips == microchips_of(phase as int, block_size as int),
        microchips < 1_023_000_000,
{
    let product: u128 = phase as u128 * 1_023_000_000;
    let quotient: u128 = product / block_size as u128;
    proof {
        let n = block_size as int;
        let p = phase as int;
        let q = quotient as int;
        vstd::arithmetic::div_mod::lemma_fundamental_div_mod(p * 1_023_000_000, n);
        let r = (p * 1_023_000_000) % n;
        assert(0 <= q < 1_023_000_000) by (nonlinear_arith)
            requires
                0 <= p < n,
                p * 1_023_000_000 == n * q + r,
                0 <= r < n,
        ;
    }
    quotient as u64
}

/// Of equally strong correlations the earliest trial counts, and within it the
/// latest code phase.
pub proof fn law_earliest_of_equal_trials_counts(slices: Seq<Seq<u32>>)
    requires
        slices.len() <= usize::MAX,
        forall|t: int| 0 <= t < slices.len() ==> 0 < (#[trigger] slices[t]).len() <= usize::MAX,
    ensures
        ({
            let s = after_slices(slices);
            &&& forall|t: int, c: int|
                0 <= t < s.best_trial && t < slices.len() && 0 <= c < slices[t].len()
                    ==> #[trigger] slices[t][c] < s.best_power
            &&& forall|c: int|
                s.best_power > 0 && s.best_phase < c < slices[s.best_trial as int].len()
                    ==> #[trigger] slices[s.best_trial as int][c] < s.best_power
            &&& s.best_power == 0 ==> s.best_trial == 0 && s.best_phase == 0
        }),
    decreases slices.len(),
{
    if slices.len() > 0 {
        let head = slices.drop_last();
        assert forall|t: int| 0 <= t < head.len() implies 0 < (#[trigger] head[t]).len()
            <= usize::MAX by {
            assert(head[t] == slices[t]);
        }
        law_earliest_of_equal_trials_counts(head);
        law_strongest_correlation_is_found(head);
        let before = after_slices(head);
        let s = after_slices(slices);
        let last = slices.last();
        assert(last == slices[slices.len() - 1]);
        lemma_last_max(last);
        assert forall|t: int, c: int|
            0 <= t < s.best_trial && t < slices.len() && 0 <= c < slices[t].len() implies
            #[trigger] slices[t][c] < s.best_power by {
            if t < head.len() {
                assert(head[t][c] == slices[t][c]);
            }
        }
        if s.best_power > 0 {
            let w = s.best_trial as int;
            assert forall|c: int| s.best_phase < c < slices[w].len() implies #[trigger] slices[w][c]
                < s.best_power by {
                if w < head.len() {
                    assert(head[w][c] == slices[w][c]);
                }
            }
        }
    }
}

/// A code phase in samples is to the length of the code in samples as its chips are
/// to 1023, rounded down to a millionth of a chip.
pub proof fn law_samples_are_scaled_to_chips(phase: int, block_size: int)
    requires
        0 <= phase < block_size,
    ensures
        ({
            let m = microchips_of(phase, block_size);
            &&& 0 <= m < 1_023_000_000
            &&& block_size * m <= phase * 1_023_000_000 < block_size * (m + 1)
        }),
{
    let x = phase * 1_023_000_000;
    let m = microchips_of(phase, block_size);
    vstd::arithmetic::div_mod::lemma_fundamental_div_mod(x, block_size);
    vstd::arithmetic::div_mod::lemma_mod_bound(x, block_size);
    vstd::arithmetic::div_mod::lemma_div_pos_is_pos(x, block_size);
    assert(block_size * (m + 1) == block_size * m + block_size) by (nonlinear_arith);
    assert(m < 1_023_000_000) by (nonlinear_arith)
        requires
            block_size * m <= phase * 1_023_000_000,
            0 <= phase < block_size,
            0 <= m,
    ;
}

} // verus!
