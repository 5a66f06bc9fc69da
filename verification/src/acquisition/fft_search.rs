//! Search for a satellite over Doppler shift and code phase: the grid of the
//! search, the surface of correlation powers and what is found on it.
//!
//! Doppler shifts are in millihertz. A power is given by an order key: the bits
//! of the non-negative floating-point number, which sort as the numbers do.

use crate::acquisition::correlator::{code_phase_microchips, microchips_of};
use crate::acquisition::ranking::{descending, rank_descending, ranked, Ranked};
use vstd::prelude::*;

verus! {

/// Grid and threshold of a search.
#[derive(Debug, Clone, Copy, PartialEq, Eq, Structural)]
pub struct SearchConfig {
    /// Smallest Doppler shift.
    pub doppler_min_mhz: i64,
    /// Largest Doppler shift.
    pub doppler_max_mhz: i64,
    /// Step between trials.
    pub doppler_step_mhz: i64,
    /// Smallest ratio of peak to noise that counts as a detection, in
    /// thousandths.
    pub cfar_threshold_milli: u64,
}

/// What a search for one satellite has found.
#[derive(Debug, Clone, Copy, PartialEq, Eq, Structural)]
pub struct SearchResult {
    /// Number of the satellite.
    pub prn: u8,
    /// Doppler shift of the best trial.
    pub doppler_coarse_mhz: i64,
    /// Doppler shift interpolated between trials.
    pub doppler_fine_mhz: i64,
    /// Code phase in samples.
    pub code_phase_samples: usize,
    /// Code phase in millionths of a chip.
    pub code_phase_microchips: u64,
    /// Ratio of peak to noise, in thousandths.
    pub peak_to_noise_milli: u64,
    /// Whether the ratio reaches the threshold.
    pub detected: bool,
}

impl Default for SearchConfig {
    fn default() -> (config: Self)
        ensures
            config.doppler_min_mhz == -10_000_000,
            config.doppler_max_mhz == 10_000_000,
            config.doppler_step_mhz == 500_000,
            config.cfar_threshold_milli == 3000,
    {
        SearchConfig {
            doppler_min_mhz: -10_000_000,
            doppler_max_mhz: 10_000_000,
            doppler_step_mhz: 500_000,
            cfar_threshold_milli: 3000,
        }
    }
}

/// Number of trials of a search: the number of steps in its span, rounded to the
/// nearest, halves up, and one more.
pub open spec fn trial_count(config: SearchConfig) -> int {
    let span = config.doppler_max_mhz - config.doppler_min_mhz;
    if span < 0 {
        1
    } else {
        (2 * span + config.doppler_step_mhz) / (2 * config.doppler_step_mhz) + 1
    }
}

/// Doppler shift of trial `i`.
pub open spec fn trial_mhz(config: SearchConfig, i: int) -> int {
    config.doppler_min_mhz + i * config.doppler_step_mhz
}

/// Whether the grid has a direction and its trials stay within range.
pub open spec fn grid_ok(config: SearchConfig) -> bool {
    &&& config.doppler_step_mhz > 0
    &&& trial_mhz(config, trial_count(config) - 1) <= i64::MAX
    &&& trial_count(config) <= usize::MAX
}

impl SearchConfig {
    /// Number of trials of the search.
    pub fn num_doppler_bins(&self) -> (n: usize)
        requires
            grid_ok(*self),
        ensures
            n == trial_count(*self),
            n >= 1,
    {
        let step: i128 = self.doppler_step_mhz as i128;
        let span: i128 = self.doppler_max_mhz as i128 - self.doppler_min_mhz as i128;
        if span < 0 {
            return 1;
        }
        let doubled: u128 = (2 * span + step) as u128;
        let divisor: u128 = (2 * step) as u128;
        (doubled / divisor + 1) as usize
    }

    /// Doppler shifts of all trials, in order.
    pub fn doppler_trials(&self) -> (trials: Vec<i64>)
        requires
            grid_ok(*self),
        ensures
            trials@.len() == trial_count(*self),
            forall|i: int| 0 <= i < trials@.len() ==> #[trigger] trials@[i] == trial_mhz(*self, i),
    {
        let n: usize = self.num_doppler_bins();
        let mut trials: Vec<i64> = Vec::with_capacity(n);
        let mut i: usize = 0;
        while i < n
            invariant
                i <= n,
                n == trial_count(*self),
                grid_ok(*self),
                trials@.len() == i,
                forall|j: int| 0 <= j < i ==> #[trigger] trials@[j] == trial_mhz(*self, j),
            decreases n - i,
        {
            proof {
                let step = self.doppler_step_mhz as int;
                assert(0 <= i * step <= (n - 1) * step) by (nonlinear_arith)
                    requires
                        0 <= i <= n - 1,
                        step > 0,
                ;
            }
            let offset: i128 = i as i128 * self.doppler_step_mhz as i128;
            trials.push((self.doppler_min_mhz as i128 + offset) as i64);
            i = i + 1;
        }
        trials
    }
}

impl SearchConfig {
    /// Doppler shifts from the lower end on, in order, up to half a step beyond the
    /// upper end; none where the lower end lies beyond that.
    pub fn trials_within_span(&self) -> (trials: Vec<i64>)
        requires
            grid_ok(*self),
        ensures
            forall|i: int| 0 <= i < trials@.len() ==> #[trigger] trials@[i] == trial_mhz(*self, i),
            forall|i: int|
                0 <= i ==> (i < trials@.len() <==> 2 * #[trigger] trial_mhz(*self, i) <= 2
                    * self.doppler_max_mhz + self.doppler_step_mhz),
    {
        let span: i128 = self.doppler_max_mhz as i128 - self.doppler_min_mhz as i128;
        let reach: i128 = 2 * span + self.doppler_step_mhz as i128;
        let trials: Vec<i64> = if reach < 0 {
            Vec::new()
        } else {
            self.doppler_trials()
        };
        assert forall|i: int| 0 <= i implies (i < trials@.len() <==> 2 * #[trigger] trial_mhz(
            *self,
            i,
        ) <= 2 * self.doppler_max_mhz + self.doppler_step_mhz) by {
            lemma_trials_reach(*self, i);
        }
        trials
    }
}

/// A trial belongs to the search exactly when it lies no farther than half a step
/// beyond the upper end.
proof fn lemma_trials_reach(config: SearchConfig, i: int)
    requires
        config.doppler_step_mhz > 0,
        0 <= i,
    ensures
        ({
            let step = config.doppler_step_mhz as int;
            let reach = 2 * (config.doppler_max_mhz - config.doppler_min_mhz) + step;
            let within = 2 * trial_mhz(config, i) <= 2 * config.doppler_max_mhz + step;
            &&& reach < 0 ==> !within
            &&& reach >= 0 ==> (within <==> i < trial_count(config))
        }),
{
    let step = config.doppler_step_mhz as int;
    let reach = 2 * (config.doppler_max_mhz - config.doppler_min_mhz) + step;
    let d = 2 * step;
    let q = reach / d;
    let r = reach % d;
    vstd::arithmetic::div_mod::lemma_fundamental_div_mod(reach, d);
    vstd::arithmetic::div_mod::lemma_mod_bound(reach, d);
    assert(2 * (i * step) == i * d) by (nonlinear_arith)
        requires
            d == 2 * step,
    ;
    assert(i * d >= 0) by (nonlinear_arith)
        requires
            i >= 0,
            d > 0,
    ;
    assert(i <= q ==> i * d <= reach) by (nonlinear_arith)
        requires
            reach == d * q + r,
            0 <= r < d,
    ;
    assert(i > q ==> i * d > reach) by (nonlinear_arith)
        requires
            reach == d * q + r,
            0 <= r < d,
    ;
    assert(0 <= reach < d ==> q == 0) by (nonlinear_arith)
        requires
            reach == d * q + r,
            0 <= r < d,
    ;
}

/// The trials cover the span of the search: they begin at its lower end and end
/// no farther than half a step from its upper end.
pub proof fn law_trials_cover_the_span(config: SearchConfig)
    requires
        config.doppler_step_mhz > 0,
        config.doppler_min_mhz <= config.doppler_max_mhz,
    ensures
        trial_count(config) >= 1,
        trial_mhz(config, 0) == config.doppler_min_mhz,
        ({
            let beyond = trial_mhz(config, trial_count(config) - 1) - config.doppler_max_mhz;
            -config.doppler_step_mhz < 2 * beyond <= config.doppler_step_mhz
        }),
{
    let step = config.doppler_step_mhz as int;
    let span = config.doppler_max_mhz - config.doppler_min_mhz;
    let a = 2 * span + step;
    let d = 2 * step;
    let q = a / d;
    let r = a % d;
    vstd::arithmetic::div_mod::lemma_fundamental_div_mod(a, d);
    vstd::arithmetic::div_mod::lemma_mod_bound(a, d);
    vstd::arithmetic::div_mod::lemma_div_pos_is_pos(a, d);
    assert(2 * (q * step) == a - r) by (nonlinear_arith)
        requires
            a == d * q + r,
            d == 2 * step,
    ;
}

impl SearchResult {
    /// The result of a search for satellite `prn` whose peak lies at trial
    /// `trial` and code phase `code_phase`, of a code that lasts `block_size`
    /// samples.
    pub fn at_peak(
        config: &SearchConfig,
        prn: u8,
        trial: usize,
        code_phase: usize,
        block_size: usize,
        doppler_fine_mhz: i64,
        peak_to_noise_milli: u64,
    ) -> (result: Self)
        requires
            grid_ok(*config),
            trial < trial_count(*config),
            code_phase < block_size,
        ensures
            result.prn == prn,
            result.doppler_coarse_mhz == trial_mhz(*config, trial as int),
            result.doppler_fine_mhz == doppler_fine_mhz,
            result.code_phase_samples == code_phase,
            result.code_phase_microchips == microchips_of(code_phase as int, block_size as int),
            result.peak_to_noise_milli == peak_to_noise_milli,
            result.detected <==> peak_to_noise_milli >= config.cfar_threshold_milli,
    {
        let trials = config.doppler_trials();
        SearchResult {
            prn,
            doppler_coarse_mhz: trials[trial],
            doppler_fine_mhz,
            code_phase_samples: code_phase,
            code_phase_microchips: code_phase_microchips(code_phase, block_size),
            peak_to_noise_milli,
            detected: peak_to_noise_milli >= config.cfar_threshold_milli,
        }
    }
}

/// A surface of correlation powers: one row per Doppler trial, one column per
/// code phase.
pub struct SearchSurface {
    rows: Vec<Vec<u32>>,
}

/// Whether cell (d, c) lies before cell (e, b), row by row.
pub open spec fn cell_before(d: int, c: int, e: int, b: int) -> bool {
    d < e || d == e && c < b
}

/// Whether a cell is the peak of a surface: no cell holds more, and none before
/// it holds as much. On a surface of zeros it is the first cell, with nothing.
pub open spec fn is_global_peak(rows: Seq<Seq<u32>>, d: int, c: int, power: u32) -> bool {
    if power == 0 {
        &&& d == 0
        &&& c == 0
        &&& forall|e: int, b: int|
            0 <= e < rows.len() && 0 <= b < rows[e].len() ==> #[trigger] rows[e][b] == 0
    } else {
        &&& 0 <= d < rows.len()
        &&& 0 <= c < rows[d].len()
        &&& rows[d][c] == power
        &&& forall|e: int, b: int|
            0 <= e < rows.len() && 0 <= b < rows[e].len() ==> #[trigger] rows[e][b] <= power
        &&& forall|e: int, b: int|
            0 <= e < rows.len() && 0 <= b < rows[e].len() && cell_before(e, b, d, c)
                ==> #[trigger] rows[e][b] < power
    }
}

impl SearchSurface {
    /// The rows of the surface.
    pub closed spec fn view(&self) -> Seq<Seq<u32>> {
        Seq::new(self.rows@.len(), |d: int| self.rows@[d]@)
    }

    /// A surface of zeros, of `trials` rows of `block_size` cells.
    pub fn new(trials: usize, block_size: usize) -> (surface: Self)
        ensures
            surface@ == Seq::new(
                trials as nat,
                |d: int| Seq::new(block_size as nat, |c: int| 0u32),
            ),
    {
        let mut rows: Vec<Vec<u32>> = Vec::with_capacity(trials);
        let mut d: usize = 0;
        while d < trials
            invariant
                d <= trials,
                rows@.len() == d,
                forall|e: int|
                    0 <= e < d ==> (#[trigger] rows@[e])@ == Seq::new(
                        block_size as nat,
                        |c: int| 0u32,
                    ),
            decreases trials - d,
        {
            let mut row: Vec<u32> = Vec::with_capacity(block_size);
            let mut c: usize = 0;
            while c < block_size
                invariant
                    c <= block_size,
                    row@.len() == c,
                    forall|b: int| 0 <= b < c ==> #[trigger] row@[b] == 0,
                decreases block_size - c,
            {
                row.push(0);
                c = c + 1;
            }
            assert(row@ =~= Seq::new(block_size as nat, |c: int| 0u32));
            rows.push(row);
            d = d + 1;
        }
        let surface = SearchSurface { rows };
        assert(surface@ =~= Seq::new(
            trials as nat,
            |d: int| Seq::new(block_size as nat, |c: int| 0u32),
        ));
        surface
    }

    /// Sets the powers of one trial.
    pub fn set_row(&mut self, doppler_idx: usize, power: Vec<u32>)
        requires
            doppler_idx < old(self)@.len(),
        ensures
            final(self)@ == old(self)@.update(doppler_idx as int, power@),
    {
        self.rows[doppler_idx] = power;
        assert(self@ =~= old(self)@.update(doppler_idx as int, power@));
    }

    /// Trial, code phase and power of the peak of the surface.
    pub fn global_peak(&self) -> (peak: (usize, usize, u32))
        ensures
            is_global_peak(self@, peak.0 as int, peak.1 as int, peak.2),
    {
        let ghost rows = self@;
        let mut best_d: usize = 0;
        let mut best_c: usize = 0;
        let mut best_p: u32 = 0;
        let mut d: usize = 0;
        while d < self.rows.len()
            invariant
                d <= self.rows@.len(),
                rows == self@,
                is_global_peak(rows.take(d as int), best_d as int, best_c as int, best_p),
            decreases self.rows@.len() - d,
        {
            let ghost seen = rows.take(d as int);
            assert(rows.take(d + 1) =~= seen.push(rows[d as int]));
            let row = &self.rows[d];
            let mut c: usize = 0;
            assert(is_global_peak(
                seen.push(row@.take(0)),
                best_d as int,
                best_c as int,
                best_p,
            )) by {
                let s = seen.push(row@.take(0));
                assert forall|e: int, b: int|
                    0 <= e < s.len() && 0 <= b < s[e].len() implies e < d && #[trigger] s[e][b]
                    == seen[e][b] by {}
            }
            while c < row.len()
                invariant
                    c <= row@.len(),
                    seen.len() == d,
                    is_global_peak(
                        seen.push(row@.take(c as int)),
                        best_d as int,
                        best_c as int,
                        best_p,
                    ),
                decreases row@.len() - c,
            {
                let ghost before = seen.push(row@.take(c as int));
                let ghost after = seen.push(row@.take(c + 1));
                let p: u32 = row[c];
                proof {
                    assert forall|e: int, b: int|
                        0 <= e < after.len() && 0 <= b < after[e].len() && !(e == d && b
                            == c) implies 0 <= b < before[e].len() && #[trigger] after[e][b]
                        == before[e][b] by {
                        if e < d {
                            assert(after[e] == seen[e]);
                            assert(before[e] == seen[e]);
                        }
                    }
                    assert(after[d as int][c as int] == p);
                    if best_p > 0 {
                        assert(after[best_d as int][best_c as int]
                            == before[best_d as int][best_c as int]);
                    }
                }
                if p > best_p {
                    best_p = p;
                    best_d = d;
                    best_c = c;
                }
                c = c + 1;
            }
            assert(row@.take(c as int) =~= rows[d as int]);
            d = d + 1;
        }
        assert(rows.take(d as int) =~= rows);
        (best_d, best_c, best_p)
    }
}

impl Ranked for SearchResult {
    open spec fn key(&self) -> int {
        self.peak_to_noise_milli as int
    }

    fn rank(&self) -> (k: i128) {
        self.peak_to_noise_milli as i128
    }
}

/// The results that count as detections, strongest first.
pub fn strongest_first(results: &[SearchResult]) -> (detected: Vec<SearchResult>)
    ensures
        detected@ == ranked(results@.filter(|r: SearchResult| r.detected)),
        descending(detected@),
        detected@.to_multiset() == results@.filter(|r: SearchResult| r.detected).to_multiset(),
        forall|i: int, j: int|
            0 <= i <= j < detected@.len() ==> (#[trigger] detected@[i]).peak_to_noise_milli >= (
            #[trigger] detected@[j]).peak_to_noise_milli,
{
    let mut kept: Vec<SearchResult> = Vec::new();
    let mut i: usize = 0;
    while i < results.len()
        invariant
            i <= results@.len(),
            kept@ == results@.take(i as int).filter(|r: SearchResult| r.detected),
        decreases results@.len() - i,
    {
        proof {
            reveal(Seq::filter);
            assert(results@.take(i + 1).drop_last() =~= results@.take(i as int));
        }
        if results[i].detected {
            kept.push(results[i]);
        }
        i = i + 1;
    }
    assert(results@.take(i as int) =~= results@);
    let detected = rank_descending(&kept);
    assert forall|i: int, j: int| 0 <= i <= j < detected@.len() implies (
    #[trigger] detected@[i]).peak_to_noise_milli >= (#[trigger] detected@[j]).peak_to_noise_milli by {
        assert(detected@[i].key() >= detected@[j].key());
    }
    detected
}

/// The trials stand one step apart, from the lower end on.
pub proof fn law_trials_are_one_step_apart(config: SearchConfig, i: int)
    ensures
        trial_mhz(config, 0) == config.doppler_min_mhz,
        trial_mhz(config, i + 1) - trial_mhz(config, i) == config.doppler_step_mhz,
        config.doppler_max_mhz < config.doppler_min_mhz ==> trial_count(config) == 1,
{
    let step = config.doppler_step_mhz as int;
    assert((i + 1) * step == i * step + step) by (nonlinear_arith);
    assert(0 * step == 0);
}

/// Nothing on the surface exceeds its peak, and of cells as high as it the peak is
/// the first, row by row.
pub proof fn law_nothing_exceeds_the_peak(
    rows: Seq<Seq<u32>>,
    d: int,
    c: int,
    power: u32,
    e: int,
    b: int,
)
    requires
        is_global_peak(rows, d, c, power),
        0 <= e < rows.len(),
        0 <= b < rows[e].len(),
    ensures
        rows[e][b] <= power,
        power > 0 ==> 0 <= d < rows.len() && 0 <= c < rows[d].len() && rows[d][c] == power,
        power > 0 && rows[e][b] == power ==> d < e || d == e && c <= b,
        power == 0 ==> d == 0 && c == 0,
{
}

} // verus!
