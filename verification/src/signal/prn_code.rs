//! Ranging codes: the Gold codes of GPS L1 C/A and their correlations.

use std::collections::HashMap;

use vstd::prelude::*;

verus! {

broadcast use vstd::std_specs::hash::group_hash_axioms;

/// Stages of the G2 register, counted from one, that give the code of each
/// satellite, from satellite 1 on.
pub const G2_TAPS: [(u8, u8); 32] = [
    (2, 6), (3, 7), (4, 8), (5, 9), (1, 9), (2, 10), (1, 8), (2, 9),
    (3, 10), (2, 3), (3, 4), (5, 6), (6, 7), (7, 8), (8, 9), (9, 10),
    (1, 4), (2, 5), (3, 6), (4, 7), (5, 8), (6, 9), (1, 3), (4, 6),
    (5, 7), (6, 8), (7, 9), (8, 10), (1, 6), (2, 7), (3, 8), (4, 9),
];

/// Length of the GPS L1 C/A code in chips.
pub const GPS_CODE_LENGTH: usize = 1023;

/// Chip rate of GPS L1 C/A in chips per second.
pub const GPS_CHIP_RATE_HZ: u32 = 1_023_000;

/// Satellite systems.
#[derive(Debug, Clone, Copy, PartialEq, Eq, Hash, Structural)]
pub enum GnssSystem {
    /// GPS.
    Gps,
    /// GLONASS.
    Glonass,
    /// Galileo.
    Galileo,
}

/// A shift register after one step: `feedback` enters at the first stage.
pub open spec fn shifted(register: Seq<bool>, feedback: bool) -> Seq<bool> {
    seq![feedback] + register.take(9)
}

/// The G1 register before chip `n`: ten stages, all ones at first, fed back from
/// stages 3 and 10.
pub open spec fn g1_at(n: nat) -> Seq<bool>
    decreases n,
{
    if n == 0 {
        Seq::new(10, |i: int| true)
    } else {
        let g = g1_at((n - 1) as nat);
        shifted(g, g[2] ^ g[9])
    }
}

/// The G2 register before chip `n`: ten stages, all ones at first, fed back from
/// stages 2, 3, 6, 8, 9 and 10.
pub open spec fn g2_at(n: nat) -> Seq<bool>
    decreases n,
{
    if n == 0 {
        Seq::new(10, |i: int| true)
    } else {
        let g = g2_at((n - 1) as nat);
        shifted(g, g[1] ^ g[2] ^ g[5] ^ g[7] ^ g[8] ^ g[9])
    }
}

/// Chip `n` of the code of satellite `prn`: the last stage of G1 and two stages
/// of G2, zero as +1 and one as -1.
pub open spec fn ca_chip(prn: int, n: int) -> i8 {
    let (a, b) = G2_TAPS@[prn - 1];
    let g2 = g2_at(n as nat);
    if g1_at(n as nat)[9] ^ g2[a - 1] ^ g2[b - 1] {
        -1i8
    } else {
        1i8
    }
}

/// The code of satellite `prn`.
pub open spec fn ca_code(prn: int) -> Seq<i8> {
    Seq::new(1023, |n: int| ca_chip(prn, n))
}

/// Whether all chips are +1 or -1.
pub open spec fn is_bipolar(code: Seq<i8>) -> bool {
    forall|i: int| 0 <= i < code.len() ==> (#[trigger] code[i] == 1 || code[i] == -1)
}

/// One step of a shift register.
fn shift(register: &[bool; 10], feedback: bool) -> (next: [bool; 10])
    ensures
        next@ == shifted(register@, feedback),
{
    let next: [bool; 10] = [
        feedback,
        register[0],
        register[1],
        register[2],
        register[3],
        register[4],
        register[5],
        register[6],
        register[7],
        register[8],
    ];
    assert(next@ =~= shifted(register@, feedback));
    next
}

/// The GPS L1 C/A code of satellite `prn`, one period of chips +1 and -1.
pub fn generate_gps_ca(prn: u8) -> (code: Vec<i8>)
    requires
        1 <= prn <= 32,
    ensures
        code@ == ca_code(prn as int),
        code@.len() == 1023,
        is_bipolar(code@),
{
    let (tap_a, tap_b) = G2_TAPS[(prn - 1) as usize];
    assert(1 <= tap_a <= 10 && 1 <= tap_b <= 10);
    let ta: usize = (tap_a - 1) as usize;
    let tb: usize = (tap_b - 1) as usize;
    let mut g1: [bool; 10] = [true; 10];
    let mut g2: [bool; 10] = [true; 10];
    assert(g1@ =~= g1_at(0));
    assert(g2@ =~= g2_at(0));
    let mut code: Vec<i8> = Vec::with_capacity(GPS_CODE_LENGTH);
    let mut n: usize = 0;
    while n < GPS_CODE_LENGTH
        invariant
            n <= 1023,
            1 <= prn <= 32,
            G2_TAPS@[prn - 1] == (tap_a, tap_b),
            ta == tap_a - 1,
            tb == tap_b - 1,
            ta < 10,
            tb < 10,
            g1@ == g1_at(n as nat),
            g2@ == g2_at(n as nat),
            code@.len() == n,
            forall|i: int| 0 <= i < n ==> #[trigger] code@[i] == ca_chip(prn as int, i),
        decreases 1023 - n,
    {
        let chip = g1[9] ^ g2[ta] ^ g2[tb];
        code.push(
            if chip {
                -1i8
            } else {
                1i8
            },
        );
        g1 = shift(&g1, g1[2] ^ g1[9]);
        g2 = shift(&g2, g2[1] ^ g2[2] ^ g2[5] ^ g2[7] ^ g2[8] ^ g2[9]);
        n = n + 1;
    }
    assert(code@ =~= ca_code(prn as int));
    code
}

/// Sum of the squares of the chips.
pub open spec fn sum_of_squares(code: Seq<i8>) -> int
    decreases code.len(),
{
    if code.len() == 0 {
        0
    } else {
        sum_of_squares(code.drop_last()) + code.last() * code.last()
    }
}

/// The first `k` terms of the circular correlation of two codes at a lag.
pub open spec fn correlation_terms(a: Seq<i8>, b: Seq<i8>, lag: int, k: int) -> int
    decreases k,
{
    if k <= 0 {
        0
    } else {
        correlation_terms(a, b, lag, k - 1) + a[k - 1] * b[(k - 1 + lag) % (a.len() as int)]
    }
}

/// The circular correlation of two codes of equal length at a lag.
pub open spec fn correlation(a: Seq<i8>, b: Seq<i8>, lag: int) -> int {
    correlation_terms(a, b, lag, a.len() as int)
}

/// Whether the correlations of two codes fit into 32 bits: codes of +1 and -1,
/// or short ones.
pub open spec fn correlation_fits(a: Seq<i8>, b: Seq<i8>) -> bool {
    a.len() * 16384 <= i32::MAX || is_bipolar(a) && is_bipolar(b) && a.len() <= i32::MAX
}

/// Bound of each partial sum of a correlation.
proof fn lemma_terms_bound(a: Seq<i8>, b: Seq<i8>, lag: int, k: int)
    requires
        a.len() == b.len(),
        0 <= k <= a.len(),
        0 <= lag,
        correlation_fits(a, b),
    ensures
        i32::MIN < correlation_terms(a, b, lag, k) <= i32::MAX,
        is_bipolar(a) && is_bipolar(b) ==> -k <= correlation_terms(a, b, lag, k) <= k,
        -16384 * k <= correlation_terms(a, b, lag, k) <= 16384 * k,
    decreases k,
{
    if k > 0 {
        lemma_terms_bound(a, b, lag, k - 1);
        let j = (k - 1 + lag) % (a.len() as int);
        assert(0 <= j < a.len());
        let x = a[k - 1] as int;
        let y = b[j] as int;
        assert(-16384 <= x * y <= 16384) by (nonlinear_arith)
            requires
                -128 <= x <= 127,
                -128 <= y <= 127,
        ;
        if is_bipolar(a) && is_bipolar(b) {
            assert(a[k - 1] == 1 || a[k - 1] == -1);
            assert(b[j] == 1 || b[j] == -1);
            assert(x * y == 1 || x * y == -1) by (nonlinear_arith)
                requires
                    x == 1 || x == -1,
                    y == 1 || y == -1,
            ;
        }
    }
}

/// Circular correlation of two codes of equal length at a lag.
fn correlation_at_lag(a: &[i8], b: &[i8], lag: usize) -> (value: i32)
    requires
        a@.len() == b@.len(),
        correlation_fits(a@, b@),
        lag + a@.len() <= usize::MAX,
    ensures
        value == correlation(a@, b@, lag as int),
{
    let n: usize = a.len();
    let mut sum: i32 = 0;
    let mut i: usize = 0;
    while i < n
        invariant
            i <= n,
            n == a@.len(),
            n == b@.len(),
            lag + n <= usize::MAX,
            correlation_fits(a@, b@),
            sum == correlation_terms(a@, b@, lag as int, i as int),
        decreases n - i,
    {
        let j: usize = (i + lag) % n;
        let x: i32 = a[i] as i32;
        let y: i32 = b[j] as i32;
        proof {
            lemma_terms_bound(a@, b@, lag as int, i + 1);
            assert(-16384 <= x * y <= 16384) by (nonlinear_arith)
                requires
                    -128 <= x <= 127,
                    -128 <= y <= 127,
            ;
        }
        sum = sum + x * y;
        i = i + 1;
    }
    sum
}

/// Auto-correlation of a code at lag zero.
pub fn autocorrelation_at_zero(code: &[i8]) -> (value: i64)
    requires
        code@.len() * 16384 <= i64::MAX,
    ensures
        value == sum_of_squares(code@),
{
    let mut sum: i64 = 0;
    let mut i: usize = 0;
    while i < code.len()
        invariant
            i <= code@.len(),
            code@.len() * 16384 <= i64::MAX,
            sum == sum_of_squares(code@.take(i as int)),
            0 <= sum <= i * 16384,
        decreases code@.len() - i,
    {
        assert(code@.take(i + 1).drop_last() =~= code@.take(i as int));
        let c: i64 = code[i] as i64;
        assert(0 <= c * c <= 16384) by (nonlinear_arith)
            requires
                -128 <= c <= 127,
        ;
        sum = sum + c * c;
        i = i + 1;
    }
    assert(code@.take(i as int) =~= code@);
    sum
}

/// Circular cross-correlation of two codes: element `k` is the correlation at
/// lag `k`.
pub fn circular_cross_correlation(code_a: &[i8], code_b: &[i8]) -> (values: Vec<i32>)
    requires
        code_a@.len() == code_b@.len(),
        correlation_fits(code_a@, code_b@),
        2 * code_a@.len() <= usize::MAX,
    ensures
        values@.len() == code_a@.len(),
        forall|lag: int|
            0 <= lag < values@.len() ==> #[trigger] values@[lag] == correlation(
                code_a@,
                code_b@,
                lag,
            ),
{
    let n: usize = code_a.len();
    let mut values: Vec<i32> = Vec::with_capacity(n);
    let mut lag: usize = 0;
    while lag < n
        invariant
            lag <= n,
            n == code_a@.len(),
            n == code_b@.len(),
            correlation_fits(code_a@, code_b@),
            2 * n <= usize::MAX,
            values@.len() == lag,
            forall|k: int|
                0 <= k < lag ==> #[trigger] values@[k] == correlation(code_a@, code_b@, k),
        decreases n - lag,
    {
        values.push(correlation_at_lag(code_a, code_b, lag));
        lag = lag + 1;
    }
    values
}

/// Circular auto-correlation of a code at one lag.
pub fn autocorrelation_at_lag(code: &[i8], lag: usize) -> (value: i32)
    requires
        correlation_fits(code@, code@),
        lag + code@.len() <= usize::MAX,
    ensures
        value == correlation(code@, code@, lag as int),
{
    correlation_at_lag(code, code, lag)
}

/// A code of +1 and -1 correlates with itself, at lag zero, to its length.
pub proof fn law_autocorrelation_peak(code: Seq<i8>)
    requires
        is_bipolar(code),
    ensures
        sum_of_squares(code) == code.len(),
        correlation(code, code, 0) == code.len(),
{
    lemma_sum_of_squares(code);
    lemma_peak_terms(code, code.len() as int);
}

proof fn lemma_sum_of_squares(code: Seq<i8>)
    requires
        is_bipolar(code),
    ensures
        sum_of_squares(code) == code.len(),
    decreases code.len(),
{
    if code.len() > 0 {
        let head = code.drop_last();
        assert forall|i: int| 0 <= i < head.len() implies (#[trigger] head[i] == 1 || head[i]
            == -1) by {
            assert(code[i] == head[i]);
        }
        lemma_sum_of_squares(head);
        assert(code[code.len() - 1] == 1 || code[code.len() - 1] == -1);
        assert(1 * 1 == 1 && (-1) * (-1) == 1) by (nonlinear_arith);
    }
}

proof fn lemma_peak_terms(code: Seq<i8>, k: int)
    requires
        is_bipolar(code),
        0 <= k <= code.len(),
    ensures
        correlation_terms(code, code, 0, k) == k,
    decreases k,
{
    if k > 0 {
        lemma_peak_terms(code, k - 1);
        vstd::arithmetic::div_mod::lemma_small_mod((k - 1) as nat, code.len());
        assert(code[k - 1] == 1 || code[k - 1] == -1);
        assert(1 * 1 == 1 && (-1) * (-1) == 1) by (nonlinear_arith);
    }
}

/// No lag gives more: the correlation of two codes of +1 and -1 never exceeds
/// their length.
pub proof fn law_correlation_is_bounded(a: Seq<i8>, b: Seq<i8>, lag: int)
    requires
        a.len() == b.len(),
        is_bipolar(a),
        is_bipolar(b),
        0 <= lag,
        a.len() <= i32::MAX,
    ensures
        -(a.len() as int) <= correlation(a, b, lag) <= a.len(),
{
    lemma_terms_bound(a, b, lag, a.len() as int);
}

/// Behind the end of the codes the correlation goes on as that of the codes in the
/// other order.
proof fn lemma_mirrored_terms(a: Seq<i8>, b: Seq<i8>, lag: int, m: int)
    requires
        a.len() == b.len(),
        0 <= lag <= a.len(),
        a.len() - lag <= m <= a.len(),
    ensures
        correlation_terms(a, b, lag, m) == correlation_terms(a, b, lag, a.len() - lag)
            + correlation_terms(b, a, a.len() - lag, m - (a.len() - lag)),
    decreases m,
{
    let n = a.len() as int;
    if m > n - lag {
        lemma_mirrored_terms(a, b, lag, m - 1);
        let i = m - 1;
        let j = i - (n - lag);
        vstd::arithmetic::div_mod::lemma_fundamental_div_mod_converse(i + lag, n, 1, j);
        vstd::arithmetic::div_mod::lemma_small_mod(i as nat, n as nat);
        assert(j + (n - lag) == i);
        let x = a[i] as int;
        let y = b[j] as int;
        assert(x * y == y * x) by (nonlinear_arith);
    }
}

/// The correlation of two codes at a lag is that of the codes in the other order at
/// the rest of the period.
pub proof fn law_correlation_is_mirrored(a: Seq<i8>, b: Seq<i8>, lag: int)
    requires
        a.len() == b.len(),
        0 <= lag <= a.len(),
    ensures
        correlation(a, b, lag) == correlation(b, a, a.len() - lag),
{
    lemma_mirrored_terms(a, b, lag, a.len() as int);
    lemma_mirrored_terms(b, a, a.len() - lag, a.len() as int);
}

/// At lag zero the correlation does not depend on the order of the codes.
pub proof fn law_correlation_at_zero_is_symmetric(a: Seq<i8>, b: Seq<i8>)
    requires
        a.len() == b.len(),
    ensures
        correlation(a, b, 0) == correlation(b, a, 0),
{
    lemma_symmetric_terms(a, b, a.len() as int);
}

proof fn lemma_symmetric_terms(a: Seq<i8>, b: Seq<i8>, k: int)
    requires
        a.len() == b.len(),
        0 <= k <= a.len(),
    ensures
        correlation_terms(a, b, 0, k) == correlation_terms(b, a, 0, k),
    decreases k,
{
    if k > 0 {
        lemma_symmetric_terms(a, b, k - 1);
        vstd::arithmetic::div_mod::lemma_small_mod((k - 1) as nat, a.len());
        let x = a[k - 1] as int;
        let y = b[k - 1] as int;
        assert(x * y == y * x) by (nonlinear_arith);
    }
}

/// All codes of GPS, generated once.
pub struct PrnCodeCache {
    gps: HashMap<u8, Vec<i8>>,
}

/// The codes of the GPS satellites 1 to 32.
pub open spec fn gps_codes() -> Map<u8, Seq<i8>> {
    Map::new(|prn: u8| 1 <= prn <= 32, |prn: u8| ca_code(prn as int))
}

/// The chip that is heard at sample `i` of `n` over one period of the code.
pub open spec fn resampled_index(i: int, n: int) -> int {
    i * 1023 / n
}

/// The chip that is heard at sample `i` of `n` when the code is ahead by a phase
/// given in units of 10^-9 chips.
pub open spec fn phased_index(i: int, n: int, phase_nanochips: int) -> int {
    ((i * 1023 * 1_000_000_000 + phase_nanochips * n) / (n * 1_000_000_000)) % 1023
}

impl PrnCodeCache {
    /// The cache holds the codes of satellites 1 to 32 and nothing else.
    #[verifier::type_invariant]
    spec fn inv(&self) -> bool {
        &&& forall|prn: u8| #[trigger] self.gps@.contains_key(prn) <==> 1 <= prn <= 32
        &&& forall|prn: u8|
            1 <= prn <= 32 ==> (#[trigger] self.gps@[prn])@ == ca_code(prn as int)
    }

    /// The codes held, by satellite.
    pub closed spec fn view(&self) -> Map<u8, Seq<i8>> {
        Map::new(|prn: u8| self.gps@.contains_key(prn), |prn: u8| self.gps@[prn]@)
    }

    /// Generates the codes of satellites 1 to 32.
    pub fn new() -> (cache: Self)
        ensures
            cache@ == gps_codes(),
    {
        let mut gps: HashMap<u8, Vec<i8>> = HashMap::with_capacity(32);
        let mut prn: u8 = 1;
        while prn <= 32
            invariant
                1 <= prn <= 33,
                forall|p: u8| #[trigger] gps@.contains_key(p) <==> 1 <= p < prn,
                forall|p: u8| 1 <= p < prn ==> (#[trigger] gps@[p])@ == ca_code(p as int),
            decreases 33 - prn,
        {
            gps.insert(prn, generate_gps_ca(prn));
            prn = prn + 1;
        }
        let cache = PrnCodeCache { gps };
        assert(cache@ =~= gps_codes());
        cache
    }

    /// The code of GPS satellite `prn`.
    pub fn get_gps(&self, prn: u8) -> (code: Option<&[i8]>)
        ensures
            code is Some <==> 1 <= prn <= 32,
            code matches Some(c) ==> c@ == ca_code(prn as int),
    {
        proof {
            use_type_invariant(self);
        }
        match self.gps.get(&prn) {
            Some(code) => Some(code.as_slice()),
            None => None,
        }
    }

    /// The code of a GLONASS satellite; there is none yet.
    pub fn get_glonass(&self, _slot: u8) -> (code: Option<&[i8]>)
        ensures
            code is None,
    {
        None
    }

    /// The E1 code of a Galileo satellite; there is none yet.
    pub fn get_galileo_e1(&self, _svid: u8) -> (code: Option<&[i8]>)
        ensures
            code is None,
    {
        None
    }

    /// One period of the code of satellite `prn` in `n_samples` samples: sample
    /// `i` is the chip at `i * 1023 / n_samples`, rounded down.
    pub fn resample_gps(&self, prn: u8, n_samples: usize) -> (samples: Option<Vec<i8>>)
        requires
            n_samples * 1023 <= usize::MAX,
        ensures
            samples is Some <==> 1 <= prn <= 32,
            samples matches Some(s) ==> {
                &&& s@.len() == n_samples
                &&& forall|i: int|
                    0 <= i < n_samples ==> #[trigger] s@[i] == ca_code(
                        prn as int,
                    )[resampled_index(i, n_samples as int)]
            },
    {
        let code = match self.get_gps(prn) {
            Some(code) => code,
            None => {
                return None;
            },
        };
        let mut samples: Vec<i8> = Vec::with_capacity(n_samples);
        let mut i: usize = 0;
        while i < n_samples
            invariant
                i <= n_samples,
                n_samples * 1023 <= usize::MAX,
                code@ == ca_code(prn as int),
                samples@.len() == i,
                forall|j: int|
                    0 <= j < i ==> #[trigger] samples@[j] == ca_code(
                        prn as int,
                    )[resampled_index(j, n_samples as int)],
            decreases n_samples - i,
        {
            proof {
                lemma_resampled_index(i as int, n_samples as int);
            }
            let chip: usize = i * GPS_CODE_LENGTH / n_samples;
            samples.push(code[chip]);
            i = i + 1;
        }
        Some(samples)
    }

    /// One period of the code of satellite `prn` in `n_samples` samples, ahead by
    /// `phase_nanochips`, in units of 10^-9 chips; the code wraps around.
    pub fn resample_gps_with_phase(
        &self,
        prn: u8,
        n_samples: usize,
        phase_nanochips: u64,
    ) -> (samples: Option<Vec<i8>>)
        ensures
            samples is Some <==> 1 <= prn <= 32,
            samples matches Some(s) ==> {
                &&& s@.len() == n_samples
                &&& forall|i: int|
                    0 <= i < n_samples ==> #[trigger] s@[i] == ca_code(
                        prn as int,
                    )[phased_index(i, n_samples as int, phase_nanochips as int)]
            },
    {
        let code = match self.get_gps(prn) {
            Some(code) => code,
            None => {
                return None;
            },
        };
        let phase: u64 = phase_nanochips % 1_023_000_000_000;
        let mut samples: Vec<i8> = Vec::with_capacity(n_samples);
        let mut i: usize = 0;
        while i < n_samples
            invariant
                i <= n_samples,
                phase == phase_nanochips % 1_023_000_000_000,
                code@ == ca_code(prn as int),
                samples@.len() == i,
                forall|j: int|
                    0 <= j < i ==> #[trigger] samples@[j] == ca_code(
                        prn as int,
                    )[phased_index(j, n_samples as int, phase_nanochips as int)],
            decreases n_samples - i,
        {
            let n: u128 = n_samples as u128;
            let p: u128 = phase as u128;
            assert(p * n <= 1_023_000_000_000 * 0xFFFF_FFFF_FFFF_FFFF) by (nonlinear_arith)
                requires
                    0 <= p <= 1_023_000_000_000,
                    0 <= n <= 0xFFFF_FFFF_FFFF_FFFF,
            ;
            proof {
                lemma_whole_periods_of_phase(
                    i as int,
                    n_samples as int,
                    phase as int,
                    phase_nanochips as int / 1_023_000_000_000,
                );
            }
            let position: u128 = i as u128 * 1_023_000_000_000 + p * n;
            let chip: u128 = (position / (n * 1_000_000_000)) % 1023;
            samples.push(code[chip as usize]);
            i = i + 1;
        }
        Some(samples)
    }
}

impl Default for PrnCodeCache {
    fn default() -> (cache: Self)
        ensures
            cache@ == gps_codes(),
    {
        Self::new()
    }
}

/// A sample falls onto a chip of the code, and with as many samples as chips,
/// onto the chip of the same number.
proof fn lemma_resampled_index(i: int, n: int)
    requires
        0 <= i < n,
    ensures
        0 <= resampled_index(i, n) < 1023,
        n == 1023 ==> resampled_index(i, n) == i,
{
    vstd::arithmetic::div_mod::lemma_fundamental_div_mod(i * 1023, n);
    let q = i * 1023 / n;
    let r = (i * 1023) % n;
    assert(0 <= q < 1023) by (nonlinear_arith)
        requires
            0 <= i < n,
            i * 1023 == n * q + r,
            0 <= r < n,
    ;
}

/// With 1023 samples per period, resampling gives the code itself.
pub proof fn law_resampling_at_chip_rate_is_identity(i: int)
    requires
        0 <= i < 1023,
    ensures
        resampled_index(i, 1023) == i,
{
    lemma_resampled_index(i, 1023);
}

/// Without a phase, the phased resampling is the plain one.
pub proof fn law_zero_phase_is_no_phase(i: int, n: int)
    requires
        0 <= i < n,
    ensures
        phased_index(i, n, 0) == resampled_index(i, n),
{
    lemma_resampled_index(i, n);
    let q = resampled_index(i, n);
    let r = (i * 1023) % n;
    vstd::arithmetic::div_mod::lemma_fundamental_div_mod(i * 1023, n);
    assert(i * 1023 * 1_000_000_000 + 0 * n == q * (n * 1_000_000_000) + r * 1_000_000_000)
        by (nonlinear_arith)
        requires
            i * 1023 == n * q + r,
    ;
    vstd::arithmetic::div_mod::lemma_fundamental_div_mod_converse(
        i * 1023 * 1_000_000_000 + 0 * n,
        n * 1_000_000_000,
        q,
        r * 1_000_000_000,
    );
    vstd::arithmetic::div_mod::lemma_small_mod(q as nat, 1023);
}

/// A phase of a whole period more changes nothing: the code wraps around.
pub proof fn law_phase_wraps_after_a_period(i: int, n: int, phase_nanochips: int)
    requires
        0 <= i < n,
        0 <= phase_nanochips,
    ensures
        phased_index(i, n, phase_nanochips + 1023 * 1_000_000_000) == phased_index(
            i,
            n,
            phase_nanochips,
        ),
{
    let d = n * 1_000_000_000;
    let x = i * 1023 * 1_000_000_000 + phase_nanochips * n;
    let y = i * 1023 * 1_000_000_000 + (phase_nanochips + 1023 * 1_000_000_000) * n;
    assert(y == d * 1023 + x) by (nonlinear_arith)
        requires
            d == n * 1_000_000_000,
            x == i * 1023 * 1_000_000_000 + phase_nanochips * n,
            y == i * 1023 * 1_000_000_000 + (phase_nanochips + 1023 * 1_000_000_000) * n,
    ;
    vstd::arithmetic::div_mod::lemma_hoist_over_denominator(x, 1023, d as nat);
    vstd::arithmetic::mul::lemma_mul_is_commutative(1023, d);
    vstd::arithmetic::div_mod::lemma_mod_add_multiples_vanish(x / d, 1023);
}

/// Whole periods of phase change nothing.
proof fn lemma_whole_periods_of_phase(i: int, n: int, phase_nanochips: int, periods: int)
    requires
        0 <= i < n,
        0 <= phase_nanochips,
        0 <= periods,
    ensures
        phased_index(i, n, phase_nanochips + 1_023_000_000_000 * periods) == phased_index(
            i,
            n,
            phase_nanochips,
        ),
    decreases periods,
{
    if periods > 0 {
        let before = phase_nanochips + 1_023_000_000_000 * (periods - 1);
        lemma_whole_periods_of_phase(i, n, phase_nanochips, periods - 1);
        law_phase_wraps_after_a_period(i, n, before);
    }
}

/// The first chips of a code, read as a binary number.
spec fn signature(prn: int) -> int {
    512 * chip_bit(prn, 0) + 256 * chip_bit(prn, 1) + 128 * chip_bit(prn, 2) + 64 * chip_bit(prn, 3)
        + 32 * chip_bit(prn, 4) + 16 * chip_bit(prn, 5) + 8 * chip_bit(prn, 6) + 4 * chip_bit(
        prn,
        7,
    ) + 2 * chip_bit(prn, 8) + chip_bit(prn, 9)
}

spec fn chip_bit(prn: int, n: int) -> int {
    if ca_chip(prn, n) == -1 {
        1
    } else {
        0
    }
}

/// The G1 register gives out ten ones first.
proof fn lemma_g1_starts_with_ones(n: nat)
    requires
        n < 10,
    ensures
        g1_at(n).len() == 10,
        forall|i: int| n <= i < 10 ==> #[trigger] g1_at(n)[i],
    decreases n,
{
    if n > 0 {
        lemma_g1_starts_with_ones((n - 1) as nat);
    }
}

/// The G2 register over its first ten steps.
proof fn lemma_g2_start()
    ensures
        g2_at(0) == seq![true, true, true, true, true, true, true, true, true, true],
        g2_at(1) == seq![false, true, true, true, true, true, true, true, true, true],
        g2_at(2) == seq![false, false, true, true, true, true, true, true, true, true],
        g2_at(3) == seq![true, false, false, true, true, true, true, true, true, true],
        g2_at(4) == seq![false, true, false, false, true, true, true, true, true, true],
        g2_at(5) == seq![true, false, true, false, false, true, true, true, true, true],
        g2_at(6) == seq![true, true, false, true, false, false, true, true, true, true],
        g2_at(7) == seq![false, true, true, false, true, false, false, true, true, true],
        g2_at(8) == seq![true, false, true, true, false, true, false, false, true, true],
        g2_at(9) == seq![false, true, false, true, true, false, true, false, false, true],
{
    assert(g2_at(0) =~= seq![true, true, true, true, true, true, true, true, true, true]);
    assert(g2_at(1) =~= seq![false, true, true, true, true, true, true, true, true, true]);
    assert(g2_at(2) =~= seq![false, false, true, true, true, true, true, true, true, true]);
    assert(g2_at(3) =~= seq![true, false, false, true, true, true, true, true, true, true]);
    assert(g2_at(4) =~= seq![false, true, false, false, true, true, true, true, true, true]);
    assert(g2_at(5) =~= seq![true, false, true, false, false, true, true, true, true, true]);
    assert(g2_at(6) =~= seq![true, true, false, true, false, false, true, true, true, true]);
    assert(g2_at(7) =~= seq![false, true, true, false, true, false, false, true, true, true]);
    assert(g2_at(8) =~= seq![true, false, true, true, false, true, false, false, true, true]);
    assert(g2_at(9) =~= seq![false, true, false, true, true, false, true, false, false, true]);
}

/// The signature of each code.
#[verifier::rlimit(60)]
proof fn lemma_signatures()
    ensures
        signature(1) == 800,
        signature(2) == 912,
        signature(3) == 968,
        signature(4) == 996,
        signature(5) == 603,
        signature(6) == 813,
        signature(7) == 601,
        signature(8) == 812,
        signature(9) == 918,
        signature(10) == 836,
        signature(11) == 930,
        signature(12) == 1000,
        signature(13) == 1012,
        signature(14) == 1018,
        signature(15) == 1021,
        signature(16) == 1022,
        signature(17) == 622,
        signature(18) == 823,
        signature(19) == 923,
        signature(20) == 973,
        signature(21) == 998,
        signature(22) == 1011,
        signature(23) == 563,
        signature(24) == 966,
        signature(25) == 995,
        signature(26) == 1009,
        signature(27) == 1016,
        signature(28) == 1020,
        signature(29) == 599,
        signature(30) == 811,
        signature(31) == 917,
        signature(32) == 970,
{
    lemma_g2_start();
    lemma_g1_starts_with_ones(0);
    lemma_g1_starts_with_ones(1);
    lemma_g1_starts_with_ones(2);
    lemma_g1_starts_with_ones(3);
    lemma_g1_starts_with_ones(4);
    lemma_g1_starts_with_ones(5);
    lemma_g1_starts_with_ones(6);
    lemma_g1_starts_with_ones(7);
    lemma_g1_starts_with_ones(8);
    lemma_g1_starts_with_ones(9);
}

/// No two satellites share a code.
pub proof fn law_codes_are_distinct(p: int, q: int)
    requires
        1 <= p <= 32,
        1 <= q <= 32,
        p != q,
    ensures
        ca_code(p) != ca_code(q),
{
    lemma_signatures();
    if ca_code(p) == ca_code(q) {
        assert forall|n: int| 0 <= n < 10 implies #[trigger] ca_chip(p, n) == ca_chip(q, n) by {
            assert(ca_code(p)[n] == ca_code(q)[n]);
        }
        assert(signature(p) == signature(q));
    }
}

/// Sample `i` of `n` falls onto the chip that is sent at its time: chip `c` is sent
/// from `c / 1023` of the period on and until `(c + 1) / 1023` of it.
pub proof fn law_sample_falls_onto_the_chip_sent(i: int, n: int)
    requires
        0 <= i < n,
    ensures
        ({
            let c = resampled_index(i, n);
            0 <= c < 1023 && c * n <= i * 1023 < (c + 1) * n
        }),
{
    lemma_resampled_index(i, n);
    vstd::arithmetic::div_mod::lemma_fundamental_div_mod(i * 1023, n);
    vstd::arithmetic::div_mod::lemma_mod_bound(i * 1023, n);
    let c = resampled_index(i, n);
    assert(c * n == n * c && (c + 1) * n == n * c + n) by (nonlinear_arith);
}

/// With a phase, sample `i` of `n` falls onto the chip that is sent at its time plus
/// the phase, whole periods not counted.
pub proof fn law_phased_sample_falls_onto_the_chip_sent(
    i: int,
    n: int,
    phase_nanochips: int,
) -> (periods: int)
    requires
        0 <= i < n,
        0 <= phase_nanochips,
    ensures
        ({
            let c = phased_index(i, n, phase_nanochips);
            let at = i * 1_023_000_000_000 + phase_nanochips * n;
            &&& 0 <= c < 1023
            &&& 0 <= periods
            &&& (c + 1023 * periods) * (n * 1_000_000_000) <= at < (c + 1023 * periods + 1) * (n
                * 1_000_000_000)
        }),
{
    let d = n * 1_000_000_000;
    let at = i * 1023 * 1_000_000_000 + phase_nanochips * n;
    assert(phase_nanochips * n >= 0) by (nonlinear_arith)
        requires
            phase_nanochips >= 0,
            n > 0,
    ;
    let q = at / d;
    vstd::arithmetic::div_mod::lemma_fundamental_div_mod(at, d);
    vstd::arithmetic::div_mod::lemma_mod_bound(at, d);
    vstd::arithmetic::div_mod::lemma_div_pos_is_pos(at, d);
    let periods = q / 1023;
    assert(q % 1023 + 1023 * periods == q);
    assert(q * d == d * q && (q + 1) * d == d * q + d) by (nonlinear_arith);
    periods
}

/// A code that comes late is found at its delay: where the second code is the first
/// one, `lag` chips later on the circle, they correlate to their length at that lag.
pub proof fn law_delayed_code_is_found_at_its_delay(a: Seq<i8>, b: Seq<i8>, lag: int)
    requires
        a.len() == b.len(),
        is_bipolar(a),
        forall|i: int| 0 <= i < a.len() ==> #[trigger] a[i] == b[(i + lag) % (a.len() as int)],
    ensures
        correlation(a, b, lag) == a.len(),
{
    lemma_delayed_terms(a, b, lag, a.len() as int);
}

proof fn lemma_delayed_terms(a: Seq<i8>, b: Seq<i8>, lag: int, k: int)
    requires
        a.len() == b.len(),
        is_bipolar(a),
        forall|i: int| 0 <= i < a.len() ==> #[trigger] a[i] == b[(i + lag) % (a.len() as int)],
        0 <= k <= a.len(),
    ensures
        correlation_terms(a, b, lag, k) == k,
    decreases k,
{
    if k > 0 {
        lemma_delayed_terms(a, b, lag, k - 1);
        assert(a[k - 1] == b[(k - 1 + lag) % (a.len() as int)]);
        assert(a[k - 1] == 1 || a[k - 1] == -1);
        assert(1 * 1 == 1 && (-1) * (-1) == 1) by (nonlinear_arith);
    }
}

/// The correlation of a code with itself at lag zero is the sum of its squares,
/// whatever its chips are, and a lag of a whole period is none.
pub proof fn law_correlation_at_zero_is_the_sum_of_squares(code: Seq<i8>, other: Seq<i8>, lag: int)
    requires
        other.len() == code.len(),
        0 < code.len(),
    ensures
        correlation(code, code, 0) == sum_of_squares(code),
        correlation(code, other, lag + code.len()) == correlation(code, other, lag),
{
    lemma_square_terms(code, code.len() as int);
    assert(code.take(code.len() as int) =~= code);
    lemma_periodic_terms(code, other, lag, code.len() as int);
}

proof fn lemma_square_terms(code: Seq<i8>, k: int)
    requires
        0 <= k <= code.len(),
    ensures
        correlation_terms(code, code, 0, k) == sum_of_squares(code.take(k)),
    decreases k,
{
    if k > 0 {
        lemma_square_terms(code, k - 1);
        vstd::arithmetic::div_mod::lemma_small_mod((k - 1) as nat, code.len());
        assert(code.take(k).drop_last() =~= code.take(k - 1));
    }
}

proof fn lemma_periodic_terms(a: Seq<i8>, b: Seq<i8>, lag: int, k: int)
    requires
        0 <= k <= a.len(),
        0 < a.len(),
    ensures
        correlation_terms(a, b, lag + a.len(), k) == correlation_terms(a, b, lag, k),
    decreases k,
{
    if k > 0 {
        lemma_periodic_terms(a, b, lag, k - 1);
        vstd::arithmetic::div_mod::lemma_mod_add_multiples_vanish(k - 1 + lag, a.len() as int);
        assert(k - 1 + (lag + a.len()) == (k - 1 + lag) + a.len());
    }
}

} // verus!
