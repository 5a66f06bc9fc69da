//! Changes of the sample rate by a whole factor.

use vstd::prelude::*;

verus! {

/// Every `factor`-th of the samples, from the first on.
pub open spec fn downsampled<T>(input: Seq<T>, factor: int) -> Seq<T> {
    Seq::new(((input.len() + factor - 1) / factor) as nat, |k: int| input[k * factor])
}

/// The samples with `factor - 1` zeros behind each.
pub open spec fn upsampled<T>(input: Seq<T>, factor: int, zero: T) -> Seq<T> {
    Seq::new(
        (input.len() * factor) as nat,
        |i: int|
            if i % factor == 0 {
                input[i / factor]
            } else {
                zero
            },
    )
}

/// Keeps every `factor`-th sample.
pub fn downsample<T: Copy>(input: &[T], factor: usize) -> (out: Vec<T>)
    requires
        factor >= 2,
    ensures
        out@ == downsampled(input@, factor as int),
{
    let mut out: Vec<T> = Vec::new();
    let mut i: usize = 0;
    let ghost mut k: int = 0;
    let n: usize = input.len();
    while i < n
        invariant
            factor >= 2,
            n == input@.len(),
            k >= 0,
            i <= n,
            i < n ==> i == k * factor,
            i == n ==> k * factor >= n,
            k > 0 ==> (k - 1) * factor < n,
            out@.len() == k,
            forall|j: int| 0 <= j < k ==> #[trigger] out@[j] == input@[j * factor],
        decreases n - i,
    {
        out.push(input[i]);
        proof {
            assert((k + 1) * factor == k * factor + factor) by (nonlinear_arith);
            k = k + 1;
        }
        i = if n - i <= factor {
            n
        } else {
            i + factor
        };
    }
    proof {
        lemma_downsampled_len(n as int, factor as int, k);
    }
    assert(out@ =~= downsampled(input@, factor as int));
    out
}

/// Puts `factor - 1` zeros behind every sample.
pub fn upsample<T: Copy>(input: &[T], factor: usize, zero: T) -> (out: Vec<T>)
    requires
        factor >= 2,
        input@.len() * factor <= usize::MAX,
    ensures
        out@ == upsampled(input@, factor as int, zero),
{
    let total: usize = input.len() * factor;
    let mut out: Vec<T> = Vec::with_capacity(total);
    let mut i: usize = 0;
    while i < total
        invariant
            i <= total,
            factor >= 2,
            total == input@.len() * factor,
            out@.len() == i,
            forall|j: int|
                0 <= j < i ==> #[trigger] out@[j] == if j % (factor as int) == 0 {
                    input@[j / (factor as int)]
                } else {
                    zero
                },
        decreases total - i,
    {
        if i % factor == 0 {
            assert(i / factor < input@.len()) by (nonlinear_arith)
                requires
                    i < total,
                    total == input@.len() * factor,
                    factor >= 2,
            ;
            out.push(input[i / factor]);
        } else {
            out.push(zero);
        }
        i = i + 1;
    }
    assert(out@ =~= upsampled(input@, factor as int, zero));
    out
}

proof fn lemma_downsampled_len(n: int, factor: int, k: int)
    requires
        factor >= 2,
        n >= 0,
        k >= 0,
        k * factor >= n,
        k > 0 ==> (k - 1) * factor < n,
    ensures
        (n + factor - 1) / factor == k,
{
    let m = n + factor - 1;
    assert(m == k * factor + (m - k * factor));
    assert(0 <= m - k * factor < factor) by (nonlinear_arith)
        requires
            m == n + factor - 1,
            k * factor >= n,
            k > 0 ==> (k - 1) * factor < n,
            k >= 0,
            n >= 0,
            factor >= 2,
    ;
    vstd::arithmetic::div_mod::lemma_fundamental_div_mod_converse(m, factor, k, m - k * factor);
}

/// Taking the zeros out again restores the samples.
pub proof fn law_down_undoes_up<T>(input: Seq<T>, factor: int, zero: T)
    requires
        factor >= 2,
    ensures
        downsampled(upsampled(input, factor, zero), factor) == input,
{
    let up = upsampled(input, factor, zero);
    let down = downsampled(up, factor);
    let n = input.len() as int;
    assert(n * factor >= 0) by (nonlinear_arith)
        requires
            n >= 0,
            factor >= 2,
    ;
    if n > 0 {
        assert((n - 1) * factor < n * factor) by (nonlinear_arith)
            requires
                factor >= 2,
        ;
    }
    lemma_downsampled_len(n * factor, factor, n);
    assert forall|k: int| 0 <= k < n implies #[trigger] down[k] == input[k] by {
        assert(0 <= k * factor < n * factor) by (nonlinear_arith)
            requires
                0 <= k < n,
                factor >= 2,
        ;
        vstd::arithmetic::div_mod::lemma_fundamental_div_mod_converse(k * factor, factor, k, 0);
        assert(up[k * factor] == input[k]);
    }
    assert(down =~= input);
}

/// Of the samples, those at whole multiples of the factor are kept, from the first
/// to the last of them.
pub proof fn law_every_nth_sample_is_kept<T>(input: Seq<T>, factor: int, k: int)
    requires
        factor >= 2,
    ensures
        ({
            let out = downsampled(input, factor);
            &&& 0 <= k < out.len() <==> 0 <= k && k * factor < input.len()
            &&& 0 <= k < out.len() ==> out[k] == input[k * factor]
        }),
{
    let n = input.len() as int;
    let m = n + factor - 1;
    let q = m / factor;
    let r = m % factor;
    vstd::arithmetic::div_mod::lemma_fundamental_div_mod(m, factor);
    vstd::arithmetic::div_mod::lemma_mod_bound(m, factor);
    vstd::arithmetic::div_mod::lemma_div_pos_is_pos(m, factor);
    assert(k < q ==> k * factor < n) by (nonlinear_arith)
        requires
            m == factor * q + r,
            m == n + factor - 1,
            0 <= r < factor,
    ;
    assert(k >= q ==> k * factor >= n) by (nonlinear_arith)
        requires
            m == factor * q + r,
            m == n + factor - 1,
            0 <= r < factor,
    ;
}

/// The samples stand apart by the factor, with nothing but zeros in between.
pub proof fn law_samples_stand_apart<T>(input: Seq<T>, factor: int, zero: T, k: int, gap: int)
    requires
        factor >= 2,
        0 <= k < input.len(),
        0 < gap < factor,
    ensures
        ({
            let out = upsampled(input, factor, zero);
            &&& out.len() == input.len() * factor
            &&& out[k * factor] == input[k]
            &&& out[k * factor + gap] == zero
        }),
{
    let n = input.len() as int;
    assert(0 <= k * factor && k * factor + gap < n * factor) by (nonlinear_arith)
        requires
            0 <= k < n,
            0 < gap < factor,
    ;
    vstd::arithmetic::div_mod::lemma_fundamental_div_mod_converse(k * factor, factor, k, 0);
    vstd::arithmetic::div_mod::lemma_fundamental_div_mod_converse(k * factor + gap, factor, k, gap);
}

} // verus!
