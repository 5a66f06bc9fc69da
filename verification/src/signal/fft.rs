//! Order of the bins of a Fourier transform.

use vstd::prelude::*;

verus! {

/// The bins with the zero frequency moved to the middle: the upper half first.
pub open spec fn shifted_bins<T>(input: Seq<T>) -> Seq<T> {
    let half = input.len() as int / 2;
    input.skip(half) + input.take(half)
}

/// Moves the zero frequency to the middle.
pub fn fftshift<T: Copy>(input: &[T]) -> (out: Vec<T>)
    ensures
        out@ == shifted_bins(input@),
{
    let n: usize = input.len();
    let half: usize = n / 2;
    let mut out: Vec<T> = Vec::with_capacity(n);
    let mut i: usize = half;
    while i < n
        invariant
            half <= i <= n,
            n == input@.len(),
            out@ == input@.subrange(half as int, i as int),
        decreases n - i,
    {
        out.push(input[i]);
        assert(input@.subrange(half as int, i + 1) =~= input@.subrange(half as int, i as int).push(
            input@[i as int],
        ));
        i = i + 1;
    }
    assert(out@ =~= input@.skip(half as int));
    let mut j: usize = 0;
    while j < half
        invariant
            j <= half <= n,
            n == input@.len(),
            out@ == input@.skip(half as int) + input@.take(j as int),
        decreases half - j,
    {
        out.push(input[j]);
        assert(input@.take(j + 1) =~= input@.take(j as int).push(input@[j as int]));
        assert(out@ =~= input@.skip(half as int) + input@.take(j + 1));
        j = j + 1;
    }
    out
}

/// Of an even number of bins, moving twice restores the order.
pub proof fn law_double_shift_of_even_length<T>(input: Seq<T>)
    requires
        input.len() % 2 == 0,
    ensures
        shifted_bins(shifted_bins(input)) == input,
{
    assert(shifted_bins(shifted_bins(input)) =~= input);
}

/// The signed number of a bin of `size`: bins above the middle stand for negative
/// frequencies.
pub fn signed_bin(bin: usize, size: usize) -> (signed: i64)
    requires
        bin <= i64::MAX,
        size <= i64::MAX,
    ensures
        signed == if bin > size / 2 {
            bin - size
        } else {
            bin as int
        },
        signed == bin || signed == bin - size,
        bin < size ==> -(size as int) < 2 * signed <= size,
{
    if bin > size / 2 {
        bin as i64 - size as i64
    } else {
        bin as i64
    }
}

/// The bins are turned round by half of them: the zero frequency stands in the
/// middle, the negative frequencies before it and the positive ones behind it.
pub proof fn law_zero_frequency_moves_to_the_middle<T>(input: Seq<T>, i: int)
    requires
        0 <= i < input.len(),
    ensures
        shifted_bins(input).len() == input.len(),
        ({
            let n = input.len() as int;
            let middle = n - n / 2;
            &&& shifted_bins(input)[middle % n] == input[0]
            &&& i < n / 2 ==> shifted_bins(input)[i + middle] == input[i]
            &&& i >= n / 2 ==> shifted_bins(input)[i - n / 2] == input[i]
        }),
{
    let n = input.len() as int;
    if n == 1 {
        assert(shifted_bins(input)[0] == input[0]);
    } else {
        vstd::arithmetic::div_mod::lemma_small_mod((n - n / 2) as nat, n as nat);
    }
}

} // verus!
