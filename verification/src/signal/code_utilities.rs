//! Codes shifted by fractions of a sample, without wrapping around.
//!
//! Offsets are in units of 10^-9 samples, and shifted codes in units of 10^-9 of
//! the code.

use vstd::prelude::*;

verus! {

/// The index nearest to `i` among those of `n` chips.
pub open spec fn nearest_index(i: int, n: int) -> int {
    if i < 0 {
        0
    } else if i < n {
        i
    } else {
        n - 1
    }
}

/// The chip nearest to position `i` of a code of `n` chips: positions before the
/// first chip give the first, those behind the last give the last.
pub fn clamped_index(i: i128, n: usize) -> (at: usize)
    requires
        n > 0,
    ensures
        at == nearest_index(i as int, n as int),
{
    if i < 0 {
        0
    } else if i < n as i128 {
        i as usize
    } else {
        n - 1
    }
}

/// The code at a position between its chips: the chips before and behind it,
/// weighted by their nearness.
pub open spec fn interpolated(code: Seq<i32>, position_nano: int) -> int {
    let n = code.len() as int;
    let whole = position_nano / 1_000_000_000;
    let part = position_nano % 1_000_000_000;
    code[nearest_index(whole, n)] * (1_000_000_000 - part) + code[nearest_index(whole + 1, n)]
        * part
}

/// The code, delayed by an offset.
pub open spec fn shifted(code: Seq<i32>, offset_nano: int) -> Seq<i64> {
    Seq::new(
        code.len(),
        |i: int| interpolated(code, i * 1_000_000_000 - offset_nano) as i64,
    )
}

/// A weighted mean of two numbers stays within their range.
proof fn lemma_between(a: int, b: int, part: int, lo: int, hi: int)
    requires
        lo <= a <= hi,
        lo <= b <= hi,
        0 <= part <= 1_000_000_000,
    ensures
        lo * 1_000_000_000 <= a * (1_000_000_000 - part) + b * part <= hi * 1_000_000_000,
{
    assert(lo * 1_000_000_000 <= a * (1_000_000_000 - part) + b * part) by (nonlinear_arith)
        requires
            lo <= a,
            lo <= b,
            0 <= part <= 1_000_000_000,
    ;
    assert(a * (1_000_000_000 - part) + b * part <= hi * 1_000_000_000) by (nonlinear_arith)
        requires
            a <= hi,
            b <= hi,
            0 <= part <= 1_000_000_000,
    ;
}

/// The code at a position between its chips.
fn interpolate(code: &[i32], position_nano: i128) -> (value: i64)
    requires
        code@.len() > 0,
        -0x1_0000_0000_0000_0000_0000_0000_0000 <= position_nano
            <= 0x1_0000_0000_0000_0000_0000_0000_0000,
    ensures
        value == interpolated(code@, position_nano as int),
{
    let n: usize = code.len();
    let whole: i128 = match position_nano.checked_div_euclid(1_000_000_000) {
        Some(whole) => whole,
        None => 0,
    };
    let part: i64 = (position_nano - whole * 1_000_000_000) as i64;
    let before: i64 = code[clamped_index(whole, n)] as i64;
    let behind: i64 = code[clamped_index(whole + 1, n)] as i64;
    proof {
        lemma_between(before as int, behind as int, part as int, i32::MIN as int, i32::MAX as int);
        lemma_between(before as int, 0, part as int, i32::MIN as int, i32::MAX as int);
        lemma_between(0, behind as int, part as int, i32::MIN as int, i32::MAX as int);
    }
    before * (1_000_000_000 - part) + behind * part
}

/// Delays a code by an offset; a negative one advances it. Between two chips the
/// code is interpolated, and its ends go on.
pub fn shift_code(code: &[i32], offset_nano: i64) -> (result: Vec<i64>)
    ensures
        result@ == shifted(code@, offset_nano as int),
        forall|i: int|
            0 <= i < code@.len() ==> #[trigger] result@[i] == interpolated(
                code@,
                i * 1_000_000_000 - offset_nano,
            ),
{
    let mut result: Vec<i64> = Vec::with_capacity(code.len());
    let mut i: usize = 0;
    while i < code.len()
        invariant
            i <= code@.len(),
            result@.len() == i,
            forall|j: int|
                0 <= j < i ==> #[trigger] result@[j] == interpolated(
                    code@,
                    j * 1_000_000_000 - offset_nano,
                ),
        decreases code@.len() - i,
    {
        result.push(interpolate(code, i as i128 * 1_000_000_000 - offset_nano as i128));
        i = i + 1;
    }
    assert(result@ =~= shifted(code@, offset_nano as int));
    result
}

/// The early, the prompt and the late code: advanced, kept and delayed by half
/// the spacing.
pub fn make_epl_replicas(prompt: &[i32], half_spacing_nano: i64) -> (replicas: (
    Vec<i64>,
    Vec<i64>,
    Vec<i64>,
))
    requires
        half_spacing_nano > i64::MIN,
    ensures
        replicas.0@ == shifted(prompt@, -half_spacing_nano),
        replicas.1@ == shifted(prompt@, 0),
        replicas.2@ == shifted(prompt@, half_spacing_nano as int),
{
    (
        shift_code(prompt, -half_spacing_nano),
        shift_code(prompt, 0),
        shift_code(prompt, half_spacing_nano),
    )
}

/// A shift by whole samples moves the code and interpolates nothing.
pub proof fn law_whole_shift_moves_the_code(code: Seq<i32>, samples: int, i: int)
    requires
        0 <= i < code.len(),
    ensures
        shifted(code, samples * 1_000_000_000)[i] == code[nearest_index(
            i - samples,
            code.len() as int,
        )] * 1_000_000_000,
{
    let position = i * 1_000_000_000 - samples * 1_000_000_000;
    vstd::arithmetic::div_mod::lemma_fundamental_div_mod_converse(
        position,
        1_000_000_000,
        i - samples,
        0,
    );
    let chip = code[nearest_index(i - samples + 1, code.len() as int)] as int;
    assert(chip * 0 == 0);
}

/// A shifted code stays within the range of the code.
pub proof fn law_shifted_code_stays_in_range(
    code: Seq<i32>,
    offset_nano: int,
    i: int,
    lo: i32,
    hi: i32,
)
    requires
        0 <= i < code.len(),
        forall|j: int| 0 <= j < code.len() ==> lo <= #[trigger] code[j] <= hi,
    ensures
        lo * 1_000_000_000 <= shifted(code, offset_nano)[i] <= hi * 1_000_000_000,
{
    let position = i * 1_000_000_000 - offset_nano;
    let n = code.len() as int;
    let whole = position / 1_000_000_000;
    let before = code[nearest_index(whole, n)] as int;
    let behind = code[nearest_index(whole + 1, n)] as int;
    lemma_between(before, behind, position % 1_000_000_000, lo as int, hi as int);
}

/// A shift by whole samples moves every chip by as many places: what comes from
/// before the first chip is the first, what comes from behind the last is the last.
pub proof fn law_shift_moves_chips_and_holds_the_ends(code: Seq<i32>, samples: int, i: int)
    requires
        0 <= i < code.len(),
    ensures
        ({
            let chip = shifted(code, samples * 1_000_000_000)[i];
            let n = code.len() as int;
            &&& shifted(code, samples * 1_000_000_000).len() == n
            &&& 0 <= i - samples < n ==> chip == code[i - samples] * 1_000_000_000
            &&& i - samples < 0 ==> chip == code[0] * 1_000_000_000
            &&& i - samples >= n ==> chip == code[n - 1] * 1_000_000_000
        }),
{
    law_whole_shift_moves_the_code(code, samples, i);
}

/// Between two chips the code goes straight from one to the other.
pub proof fn law_code_is_straight_between_chips(code: Seq<i32>, whole: int, part_nano: int)
    requires
        code.len() > 0,
        0 <= part_nano < 1_000_000_000,
    ensures
        interpolated(code, whole * 1_000_000_000 + part_nano) * 1_000_000_000 == interpolated(
            code,
            whole * 1_000_000_000,
        ) * (1_000_000_000 - part_nano) + interpolated(code, (whole + 1) * 1_000_000_000)
            * part_nano,
{
    vstd::arithmetic::div_mod::lemma_fundamental_div_mod_converse(
        whole * 1_000_000_000 + part_nano,
        1_000_000_000,
        whole,
        part_nano,
    );
    vstd::arithmetic::div_mod::lemma_fundamental_div_mod_converse(
        whole * 1_000_000_000,
        1_000_000_000,
        whole,
        0,
    );
    vstd::arithmetic::div_mod::lemma_fundamental_div_mod_converse(
        (whole + 1) * 1_000_000_000,
        1_000_000_000,
        whole + 1,
        0,
    );
    let n = code.len() as int;
    let a = code[nearest_index(whole, n)] as int;
    let b = code[nearest_index(whole + 1, n)] as int;
    let c = code[nearest_index(whole + 2, n)] as int;
    assert(c * 0 == 0 && b * 0 == 0);
    assert((a * (1_000_000_000 - part_nano) + b * part_nano) * 1_000_000_000 == (a * 1_000_000_000)
        * (1_000_000_000 - part_nano) + (b * 1_000_000_000) * part_nano) by (nonlinear_arith);
}

/// A later offset delays the code: the code at place `i` with one offset is that at
/// place `i + 1` with an offset of one sample more.
pub proof fn law_offset_delays_the_code(code: Seq<i32>, offset_nano: int, i: int)
    requires
        0 <= i,
        i + 1 < code.len(),
    ensures
        shifted(code, offset_nano + 1_000_000_000)[i + 1] == shifted(code, offset_nano)[i],
{
    assert((i + 1) * 1_000_000_000 - (offset_nano + 1_000_000_000) == i * 1_000_000_000
        - offset_nano);
}

/// Early and late mirror each other: advancing the code read backwards is delaying the
/// code.
pub proof fn law_early_and_late_mirror_each_other(
    code: Seq<i32>,
    backwards: Seq<i32>,
    offset_nano: int,
    i: int,
)
    requires
        backwards.len() == code.len(),
        forall|k: int| 0 <= k < code.len() ==> #[trigger] backwards[k] == code[code.len() - 1 - k],
        0 <= i < code.len(),
    ensures
        shifted(backwards, -offset_nano)[code.len() - 1 - i] == shifted(code, offset_nano)[i],
{
    let n = code.len() as int;
    let p = i * 1_000_000_000 - offset_nano;
    let r = (n - 1 - i) * 1_000_000_000 + offset_nano;
    let w = p / 1_000_000_000;
    let part = p % 1_000_000_000;
    assert(r == (n - 1 - w) * 1_000_000_000 - part);
    if part == 0 {
        vstd::arithmetic::div_mod::lemma_fundamental_div_mod_converse(
            r,
            1_000_000_000,
            n - 1 - w,
            0,
        );
    } else {
        vstd::arithmetic::div_mod::lemma_fundamental_div_mod_converse(
            r,
            1_000_000_000,
            n - 2 - w,
            1_000_000_000 - part,
        );
    }
    assert(backwards[nearest_index(n - 1 - w, n)] == code[nearest_index(w, n)]);
    assert(backwards[nearest_index(n - 2 - w, n)] == code[nearest_index(w + 1, n)]);
    assert(backwards[nearest_index(n - w, n)] * 0 == 0 && code[nearest_index(w + 1, n)] * 0 == 0);
    assert(interpolated(backwards, r) == interpolated(code, p));
    assert((n - 1 - i) * 1_000_000_000 - (-offset_nano) == r);
}

} // verus!
