//! Sums of signs: how often a property holds, weighed against how often it does
//! not.

use vstd::prelude::*;
use vstd::relations::injective_on;
use vstd::set_lib::set_int_range;

verus! {

/// The sign of a bit: -1 for a one, +1 for a zero.
pub open spec fn sign(bit: bool) -> int {
    if bit {
        -1
    } else {
        1
    }
}

/// Sum of the signs of the bits `f(0)` to `f(n - 1)`.
pub open spec fn sign_sum(f: spec_fn(int) -> bool, n: int) -> int
    decreases n,
{
    if n <= 0 {
        0
    } else {
        sign_sum(f, n - 1) + sign(f(n - 1))
    }
}

/// The numbers below `n` whose bit is one.
spec fn ones(f: spec_fn(int) -> bool, n: int) -> Set<int> {
    Set::new(|i: int| 0 <= i < n && f(i))
}

/// Equal bits have equal sums.
pub proof fn lemma_equal_bits(f: spec_fn(int) -> bool, g: spec_fn(int) -> bool, n: int)
    requires
        forall|i: int| 0 <= i < n ==> #[trigger] f(i) == g(i),
    ensures
        sign_sum(f, n) == sign_sum(g, n),
    decreases n,
{
    if n > 0 {
        lemma_equal_bits(f, g, n - 1);
        assert(f(n - 1) == g(n - 1));
    }
}

/// Opposite bits have opposite sums.
proof fn lemma_opposite_bits(f: spec_fn(int) -> bool, g: spec_fn(int) -> bool, n: int)
    requires
        forall|i: int| 0 <= i < n ==> #[trigger] f(i) == !g(i),
    ensures
        sign_sum(f, n) == -sign_sum(g, n),
    decreases n,
{
    if n > 0 {
        lemma_opposite_bits(f, g, n - 1);
        assert(f(n - 1) == !g(n - 1));
    }
}

/// Every one takes two from the sum.
proof fn lemma_sum_by_ones(f: spec_fn(int) -> bool, n: int)
    requires
        n >= 0,
    ensures
        ones(f, n).finite(),
        sign_sum(f, n) == n - 2 * ones(f, n).len(),
    decreases n,
{
    if n == 0 {
        assert(ones(f, n) =~= Set::<int>::empty());
    } else {
        lemma_sum_by_ones(f, n - 1);
        let before = ones(f, n - 1);
        if f(n - 1) {
            assert(ones(f, n) =~= before.insert(n - 1));
        } else {
            assert(ones(f, n) =~= before);
        }
    }
}

/// Whether `s` maps the numbers below `n` to numbers below `n`, no two of them to
/// the same.
pub open spec fn permutes(s: spec_fn(int) -> int, n: int) -> bool {
    &&& forall|i: int| 0 <= i < n ==> 0 <= #[trigger] s(i) < n
    &&& forall|i: int, j: int|
        0 <= i < n && 0 <= j < n && #[trigger] s(i) == #[trigger] s(j) ==> i == j
}

/// A permutation reaches every number.
pub proof fn lemma_permutation_reaches(s: spec_fn(int) -> int, n: int, k: int) -> (i: int)
    requires
        permutes(s, n),
        0 <= k < n,
    ensures
        0 <= i < n,
        s(i) == k,
{
    let all = set_int_range(0, n);
    vstd::set_lib::lemma_int_range(0, n);
    let image = all.map(s);
    assert(injective_on(s, all));
    vstd::set_lib::lemma_map_size(all, image, s);
    assert(image.subset_of(all));
    vstd::set_lib::lemma_subset_equality(image, all);
    assert(all.contains(k));
    assert(image.contains(k));
    choose|i: int| all.contains(i) && k == s(i)
}

/// A permutation of the numbers does not change the sum.
pub proof fn lemma_reordered(f: spec_fn(int) -> bool, s: spec_fn(int) -> int, n: int)
    requires
        n >= 0,
        permutes(s, n),
    ensures
        sign_sum(|i: int| f(s(i)), n) == sign_sum(f, n),
{
    let g = |i: int| f(s(i));
    lemma_sum_by_ones(f, n);
    lemma_sum_by_ones(g, n);
    assert(injective_on(s, ones(g, n)));
    assert(ones(g, n).map(s) =~= ones(f, n)) by {
        assert forall|k: int| ones(f, n).contains(k) implies ones(g, n).map(s).contains(k) by {
            let i = lemma_permutation_reaches(s, n, k);
            assert(ones(g, n).contains(i));
        }
    }
    vstd::set_lib::lemma_map_size(ones(g, n), ones(f, n), s);
}

/// Bits that a permutation turns over add up to nothing.
pub proof fn lemma_turned_over(f: spec_fn(int) -> bool, s: spec_fn(int) -> int, n: int)
    requires
        n >= 0,
        permutes(s, n),
        forall|i: int| 0 <= i < n ==> f(#[trigger] s(i)) == !f(i),
    ensures
        sign_sum(f, n) == 0,
{
    let g = |i: int| f(s(i));
    lemma_reordered(f, s, n);
    assert forall|i: int| 0 <= i < n implies #[trigger] g(i) == !f(i) by {
        assert(f(s(i)) == !f(i));
    }
    lemma_opposite_bits(g, f, n);
}

/// Bits made of one that depends on a number's quotient by four and one that
/// depends on its remainder: the sum is the product of the two sums.
proof fn lemma_product(
    f: spec_fn(int) -> bool,
    g: spec_fn(int) -> bool,
    h: spec_fn(int) -> bool,
    n: int,
)
    requires
        n >= 0,
        forall|y: int| 0 <= y < 4 * n ==> #[trigger] f(y) == (g(y / 4) ^ h(y % 4)),
    ensures
        sign_sum(f, 4 * n) == sign_sum(g, n) * sign_sum(h, 4),
    decreases n,
{
    let hs = sign_sum(h, 4);
    if n == 0 {
        assert(sign_sum(g, n) * hs == 0) by (nonlinear_arith)
            requires
                sign_sum(g, n) == 0,
        ;
    } else {
        lemma_product(f, g, h, n - 1);
        let y = 4 * (n - 1);
        assert(f(y) == (g(y / 4) ^ h(y % 4)));
        assert(f(y + 1) == (g((y + 1) / 4) ^ h((y + 1) % 4)));
        assert(f(y + 2) == (g((y + 2) / 4) ^ h((y + 2) % 4)));
        assert(f(y + 3) == (g((y + 3) / 4) ^ h((y + 3) % 4)));
        reveal_with_fuel(sign_sum, 5);
        let gs = sign_sum(g, n - 1);
        let last = sign(g(n - 1));
        assert((gs + last) * hs == gs * hs + last * hs) by (nonlinear_arith);
        assert(last * hs == if g(n - 1) {
            -hs
        } else {
            hs
        }) by (nonlinear_arith)
            requires
                last == if g(n - 1) {
                    -1int
                } else {
                    1int
                },
        ;
    }
}

/// The last binary digit of a number.
pub open spec fn digit0(y: int) -> bool {
    y % 2 == 1
}

/// The last binary digit but one.
pub open spec fn digit1(y: int) -> bool {
    (y / 2) % 2 == 1
}

/// A quadratic form in the binary digits of a number, taken in pairs from the last
/// digit on: the products of the digits of each of the first `k` pairs, and every
/// digit up to those of the next pair that is marked in `b`.
pub open spec fn paired_form(k: nat, b: Seq<bool>, y: int) -> bool
    decreases k,
{
    let linear = (digit0(y) && b[0]) ^ (digit1(y) && b[1]);
    if k == 0 {
        linear
    } else {
        (digit0(y) && digit1(y)) ^ linear ^ paired_form((k - 1) as nat, b.skip(2), y / 4)
    }
}

/// Numbers with `k + 1` pairs of digits.
pub open spec fn pair_numbers(k: nat) -> int
    decreases k,
{
    if k == 0 {
        4
    } else {
        4 * pair_numbers((k - 1) as nat)
    }
}

/// Size of the sum of a form with `k` products, unless the sum is nothing.
pub open spec fn form_size(k: nat) -> int
    decreases k,
{
    if k == 0 {
        4
    } else {
        2 * form_size((k - 1) as nat)
    }
}

/// Whether a sum is nothing or of a given size.
pub open spec fn is_nothing_or(sum: int, size: int) -> bool {
    sum == 0 || sum == size || sum == -size
}

/// A form with `k` products adds up to nothing or to the size that the products
/// leave: each of them halves it.
pub proof fn lemma_form_sum(k: nat, b: Seq<bool>)
    requires
        b.len() >= 2 * k + 2,
    ensures
        is_nothing_or(
            sign_sum(|y: int| paired_form(k, b, y), pair_numbers(k)),
            form_size(k),
        ),
        pair_numbers(k) > 0,
    decreases k,
{
    let f = |y: int| paired_form(k, b, y);
    if k == 0 {
        reveal_with_fuel(sign_sum, 5);
    } else {
        let rest = b.skip(2);
        let g = |y: int| paired_form((k - 1) as nat, rest, y);
        let h = |l: int|
            (digit0(l) && digit1(l)) ^ ((digit0(l) && b[0]) ^ (digit1(l) && b[1]));
        lemma_form_sum((k - 1) as nat, rest);
        let n = pair_numbers((k - 1) as nat);
        assert forall|y: int| 0 <= y < 4 * n implies #[trigger] f(y) == (g(y / 4) ^ h(y % 4)) by {
            assert(digit0(y) == digit0(y % 4));
            assert(digit1(y) == digit1(y % 4));
        }
        lemma_product(f, g, h, n);
        assert(sign_sum(h, 4) == 2 || sign_sum(h, 4) == -2) by {
            reveal_with_fuel(sign_sum, 5);
        }
        let gs = sign_sum(g, n);
        let hs = sign_sum(h, 4);
        assert(gs * hs == 2 * gs || gs * hs == -2 * gs) by (nonlinear_arith)
            requires
                hs == 2 || hs == -2,
        ;
    }
}

} // verus!
