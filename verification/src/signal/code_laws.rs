//! Balance and correlation of the GPS L1 C/A codes.
//!
//! The state of the G1 register is a number of ten bits, bit `i` for stage
//! `i + 1`. Over one period of the code it takes every value but zero once, and
//! the output of the G2 register is a quadratic form in its bits. A sum over the
//! chips of a code, or over the products of the chips of two codes, is therefore a
//! sum of the signs of a quadratic form over all numbers of ten bits.

use crate::signal::prn_code::{
    ca_chip, ca_code, correlation, correlation_terms, g1_at, g2_at, law_codes_are_distinct, G2_TAPS,
};
use crate::signal::signs::{
    digit0, digit1, form_size, is_nothing_or, lemma_equal_bits, lemma_form_sum,
    lemma_permutation_reaches, lemma_reordered, lemma_turned_over, pair_numbers, paired_form,
    permutes, sign, sign_sum,
};
use vstd::prelude::*;

verus! {

/// Whether bit `i` of a number is one.
spec fn lit(x: u32, i: u32) -> bool {
    (x >> i) & 1 == 1
}

/// The number that a linear map gives: the exclusive or of those of the numbers
/// `c0` to `c9` whose bits are ones in `x`.
spec fn mapped(
    c0: u32,
    c1: u32,
    c2: u32,
    c3: u32,
    c4: u32,
    c5: u32,
    c6: u32,
    c7: u32,
    c8: u32,
    c9: u32,
    x: u32,
) -> u32 {
    chosen(x, 0, c0) ^ chosen(x, 1, c1) ^ chosen(x, 2, c2) ^ chosen(x, 3, c3) ^ chosen(x, 4, c4)
        ^ chosen(x, 5, c5) ^ chosen(x, 6, c6) ^ chosen(x, 7, c7) ^ chosen(x, 8, c8) ^ chosen(
        x,
        9,
        c9,
    )
}

/// `c` where bit `i` of `x` is one, else zero.
spec fn chosen(x: u32, i: u32, c: u32) -> u32 {
    if lit(x, i) {
        c
    } else {
        0
    }
}

/// One step of the G1 register.
spec fn g1_step(x: u32) -> u32 {
    ((x << 1) & 0x3ff) | (((x >> 2) ^ (x >> 9)) & 1)
}

/// One step of a choice of stages of the G2 register: the stages whose exclusive
/// or is what the chosen stages give one chip later.
spec fn g2_step(m: u32) -> u32 {
    (m >> 1) ^ (if m & 1 == 1 {
        0x3a6u32
    } else {
        0
    })
}

/// The G1 step as a function.
spec fn g1_map() -> spec_fn(u32) -> u32 {
    |x: u32| g1_step(x)
}

/// The G2 step as a function.
spec fn g2_map() -> spec_fn(u32) -> u32 {
    |m: u32| g2_step(m)
}

/// `x` after `n` steps.
spec fn run(f: spec_fn(u32) -> u32, n: nat, x: u32) -> u32
    decreases n,
{
    if n == 0 {
        x
    } else {
        f(run(f, (n - 1) as nat, x))
    }
}

/// Steps add up.
proof fn lemma_run_add(f: spec_fn(u32) -> u32, m: nat, n: nat, x: u32)
    ensures
        run(f, m + n, x) == run(f, m, run(f, n, x)),
    decreases m,
{
    if m > 0 {
        lemma_run_add(f, (m - 1) as nat, n, x);
    }
}

/// A number that comes back after `t` steps comes back after every multiple.
proof fn lemma_run_multiple(f: spec_fn(u32) -> u32, t: nat, j: nat, x: u32)
    requires
        run(f, t, x) == x,
    ensures
        run(f, j * t, x) == x,
    decreases j,
{
    if j == 0 {
        assert(j * t == 0) by (nonlinear_arith)
            requires
                j == 0,
        ;
    } else {
        lemma_run_multiple(f, t, (j - 1) as nat, x);
        lemma_run_add(f, t, ((j - 1) * t) as nat, x);
        assert(j * t == t + (j - 1) * t) by (nonlinear_arith);
        assert((j - 1) * t >= 0) by (nonlinear_arith)
            requires
                j >= 1,
                t >= 0,
        ;
    }
}

/// A number that comes back after `m` and after `m + n` steps comes back after `n`.
proof fn lemma_run_difference(f: spec_fn(u32) -> u32, m: nat, n: nat, x: u32)
    requires
        run(f, m, x) == x,
        run(f, n + m, x) == x,
    ensures
        run(f, n, x) == x,
{
    lemma_run_add(f, n, m, x);
}

/// Whether a number is not back after 33, 93 or 341 steps.
spec fn is_moved(f: spec_fn(u32) -> u32, z: u32) -> bool {
    run(f, 33, z) != z && run(f, 93, z) != z && run(f, 341, z) != z
}

/// Whether a map on numbers of ten bits has no shorter period than 1023 but for
/// zero: after 1023 steps every number is back, and after 33, 93 or 341 only zero
/// is.
spec fn is_full_cycle(f: spec_fn(u32) -> u32) -> bool {
    &&& f(0) == 0
    &&& forall|z: u32| z < 1024 ==> #[trigger] f(z) < 1024
    &&& forall|z: u32| z < 1024 ==> #[trigger] run(f, 1023, z) == z
    &&& forall|z: u32| 0 < z < 1024 ==> #[trigger] is_moved(f, z)
}

/// Numbers below a prime have inverses.
proof fn lemma_inverse(r: int, p: int) -> (s: int)
    requires
        p == 3 || p == 11 || p == 31,
        0 < r < p,
    ensures
        0 < s < p,
        (r * s) % p == 1,
{
    if p == 3 {
        if r == 1 {
            1
        } else {
            2
        }
    } else if p == 11 {
        if r == 1 {
            1
        } else if r == 2 {
            6
        } else if r == 3 {
            4
        } else if r == 4 {
            3
        } else if r == 5 {
            9
        } else if r == 6 {
            2
        } else if r == 7 {
            8
        } else if r == 8 {
            7
        } else if r == 9 {
            5
        } else {
            10
        }
    } else {
        if r == 1 {
            1
        } else if r == 2 {
            16
        } else if r == 3 {
            21
        } else if r == 4 {
            8
        } else if r == 5 {
            25
        } else if r == 6 {
            26
        } else if r == 7 {
            9
        } else if r == 8 {
            4
        } else if r == 9 {
            7
        } else if r == 10 {
            28
        } else if r == 11 {
            17
        } else if r == 12 {
            13
        } else if r == 13 {
            12
        } else if r == 14 {
            20
        } else if r == 15 {
            29
        } else if r == 16 {
            2
        } else if r == 17 {
            11
        } else if r == 18 {
            19
        } else if r == 19 {
            18
        } else if r == 20 {
            14
        } else if r == 21 {
            3
        } else if r == 22 {
            24
        } else if r == 23 {
            27
        } else if r == 24 {
            22
        } else if r == 25 {
            5
        } else if r == 26 {
            6
        } else if r == 27 {
            23
        } else if r == 28 {
            10
        } else if r == 29 {
            15
        } else {
            30
        }
    }
}

/// A number that comes back after `t` steps, where the prime `p` does not divide
/// `t`, comes back after `e` steps, where `p` times `e` is 1023.
proof fn lemma_run_prime(f: spec_fn(u32) -> u32, t: nat, p: nat, e: nat, x: u32)
    requires
        p == 3 && e == 341 || p == 11 && e == 93 || p == 31 && e == 33,
        t % p != 0,
        run(f, t, x) == x,
        run(f, 1023, x) == x,
    ensures
        run(f, e, x) == x,
{
    let s = lemma_inverse((t % p) as int, p as int);
    let j = (s * e) as nat;
    lemma_run_multiple(f, t, j, x);
    let c = (t as int * s) / (p as int);
    vstd::arithmetic::div_mod::lemma_mul_mod_noop_left(t as int, s, p as int);
    vstd::arithmetic::div_mod::lemma_fundamental_div_mod(t as int * s, p as int);
    assert(t as int * s >= 0) by (nonlinear_arith)
        requires
            t >= 0,
            s > 0,
    ;
    vstd::arithmetic::div_mod::lemma_div_pos_is_pos(t as int * s, p as int);
    assert(j * t == e + c * 1023) by (nonlinear_arith)
        requires
            j == s * e,
            t as int * s == p * c + 1,
            p * e == 1023,
    ;
    lemma_run_multiple(f, 1023, c as nat, x);
    lemma_run_difference(f, (c * 1023) as nat, e, x);
}

/// No number but zero comes back before 1023 steps.
proof fn lemma_no_early_return(f: spec_fn(u32) -> u32, t: nat, x: u32)
    requires
        is_full_cycle(f),
        0 < x < 1024,
        0 < t < 1023,
    ensures
        run(f, t, x) != x,
{
    if run(f, t, x) == x {
        assert(run(f, 1023, x) == x);
        assert(is_moved(f, x));
        if t % 3 != 0 {
            lemma_run_prime(f, t, 3, 341, x);
        } else if t % 11 != 0 {
            lemma_run_prime(f, t, 11, 93, x);
        } else {
            assert(t % 31 != 0);
            lemma_run_prime(f, t, 31, 33, x);
        }
    }
}

/// Ten bits stay ten bits, and only zero becomes zero.
proof fn lemma_run_range(f: spec_fn(u32) -> u32, n: nat, x: u32)
    requires
        is_full_cycle(f),
        x < 1024,
    ensures
        run(f, n, x) < 1024,
        x == 0 ==> run(f, n, x) == 0,
    decreases n,
{
    if n > 0 {
        lemma_run_range(f, (n - 1) as nat, x);
        assert(f(run(f, (n - 1) as nat, x)) < 1024);
    }
}

/// Only the number of steps modulo 1023 counts.
proof fn lemma_run_mod(f: spec_fn(u32) -> u32, n: nat, x: u32)
    requires
        is_full_cycle(f),
        x < 1024,
    ensures
        run(f, n, x) == run(f, n % 1023, x),
{
    let q = n / 1023;
    let r = n % 1023;
    assert(run(f, 1023, x) == x);
    lemma_run_multiple(f, 1023, q, x);
    lemma_run_add(f, r, q * 1023, x);
}

/// The number reached from `x` after `t` steps, for times before 1023, and zero
/// after those.
spec fn orbit(f: spec_fn(u32) -> u32, x: u32) -> spec_fn(int) -> int {
    |t: int|
        if t < 1023 {
            run(f, t as nat, x) as int
        } else {
            0
        }
}

/// Within 1023 steps every number but zero is reached once.
proof fn lemma_orbit(f: spec_fn(u32) -> u32, x: u32)
    requires
        is_full_cycle(f),
        0 < x < 1024,
    ensures
        permutes(orbit(f, x), 1024),
        forall|t: int| 0 <= t < 1023 ==> #[trigger] run(f, t as nat, x) != 0,
{
    let s = orbit(f, x);
    assert forall|t: int| 0 <= t < 1023 implies #[trigger] run(f, t as nat, x) != 0 by {
        if run(f, t as nat, x) == 0 {
            lemma_run_add(f, (1023 - t) as nat, t as nat, x);
            lemma_run_range(f, (1023 - t) as nat, 0);
            assert(run(f, 1023, x) == x);
        }
    }
    assert forall|i: int| 0 <= i < 1024 implies 0 <= #[trigger] s(i) < 1024 by {
        if i < 1023 {
            lemma_run_range(f, i as nat, x);
        }
    }
    assert forall|i: int, j: int|
        0 <= i < 1024 && 0 <= j < 1024 && #[trigger] s(i) == #[trigger] s(j) implies i == j by {
        if i < j {
            lemma_meeting(f, x, i, j);
        } else if j < i {
            lemma_meeting(f, x, j, i);
        }
    }
}

/// Two times never meet.
proof fn lemma_meeting(f: spec_fn(u32) -> u32, x: u32, i: int, j: int)
    requires
        is_full_cycle(f),
        0 < x < 1024,
        0 <= i < j < 1024,
        forall|t: int| 0 <= t < 1023 ==> #[trigger] run(f, t as nat, x) != 0,
    ensures
        orbit(f, x)(i) != orbit(f, x)(j),
{
    assert(run(f, i as nat, x) != 0);
    if j < 1023 {
        lemma_run_range(f, i as nat, x);
        lemma_run_add(f, (j - i) as nat, i as nat, x);
        lemma_no_early_return(f, (j - i) as nat, run(f, i as nat, x));
    }
}

/// The G1 word `x` after `2^j` steps, for `j` up to nine.
spec fn g1_power(j: u32, x: u32) -> u32 {
    if j == 0 {
        mapped(2, 4, 9, 16, 32, 64, 128, 256, 512, 1, x)
    } else if j == 1 {
        mapped(4, 9, 18, 32, 64, 128, 256, 512, 1, 2, x)
    } else if j == 2 {
        mapped(18, 36, 73, 128, 256, 512, 1, 2, 4, 9, x)
    } else if j == 3 {
        mapped(292, 585, 147, 2, 4, 9, 18, 36, 73, 146, x)
    } else if j == 4 {
        mapped(211, 422, 845, 585, 147, 294, 589, 154, 308, 617, x)
    } else if j == 5 {
        mapped(817, 611, 199, 702, 380, 761, 499, 998, 972, 920, x)
    } else if j == 6 {
        mapped(224, 448, 896, 993, 963, 903, 782, 540, 56, 112, x)
    } else if j == 7 {
        mapped(661, 298, 596, 573, 122, 244, 489, 978, 933, 842, x)
    } else if j == 8 {
        mapped(35, 70, 141, 312, 624, 225, 450, 900, 776, 529, x)
    } else {
        mapped(132, 265, 530, 161, 322, 644, 264, 528, 33, 66, x)
    }
}

/// The mask `x` after `2^j` steps, for `j` up to nine.
spec fn g2_power(j: u32, x: u32) -> u32 {
    if j == 0 {
        mapped(934, 1, 2, 4, 8, 16, 32, 64, 128, 256, x)
    } else if j == 1 {
        mapped(467, 934, 1, 2, 4, 8, 16, 32, 64, 128, x)
    } else if j == 2 {
        mapped(513, 847, 467, 934, 1, 2, 4, 8, 16, 32, x)
    } else if j == 3 {
        mapped(545, 783, 339, 678, 513, 847, 467, 934, 1, 2, x)
    } else if j == 4 {
        mapped(364, 728, 765, 695, 547, 779, 347, 694, 545, 783, x)
    } else if j == 5 {
        mapped(59, 118, 236, 472, 944, 45, 90, 180, 360, 720, x)
    } else if j == 6 {
        mapped(520, 861, 503, 1006, 145, 290, 580, 965, 199, 398, x)
    } else if j == 7 {
        mapped(608, 909, 87, 174, 348, 696, 573, 823, 291, 582, x)
    } else if j == 8 {
        mapped(707, 715, 731, 763, 699, 571, 827, 315, 630, 929, x)
    } else {
        mapped(425, 850, 489, 978, 233, 466, 932, 5, 10, 20, x)
    }
}

/// `2^j`.
spec fn two_to(j: u32) -> nat
    decreases j,
{
    if j == 0 {
        1
    } else {
        2 * two_to((j - 1) as u32)
    }
}

/// The table of G1 powers is right.
proof fn lemma_g1_power(j: u32, x: u32)
    requires
        j <= 9,
        x < 1024,
    ensures
        run(g1_map(), two_to(j), x) == g1_power(j, x),
        g1_power(j, x) < 1024,
    decreases j,
{
    assert(g1_power(j, x) < 1024) by (bit_vector)
        requires
            j <= 9,
            x < 1024,
    ;
    if j == 0 {
        assert(g1_power(0, x) == g1_step(x)) by (bit_vector)
            requires
                x < 1024,
        ;
        reveal_with_fuel(run, 2);
    } else {
        let i = (j - 1) as u32;
        lemma_g1_power(i, x);
        lemma_g1_power(i, g1_power(i, x));
        lemma_run_add(g1_map(), two_to(i), two_to(i), x);
        assert(g1_power(j, x) == g1_power(i, g1_power(i, x))) by (bit_vector)
            requires
                x < 1024,
                0 < j <= 9,
                i == j - 1,
        ;
    }
}

/// The table of G2 powers is right.
proof fn lemma_g2_power(j: u32, x: u32)
    requires
        j <= 9,
        x < 1024,
    ensures
        run(g2_map(), two_to(j), x) == g2_power(j, x),
        g2_power(j, x) < 1024,
    decreases j,
{
    assert(g2_power(j, x) < 1024) by (bit_vector)
        requires
            j <= 9,
            x < 1024,
    ;
    if j == 0 {
        assert(g2_power(0, x) == g2_step(x)) by (bit_vector)
            requires
                x < 1024,
        ;
        reveal_with_fuel(run, 2);
    } else {
        let i = (j - 1) as u32;
        lemma_g2_power(i, x);
        lemma_g2_power(i, g2_power(i, x));
        lemma_run_add(g2_map(), two_to(i), two_to(i), x);
        assert(g2_power(j, x) == g2_power(i, g2_power(i, x))) by (bit_vector)
            requires
                x < 1024,
                0 < j <= 9,
                i == j - 1,
        ;
    }
}

/// The numbers `2^j` that are needed.
proof fn lemma_two_to()
    ensures
        two_to(0) == 1,
        two_to(2) == 4,
        two_to(3) == 8,
        two_to(4) == 16,
        two_to(5) == 32,
        two_to(6) == 64,
        two_to(8) == 256,
        two_to(9) == 512,
{
    reveal_with_fuel(two_to, 10);
}

/// Steps that keep ten bits keep them.
proof fn lemma_run_below(f: spec_fn(u32) -> u32, n: nat, x: u32)
    requires
        forall|z: u32| z < 1024 ==> #[trigger] f(z) < 1024,
        x < 1024,
    ensures
        run(f, n, x) < 1024,
    decreases n,
{
    if n > 0 {
        lemma_run_below(f, (n - 1) as nat, x);
        assert(f(run(f, (n - 1) as nat, x)) < 1024);
    }
}

/// The G1 register goes through all its states.
proof fn lemma_g1_is_full_cycle()
    ensures
        is_full_cycle(g1_map()),
{
    let f = g1_map();
    lemma_two_to();
    assert(g1_step(0) == 0) by (bit_vector);
    assert forall|z: u32| z < 1024 implies #[trigger] f(z) < 1024 by {
        assert(g1_step(z) < 1024) by (bit_vector)
            requires
                z < 1024,
        ;
    }
    assert forall|z: u32| z < 1024 implies #[trigger] run(f, 1023, z) == z by {
        let half = g1_power(9, z);
        lemma_g1_power(9, z);
        lemma_g1_power(9, half);
        lemma_run_add(f, 512, 512, z);
        lemma_g1_power(0, z);
        lemma_run_add(f, 1023, 1, z);
        lemma_run_add(f, 1, 1023, z);
        reveal_with_fuel(run, 2);
        let back = run(f, 1023, z);
        lemma_run_below(f, 1023, z);
        assert(g1_step(back) == g1_power(9, half));
        assert(back == z) by (bit_vector)
            requires
                z < 1024,
                back < 1024,
                half == g1_power(9, z),
                g1_step(back) == g1_power(9, half),
        ;
    }
    assert forall|z: u32| 0 < z < 1024 implies #[trigger] is_moved(f, z) by {
        let a = g1_power(0, z);
        let b = g1_power(2, a);
        let c = g1_power(3, b);
        let d = g1_power(4, c);
        let e = g1_power(4, b);
        let g = g1_power(6, e);
        lemma_g1_power(0, z);
        lemma_g1_power(5, a);
        lemma_run_add(f, 32, 1, z);
        lemma_g1_power(2, a);
        lemma_run_add(f, 4, 1, z);
        lemma_g1_power(3, b);
        lemma_run_add(f, 8, 5, z);
        lemma_g1_power(4, c);
        lemma_run_add(f, 16, 13, z);
        lemma_g1_power(6, d);
        lemma_run_add(f, 64, 29, z);
        lemma_g1_power(4, b);
        lemma_run_add(f, 16, 5, z);
        lemma_g1_power(6, e);
        lemma_run_add(f, 64, 21, z);
        lemma_g1_power(8, g);
        lemma_run_add(f, 256, 85, z);
        assert(g1_power(5, a) != z && g1_power(6, d) != z && g1_power(8, g) != z) by (bit_vector)
            requires
                0 < z < 1024,
                a == g1_power(0, z),
                b == g1_power(2, a),
                c == g1_power(3, b),
                d == g1_power(4, c),
                e == g1_power(4, b),
                g == g1_power(6, e),
        ;
    }
}

/// The choices of stages of the G2 register go through all there are.
proof fn lemma_g2_is_full_cycle()
    ensures
        is_full_cycle(g2_map()),
{
    let f = g2_map();
    lemma_two_to();
    assert(g2_step(0) == 0) by (bit_vector);
    assert forall|z: u32| z < 1024 implies #[trigger] f(z) < 1024 by {
        assert(g2_step(z) < 1024) by (bit_vector)
            requires
                z < 1024,
        ;
    }
    assert forall|z: u32| z < 1024 implies #[trigger] run(f, 1023, z) == z by {
        let half = g2_power(9, z);
        lemma_g2_power(9, z);
        lemma_g2_power(9, half);
        lemma_run_add(f, 512, 512, z);
        lemma_g2_power(0, z);
        lemma_run_add(f, 1023, 1, z);
        lemma_run_add(f, 1, 1023, z);
        reveal_with_fuel(run, 2);
        let back = run(f, 1023, z);
        lemma_run_below(f, 1023, z);
        assert(g2_step(back) == g2_power(9, half));
        assert(back == z) by (bit_vector)
            requires
                z < 1024,
                back < 1024,
                half == g2_power(9, z),
                g2_step(back) == g2_power(9, half),
        ;
    }
    assert forall|z: u32| 0 < z < 1024 implies #[trigger] is_moved(f, z) by {
        let a = g2_power(0, z);
        let b = g2_power(2, a);
        let c = g2_power(3, b);
        let d = g2_power(4, c);
        let e = g2_power(4, b);
        let g = g2_power(6, e);
        lemma_g2_power(0, z);
        lemma_g2_power(5, a);
        lemma_run_add(f, 32, 1, z);
        lemma_g2_power(2, a);
        lemma_run_add(f, 4, 1, z);
        lemma_g2_power(3, b);
        lemma_run_add(f, 8, 5, z);
        lemma_g2_power(4, c);
        lemma_run_add(f, 16, 13, z);
        lemma_g2_power(6, d);
        lemma_run_add(f, 64, 29, z);
        lemma_g2_power(4, b);
        lemma_run_add(f, 16, 5, z);
        lemma_g2_power(6, e);
        lemma_run_add(f, 64, 21, z);
        lemma_g2_power(8, g);
        lemma_run_add(f, 256, 85, z);
        assert(g2_power(5, a) != z && g2_power(6, d) != z && g2_power(8, g) != z) by (bit_vector)
            requires
                0 < z < 1024,
                a == g2_power(0, z),
                b == g2_power(2, a),
                c == g2_power(3, b),
                d == g2_power(4, c),
                e == g2_power(4, b),
                g == g2_power(6, e),
        ;
    }
}

/// The state of the G1 register before chip `n`.
spec fn g1_word(n: nat) -> u32 {
    run(g1_map(), n, 0x3ff)
}

/// The output of the G2 register when the state of the G1 register is `x`.
spec fn quad(x: u32) -> bool {
    (lit(x, 9) && !(lit(x, 8) ^ lit(x, 7) ^ lit(x, 4) ^ lit(x, 3) ^ lit(x, 2) ^ lit(x, 0))) ^ (lit(
        x,
        8,
    ) && !(lit(x, 4) ^ lit(x, 2))) ^ (lit(x, 7) && !(lit(x, 6) ^ lit(x, 5) ^ lit(x, 3) ^ lit(x, 1)
        ^ lit(x, 0))) ^ (lit(x, 6) && !(lit(x, 4) ^ lit(x, 2) ^ lit(x, 1) ^ lit(x, 0))) ^ (lit(x, 5)
        && (lit(x, 4) ^ lit(x, 3))) ^ (lit(x, 4) && (lit(x, 2) ^ lit(x, 1))) ^ (lit(x, 3) && (lit(
        x,
        2,
    ) ^ lit(x, 0))) ^ (lit(x, 2) && !lit(x, 1))
}

/// The bits of the G1 word are the stages of the G1 register.
proof fn lemma_g1_register(n: nat)
    ensures
        g1_at(n).len() == 10,
        g1_word(n) < 1024,
        forall|i: int| 0 <= i < 10 ==> #[trigger] g1_at(n)[i] == lit(g1_word(n), i as u32),
    decreases n,
{
    if n == 0 {
        assert forall|i: int| 0 <= i < 10 implies #[trigger] g1_at(n)[i] == lit(
            g1_word(n),
            i as u32,
        ) by {
            let k = i as u32;
            assert(lit(0x3ff, k)) by (bit_vector)
                requires
                    k < 10,
            ;
        }
    } else {
        let before = (n - 1) as nat;
        lemma_g1_register(before);
        lemma_g1_is_full_cycle();
        lemma_run_range(g1_map(), n, 0x3ff);
        let x = g1_word(before);
        assert(g1_word(n) == g1_step(x));
        assert forall|i: int| 0 <= i < 10 implies #[trigger] g1_at(n)[i] == lit(
            g1_word(n),
            i as u32,
        ) by {
            if i == 0 {
                assert(g1_at(before)[2] == lit(x, 2));
                assert(g1_at(before)[9] == lit(x, 9));
                assert(lit(g1_step(x), 0) == (lit(x, 2) ^ lit(x, 9))) by (bit_vector);
            } else {
                let k = i as u32;
                let j = (i - 1) as u32;
                assert(g1_at(before)[i - 1] == lit(x, j));
                assert(lit(g1_step(x), k) == lit(x, j)) by (bit_vector)
                    requires
                        0 < k < 10,
                        j == k - 1,
                ;
            }
        }
    }
}

/// Quadratic outputs follow the recurrence of the G2 register.
proof fn lemma_quad_recurrence(x: u32)
    requires
        x < 1024,
    ensures
        quad(run(g1_map(), 10, x)) == (quad(run(g1_map(), 8, x)) ^ quad(run(g1_map(), 7, x)) ^ quad(
            run(g1_map(), 4, x),
        ) ^ quad(run(g1_map(), 2, x)) ^ quad(run(g1_map(), 1, x)) ^ quad(x)),
{
    reveal_with_fuel(run, 11);
    let x1 = g1_step(x);
    let x2 = g1_step(x1);
    let x4 = g1_step(g1_step(x2));
    let x7 = g1_step(g1_step(g1_step(x4)));
    let x8 = g1_step(x7);
    let x10 = g1_step(g1_step(x8));
    assert(quad(x10) == (quad(x8) ^ quad(x7) ^ quad(x4) ^ quad(x2) ^ quad(x1) ^ quad(x)))
        by (bit_vector)
        requires
            x < 1024,
            x1 == g1_step(x),
            x2 == g1_step(x1),
            x4 == g1_step(g1_step(x2)),
            x7 == g1_step(g1_step(g1_step(x4))),
            x8 == g1_step(x7),
            x10 == g1_step(g1_step(x8)),
    ;
}

/// The G2 register begins with ten ones.
proof fn lemma_quad_start(k: nat)
    requires
        k < 10,
    ensures
        quad(g1_word(k)),
{
    reveal_with_fuel(run, 11);
    assert(g1_step(1023) == 1022 && g1_step(1022) == 1020 && g1_step(1020) == 1016 && g1_step(1016)
        == 1009 && g1_step(1009) == 995 && g1_step(995) == 967 && g1_step(967) == 910 && g1_step(
        910,
    ) == 796 && g1_step(796) == 568) by (bit_vector);
    assert(quad(1023) && quad(1022) && quad(1020) && quad(1016) && quad(1009) && quad(995) && quad(
        967,
    ) && quad(910) && quad(796) && quad(568)) by (bit_vector);
}

/// The stages of the G2 register hold its outputs to come.
proof fn lemma_g2_register(n: nat)
    ensures
        g2_at(n).len() == 10,
        forall|i: int|
            0 <= i < 10 ==> #[trigger] g2_at(n)[i] == quad(g1_word((n + 9 - i) as nat)),
    decreases n,
{
    if n == 0 {
        assert forall|i: int| 0 <= i < 10 implies #[trigger] g2_at(n)[i] == quad(
            g1_word((n + 9 - i) as nat),
        ) by {
            lemma_quad_start((9 - i) as nat);
        }
    } else {
        let before = (n - 1) as nat;
        lemma_g2_register(before);
        lemma_g1_register(before);
        let x = g1_word(before);
        lemma_quad_recurrence(x);
        let g = g2_at(before);
        lemma_run_add(g1_map(), 10, before, 0x3ff);
        lemma_run_add(g1_map(), 8, before, 0x3ff);
        lemma_run_add(g1_map(), 7, before, 0x3ff);
        lemma_run_add(g1_map(), 4, before, 0x3ff);
        lemma_run_add(g1_map(), 2, before, 0x3ff);
        lemma_run_add(g1_map(), 1, before, 0x3ff);
        assert(g[1] == quad(g1_word((before + 8) as nat)));
        assert(g[2] == quad(g1_word((before + 7) as nat)));
        assert(g[5] == quad(g1_word((before + 4) as nat)));
        assert(g[7] == quad(g1_word((before + 2) as nat)));
        assert(g[8] == quad(g1_word((before + 1) as nat)));
        assert(g[9] == quad(g1_word(before)));
        assert forall|i: int| 0 <= i < 10 implies #[trigger] g2_at(n)[i] == quad(
            g1_word((n + 9 - i) as nat),
        ) by {
            if i > 0 {
                assert(g2_at(n)[i] == g[i - 1]);
            }
        }
    }
}

/// Exclusive or of those of the first `k` stages of the G2 register before chip `n`
/// that `m` chooses.
spec fn picked(m: u32, n: nat, k: nat) -> bool
    decreases k,
{
    if k == 0 {
        false
    } else {
        picked(m, n, (k - 1) as nat) ^ (lit(m, (k - 1) as u32) && g2_at(n)[k - 1])
    }
}

/// Choices add up.
proof fn lemma_picked_sum(a: u32, b: u32, n: nat, k: nat)
    requires
        k <= 10,
    ensures
        picked(a ^ b, n, k) == (picked(a, n, k) ^ picked(b, n, k)),
    decreases k,
{
    if k > 0 {
        lemma_picked_sum(a, b, n, (k - 1) as nat);
        let i = (k - 1) as u32;
        assert(lit(a ^ b, i) == (lit(a, i) ^ lit(b, i))) by (bit_vector)
            requires
                i < 10,
        ;
    }
}

/// A choice of one stage.
proof fn lemma_picked_stage(i: u32, n: nat, k: nat)
    requires
        i < 10,
        k <= 10,
    ensures
        picked(1u32 << i, n, k) == (i < k && g2_at(n)[i as int]),
    decreases k,
{
    if k > 0 {
        lemma_picked_stage(i, n, (k - 1) as nat);
        let j = (k - 1) as u32;
        assert(lit(1u32 << i, j) == (i == j)) by (bit_vector)
            requires
                i < 10,
                j < 10,
        ;
    }
}

/// A choice written out.
proof fn lemma_picked_all(m: u32, n: nat)
    ensures
        picked(m, n, 10) == ((lit(m, 0) && g2_at(n)[0]) ^ (lit(m, 1) && g2_at(n)[1]) ^ (lit(m, 2)
            && g2_at(n)[2]) ^ (lit(m, 3) && g2_at(n)[3]) ^ (lit(m, 4) && g2_at(n)[4]) ^ (lit(m, 5)
            && g2_at(n)[5]) ^ (lit(m, 6) && g2_at(n)[6]) ^ (lit(m, 7) && g2_at(n)[7]) ^ (lit(m, 8)
            && g2_at(n)[8]) ^ (lit(m, 9) && g2_at(n)[9])),
{
    reveal_with_fuel(picked, 11);
}

/// One step of a choice is one chip.
proof fn lemma_picked_step(m: u32, n: nat)
    requires
        m < 1024,
    ensures
        picked(g2_step(m), n, 10) == picked(m, n + 1, 10),
{
    lemma_g2_register(n);
    lemma_picked_all(g2_step(m), n);
    lemma_picked_all(m, n + 1);
    let h = g2_at(n + 1);
    let s = g2_step(m);
    let g0 = g2_at(n)[0];
    let g1 = g2_at(n)[1];
    let g2 = g2_at(n)[2];
    let g3 = g2_at(n)[3];
    let g4 = g2_at(n)[4];
    let g5 = g2_at(n)[5];
    let g6 = g2_at(n)[6];
    let g7 = g2_at(n)[7];
    let g8 = g2_at(n)[8];
    let g9 = g2_at(n)[9];
    let fed = g1 ^ g2 ^ g5 ^ g7 ^ g8 ^ g9;
    assert(h[0] == fed);
    assert(h[1] == g0 && h[2] == g1 && h[3] == g2 && h[4] == g3 && h[5] == g4 && h[6] == g5 && h[7]
        == g6 && h[8] == g7 && h[9] == g8);
    assert(((lit(s, 0) && g0) ^ (lit(s, 1) && g1) ^ (lit(s, 2) && g2) ^ (lit(s, 3) && g3) ^ (lit(
        s,
        4,
    ) && g4) ^ (lit(s, 5) && g5) ^ (lit(s, 6) && g6) ^ (lit(s, 7) && g7) ^ (lit(s, 8) && g8) ^ (lit(
        s,
        9,
    ) && g9)) == ((lit(m, 0) && fed) ^ (lit(m, 1) && g0) ^ (lit(m, 2) && g1) ^ (lit(m, 3) && g2) ^ (
    lit(m, 4) && g3) ^ (lit(m, 5) && g4) ^ (lit(m, 6) && g5) ^ (lit(m, 7) && g6) ^ (lit(m, 8) && g7)
        ^ (lit(m, 9) && g8))) by (bit_vector)
        requires
            m < 1024,
            s == g2_step(m),
            fed == (g1 ^ g2 ^ g5 ^ g7 ^ g8 ^ g9),
    ;
}

/// `s` steps of a choice are `s` chips.
proof fn lemma_picked_run(m: u32, s: nat, n: nat)
    requires
        m < 1024,
    ensures
        picked(run(g2_map(), s, m), n, 10) == picked(m, n + s, 10),
    decreases s,
{
    if s > 0 {
        let before = (s - 1) as nat;
        lemma_g2_is_full_cycle();
        lemma_run_range(g2_map(), before, m);
        lemma_picked_step(run(g2_map(), before, m), n);
        lemma_picked_run(m, before, n + 1);
    }
}

/// Every choice of stages gives the output of the register at some delay.
proof fn lemma_picked_is_delayed(m: u32) -> (s: nat)
    requires
        0 < m < 1024,
    ensures
        s < 1023,
        forall|n: nat| #[trigger] picked(m, n, 10) == quad(g1_word(n + s)),
{
    lemma_g2_is_full_cycle();
    lemma_orbit(g2_map(), 512);
    let s = lemma_permutation_reaches(orbit(g2_map(), 512), 1024, m as int) as nat;
    assert(run(g2_map(), s, 512) == m);
    assert forall|n: nat| #[trigger] picked(m, n, 10) == quad(g1_word(n + s)) by {
        lemma_picked_run(512, s, n);
        assert(1u32 << 9u32 == 512) by (bit_vector);
        lemma_picked_stage(9, n + s, 10);
        lemma_g2_register(n + s);
        assert(g2_at(n + s)[9] == quad(g1_word((n + s + 9 - 9) as nat)));
    }
    s
}

/// Exclusive or of the outputs of the G1 register `i` and `j` steps after state `z`.
spec fn lag_form(i: nat, j: nat, z: u32) -> bool {
    lit(run(g1_map(), i, z), 9) ^ lit(run(g1_map(), j, z), 9)
}

/// The G1 register is linear.
proof fn lemma_g1_linear(n: nat, x: u32, z: u32)
    requires
        x < 1024,
        z < 1024,
    ensures
        x ^ z < 1024,
        run(g1_map(), n, x ^ z) == run(g1_map(), n, x) ^ run(g1_map(), n, z),
    decreases n,
{
    assert(x ^ z < 1024) by (bit_vector)
        requires
            x < 1024,
            z < 1024,
    ;
    if n > 0 {
        let before = (n - 1) as nat;
        lemma_g1_linear(before, x, z);
        let a = run(g1_map(), before, x);
        let b = run(g1_map(), before, z);
        assert(g1_step(a ^ b) == g1_step(a) ^ g1_step(b)) by (bit_vector);
    }
}

/// Outputs of the G1 register are linear.
proof fn lemma_lag_form_linear(i: nat, j: nat, x: u32, z: u32)
    requires
        x < 1024,
        z < 1024,
    ensures
        lag_form(i, j, x ^ z) == (lag_form(i, j, x) ^ lag_form(i, j, z)),
        x ^ z < 1024,
        !lag_form(i, j, 0),
{
    lemma_g1_linear(i, x, z);
    lemma_g1_linear(j, x, z);
    let a = run(g1_map(), i, x);
    let b = run(g1_map(), i, z);
    let c = run(g1_map(), j, x);
    let d = run(g1_map(), j, z);
    assert((lit(a ^ b, 9) ^ lit(c ^ d, 9)) == ((lit(a, 9) ^ lit(c, 9)) ^ (lit(b, 9) ^ lit(d, 9))))
        by (bit_vector);
    lemma_g1_is_full_cycle();
    lemma_run_range(g1_map(), i, 0);
    lemma_run_range(g1_map(), j, 0);
}

/// Outputs after one more of the numbers that a linear map adds up.
proof fn lemma_lag_form_chosen(i: nat, j: nat, z: u32, y: u32, k: u32, c: u32)
    requires
        z < 1024,
        c < 1024,
    ensures
        z ^ chosen(y, k, c) < 1024,
        lag_form(i, j, z ^ chosen(y, k, c)) == (lag_form(i, j, z) ^ (lit(y, k) && lag_form(
            i,
            j,
            c,
        ))),
        !lag_form(i, j, 0),
{
    lemma_lag_form_linear(i, j, z, chosen(y, k, c));
}

/// A basis in which the outputs of the G2 register are products of pairs of
/// coordinates and a linear form.
spec fn basis(y: u32) -> u32 {
    mapped(1, 8, 2, 5, 23, 33, 90, 142, 470, 613, y)
}

/// The coordinates of a state of the G1 register in the basis.
spec fn coordinates(x: u32) -> u32 {
    mapped(1, 4, 9, 2, 28, 33, 90, 143, 452, 627, x)
}

/// Outputs of the G1 register in the basis.
proof fn lemma_lag_form_in_basis(i: nat, j: nat, y: u32)
    ensures
        lag_form(i, j, basis(y)) == ((lit(y, 0) && lag_form(i, j, 1)) ^ (lit(y, 1)
            && lag_form(i, j, 8)) ^ (lit(y, 2) && lag_form(i, j, 2)) ^ (lit(y, 3)
            && lag_form(i, j, 5)) ^ (lit(y, 4) && lag_form(i, j, 23)) ^ (lit(y, 5)
            && lag_form(i, j, 33)) ^ (lit(y, 6) && lag_form(i, j, 90)) ^ (lit(y, 7)
            && lag_form(i, j, 142)) ^ (lit(y, 8) && lag_form(i, j, 470)) ^ (lit(y, 9)
            && lag_form(i, j, 613))),
{
    let z0 = 0 ^ chosen(y, 0, 1);
    lemma_lag_form_chosen(i, j, 0, y, 0, 1);
    let z1 = z0 ^ chosen(y, 1, 8);
    lemma_lag_form_chosen(i, j, z0, y, 1, 8);
    let z2 = z1 ^ chosen(y, 2, 2);
    lemma_lag_form_chosen(i, j, z1, y, 2, 2);
    let z3 = z2 ^ chosen(y, 3, 5);
    lemma_lag_form_chosen(i, j, z2, y, 3, 5);
    let z4 = z3 ^ chosen(y, 4, 23);
    lemma_lag_form_chosen(i, j, z3, y, 4, 23);
    let z5 = z4 ^ chosen(y, 5, 33);
    lemma_lag_form_chosen(i, j, z4, y, 5, 33);
    let z6 = z5 ^ chosen(y, 6, 90);
    lemma_lag_form_chosen(i, j, z5, y, 6, 90);
    let z7 = z6 ^ chosen(y, 7, 142);
    lemma_lag_form_chosen(i, j, z6, y, 7, 142);
    let z8 = z7 ^ chosen(y, 8, 470);
    lemma_lag_form_chosen(i, j, z7, y, 8, 470);
    let z9 = z8 ^ chosen(y, 9, 613);
    lemma_lag_form_chosen(i, j, z8, y, 9, 613);
    assert(0 ^ chosen(y, 0, 1) == chosen(y, 0, 1)) by (bit_vector);
    assert(basis(y) == z9);
}

/// A quadratic output of the G2 register with linear outputs of the G1 register.
spec fn mixed(i: nat, j: nat) -> spec_fn(int) -> bool {
    |x: int| lag_form(i, j, x as u32) ^ quad(x as u32)
}

/// The marks of the linear form in the coordinates.
spec fn marks(i: nat, j: nat) -> Seq<bool> {
    seq![
        lag_form(i, j, 1),
        lag_form(i, j, 8),
        lag_form(i, j, 2),
        !lag_form(i, j, 5),
        lag_form(i, j, 23),
        lag_form(i, j, 33),
        lag_form(i, j, 90),
        lag_form(i, j, 142),
        lag_form(i, j, 470),
        !lag_form(i, j, 613),
    ]
}

/// In the basis the mixed outputs are a paired form with four products.
proof fn lemma_mixed_in_basis(i: nat, j: nat, y: u32)
    requires
        y < 1024,
    ensures
        basis(y) < 1024,
        mixed(i, j)(basis(y) as int) == paired_form(4, marks(i, j), y as int),
{
    lemma_lag_form_in_basis(i, j, y);
    let x = basis(y);
    assert(x < 1024 && quad(x) == ((lit(y, 0) && lit(y, 1)) ^ (lit(y, 2) && lit(y, 3)) ^ (lit(y, 4)
        && lit(y, 5)) ^ (lit(y, 6) && lit(y, 7)) ^ lit(y, 3) ^ lit(y, 9))) by (bit_vector)
        requires
            y < 1024,
            x == basis(y),
    ;
    assert(lit(y, 0) == (y % 2 == 1) && lit(y, 1) == ((y / 2) % 2 == 1)
        && lit(y, 2) == ((y / 4) % 2 == 1) && lit(y, 3) == ((y / 4 / 2) % 2 == 1)
        && lit(y, 4) == ((y / 4 / 4) % 2 == 1) && lit(y, 5) == ((y / 4 / 4 / 2) % 2 == 1)
        && lit(y, 6) == ((y / 4 / 4 / 4) % 2 == 1) && lit(y, 7) == ((y / 4 / 4 / 4 / 2) % 2 == 1)
        && lit(y, 8) == ((y / 4 / 4 / 4 / 4) % 2 == 1)
        && lit(y, 9) == ((y / 4 / 4 / 4 / 4 / 2) % 2 == 1)) by (bit_vector)
        requires
            y < 1024,
    ;
    assert(digit0(y as int) == lit(y, 0) && digit1(y as int) == lit(y, 1));
    assert(digit0(y as int / 4) == lit(y, 2) && digit1(y as int / 4) == lit(y, 3));
    assert(digit0(y as int / 4 / 4) == lit(y, 4) && digit1(y as int / 4 / 4) == lit(y, 5));
    assert(digit0(y as int / 4 / 4 / 4) == lit(y, 6) && digit1(y as int / 4 / 4 / 4) == lit(y, 7));
    assert(digit0(y as int / 4 / 4 / 4 / 4) == lit(y, 8));
    assert(digit1(y as int / 4 / 4 / 4 / 4) == lit(y, 9));
    let b = marks(i, j);
    let b2 = b.skip(2);
    let b4 = b2.skip(2);
    let b6 = b4.skip(2);
    let b8 = b6.skip(2);
    reveal_with_fuel(paired_form, 5);
}

/// The mixed outputs are nearly balanced: over all states their signs add up to
/// nothing, 64 or -64.
proof fn lemma_mixed_sum(i: nat, j: nat)
    ensures
        is_nothing_or(sign_sum(mixed(i, j), 1024), 64),
{
    let f = mixed(i, j);
    let s = |y: int| basis(y as u32) as int;
    assert forall|y: int| 0 <= y < 1024 implies 0 <= #[trigger] s(y) < 1024 by {
        lemma_mixed_in_basis(i, j, y as u32);
    }
    assert forall|y: int, z: int|
        0 <= y < 1024 && 0 <= z < 1024 && #[trigger] s(y) == #[trigger] s(z) implies y == z by {
        lemma_basis_is_invertible(y as u32);
        lemma_basis_is_invertible(z as u32);
    }
    lemma_reordered(f, s, 1024);
    let b = marks(i, j);
    let g = |y: int| paired_form(4, b, y);
    let h = |y: int| f(s(y));
    assert forall|y: int| 0 <= y < 1024 implies #[trigger] h(y) == g(y) by {
        lemma_mixed_in_basis(i, j, y as u32);
    }
    lemma_equal_bits(h, g, 1024);
    lemma_form_sum(4, b);
    reveal_with_fuel(pair_numbers, 5);
    reveal_with_fuel(form_size, 5);
}

/// The coordinates of a combination of the basis are its coefficients.
proof fn lemma_basis_is_invertible(y: u32)
    requires
        y < 1024,
    ensures
        coordinates(basis(y)) == y,
{
    assert(coordinates(basis(y)) == y) by (bit_vector)
        requires
            y < 1024,
    ;
}

/// A sum over the chips of a period is one over all states of the G1 register but
/// zero.
proof fn lemma_period_sum(f: spec_fn(int) -> bool)
    ensures
        sign_sum(|t: int| f(g1_word(t as nat) as int), 1023) == sign_sum(f, 1024) - sign(f(0)),
{
    lemma_g1_is_full_cycle();
    lemma_orbit(g1_map(), 0x3ff);
    let s = orbit(g1_map(), 0x3ff);
    lemma_reordered(f, s, 1024);
    let g = |t: int| f(s(t));
    let h = |t: int| f(g1_word(t as nat) as int);
    assert(sign_sum(g, 1024) == sign_sum(g, 1023) + sign(g(1023)));
    lemma_equal_bits(g, h, 1023);
}

/// The chips that two lagged outputs of the G1 register and a delayed one of the G2
/// register give.
spec fn delayed_mix(k: nat, s: nat) -> spec_fn(int) -> bool {
    |x: int|
        lag_form(0, k, x as u32) ^ quad(run(g1_map(), s, x as u32))
}

/// A delay does not change the sum.
proof fn lemma_delayed_mix_sum(k: nat, s: nat)
    requires
        s < 1023,
    ensures
        is_nothing_or(sign_sum(delayed_mix(k, s), 1024), 64),
{
    let f = g1_map();
    let i = (1023 - s) as nat;
    lemma_g1_is_full_cycle();
    let back = |z: int| run(f, i, z as u32) as int;
    assert forall|z: int| 0 <= z < 1024 implies 0 <= #[trigger] back(z) < 1024 && run(
        f,
        s,
        back(z) as u32,
    ) == z by {
        lemma_run_range(f, i, z as u32);
        lemma_run_add(f, s, i, z as u32);
        assert(run(f, 1023, z as u32) == z as u32);
    }
    assert forall|y: int, z: int|
        0 <= y < 1024 && 0 <= z < 1024 && #[trigger] back(y) == #[trigger] back(z) implies y
        == z by {
        assert(run(f, s, back(y) as u32) == y);
        assert(run(f, s, back(z) as u32) == z);
    }
    let d = delayed_mix(k, s);
    lemma_reordered(d, back, 1024);
    let g = |z: int| d(back(z));
    let m = mixed(i, k + i);
    assert forall|z: int| 0 <= z < 1024 implies #[trigger] g(z) == m(z) by {
        assert(0 <= back(z) < 1024 && run(f, s, back(z) as u32) == z);
        lemma_run_add(f, k, i, z as u32);
    }
    lemma_equal_bits(g, m, 1024);
    lemma_mixed_sum(i, k + i);
}

/// The stages of the G1 register are its outputs to come.
proof fn lemma_stages_are_outputs(z: u32, i: u32)
    requires
        z < 1024,
        i < 10,
    ensures
        lit(z, i) == lit(run(g1_map(), (9 - i) as nat, z), 9),
    decreases 9 - i,
{
    if i < 9 {
        let k = (i + 1) as u32;
        let n = (9 - k) as nat;
        let next = g1_step(z);
        assert(lit(next, k) == lit(z, i) && next < 1024) by (bit_vector)
            requires
                z < 1024,
                i < 9,
                k == i + 1,
                next == g1_step(z),
        ;
        lemma_stages_are_outputs(next, k);
        lemma_run_add(g1_map(), n, 1, z);
        reveal_with_fuel(run, 2);
    }
}

/// Some state has different outputs now and `k` steps later.
proof fn lemma_lag_is_seen(k: nat) -> (r: u32)
    requires
        0 < k < 1023,
    ensures
        0 < r < 1024,
        lag_form(0, k, r),
{
    let f = g1_map();
    lemma_g1_is_full_cycle();
    let z = 1u32;
    let w = run(f, k, z);
    lemma_no_early_return(f, k, z);
    lemma_run_range(f, k, z);
    let i = lemma_different_bit(z, w);
    let n = (9 - i) as nat;
    lemma_stages_are_outputs(z, i);
    lemma_stages_are_outputs(w, i);
    lemma_run_add(f, n, k, z);
    lemma_run_add(f, k, n, z);
    let r = run(f, n, z);
    lemma_run_range(f, n, z);
    lemma_orbit(f, z);
    assert(run(f, n as int as nat, z) != 0);
    r
}

/// Different numbers differ in a bit.
proof fn lemma_different_bit(x: u32, z: u32) -> (i: u32)
    requires
        x < 1024,
        z < 1024,
        x != z,
    ensures
        i < 10,
        lit(x, i) != lit(z, i),
{
    assert(lit(x, 0) != lit(z, 0) || lit(x, 1) != lit(z, 1) || lit(x, 2) != lit(z, 2) || lit(x, 3)
        != lit(z, 3) || lit(x, 4) != lit(z, 4) || lit(x, 5) != lit(z, 5) || lit(x, 6) != lit(z, 6)
        || lit(x, 7) != lit(z, 7) || lit(x, 8) != lit(z, 8) || lit(x, 9) != lit(z, 9))
        by (bit_vector)
        requires
            x < 1024,
            z < 1024,
            x != z,
    ;
    choose|i: u32| i < 10 && lit(x, i) != lit(z, i)
}

/// Adding a fixed number permutes the numbers of ten bits.
proof fn lemma_shift_permutes(r: u32)
    requires
        r < 1024,
    ensures
        permutes(|x: int| (x as u32 ^ r) as int, 1024),
{
    let s = |x: int| (x as u32 ^ r) as int;
    assert forall|x: int| 0 <= x < 1024 implies 0 <= #[trigger] s(x) < 1024 by {
        let a = x as u32;
        assert(a ^ r < 1024) by (bit_vector)
            requires
                a < 1024,
                r < 1024,
        ;
    }
    assert forall|x: int, z: int|
        0 <= x < 1024 && 0 <= z < 1024 && #[trigger] s(x) == #[trigger] s(z) implies x == z by {
        let a = x as u32;
        let b = z as u32;
        assert(a == b) by (bit_vector)
            requires
                a ^ r == b ^ r,
        ;
    }
}

/// The exclusive or of an m-sequence with itself at a lag is balanced.
proof fn lemma_lag_form_sum(k: nat)
    requires
        0 < k < 1023,
    ensures
        sign_sum(|x: int| lag_form(0, k, x as u32), 1024) == 0,
{
    let r = lemma_lag_is_seen(k);
    let f = |x: int| lag_form(0, k, x as u32);
    let s = |x: int| (x as u32 ^ r) as int;
    lemma_shift_permutes(r);
    assert forall|x: int| 0 <= x < 1024 implies f(#[trigger] s(x)) == !f(x) by {
        lemma_lag_form_linear(0, k, x as u32, r);
    }
    lemma_turned_over(f, s, 1024);
}

/// The stages of the G2 register that enter the code of satellite `prn`.
spec fn stage_choice(prn: int) -> u32 {
    let (a, b) = G2_TAPS@[prn - 1];
    (1u32 << ((a - 1) as u32)) ^ (1u32 << ((b - 1) as u32))
}

/// Chip `n` of the code of satellite `prn` as a bit, for any `n`.
spec fn code_bit(prn: int, n: nat) -> bool {
    lit(g1_word(n), 9) ^ picked(stage_choice(prn), n, 10)
}

/// The codes take two different stages of the G2 register.
proof fn lemma_stage_choice(prn: int)
    requires
        1 <= prn <= 32,
    ensures
        0 < stage_choice(prn) < 1024,
        1 <= G2_TAPS@[prn - 1].0 <= 10,
        1 <= G2_TAPS@[prn - 1].1 <= 10,
{
    let (a, b) = G2_TAPS@[prn - 1];
    assert(1 <= a <= 10 && 1 <= b <= 10 && a != b);
    let i = (a - 1) as u32;
    let j = (b - 1) as u32;
    assert(0 < (1u32 << i) ^ (1u32 << j) < 1024) by (bit_vector)
        requires
            i < 10,
            j < 10,
            i != j,
    ;
}

/// The chips of a code.
proof fn lemma_chip(prn: int, n: nat)
    requires
        1 <= prn <= 32,
    ensures
        ca_chip(prn, n as int) == sign(code_bit(prn, n)),
        code_bit(prn, n) == code_bit(prn, n % 1023),
{
    lemma_stage_choice(prn);
    let (a, b) = G2_TAPS@[prn - 1];
    let i = (a - 1) as u32;
    let j = (b - 1) as u32;
    lemma_picked_sum(1u32 << i, 1u32 << j, n, 10);
    lemma_picked_stage(i, n, 10);
    lemma_picked_stage(j, n, 10);
    lemma_g1_register(n);
    assert(g1_at(n)[9] == lit(g1_word(n), 9));
    let r = n % 1023;
    let s = lemma_picked_is_delayed(stage_choice(prn));
    lemma_g1_is_full_cycle();
    lemma_run_mod(g1_map(), n, 0x3ff);
    lemma_run_mod(g1_map(), n + s, 0x3ff);
    lemma_run_mod(g1_map(), r + s, 0x3ff);
    assert((n + s) % 1023 == (r + s) % 1023);
    assert(picked(stage_choice(prn), n, 10) == quad(g1_word(n + s)));
    assert(picked(stage_choice(prn), r, 10) == quad(g1_word(r + s)));
}

/// A correlation of two codes is a sum of signs.
proof fn lemma_correlation_sum(p: int, q: int, lag: int, m: int)
    requires
        1 <= p <= 32,
        1 <= q <= 32,
        0 <= lag,
        0 <= m <= 1023,
    ensures
        correlation_terms(ca_code(p), ca_code(q), lag, m) == sign_sum(
            |t: int| code_bit(p, t as nat) ^ code_bit(q, (t + lag % 1023) as nat),
            m,
        ),
    decreases m,
{
    if m > 0 {
        lemma_correlation_sum(p, q, lag, m - 1);
        let t = m - 1;
        let k = lag % 1023;
        lemma_chip(p, t as nat);
        let j = (t + lag) % 1023;
        lemma_chip(q, j as nat);
        lemma_chip(q, (t + k) as nat);
        assert(j == (t + k) % 1023);
        let x = sign(code_bit(p, t as nat));
        let y = sign(code_bit(q, (t + k) as nat));
        assert(ca_code(p)[t] == x);
        assert(ca_code(q)[j] == y);
        assert(x * y == sign(code_bit(p, t as nat) ^ code_bit(q, (t + k) as nat)));
    }
}

/// Chips of two codes at a lag differ as two outputs of the G1 register and a
/// choice of stages of the G2 register.
proof fn lemma_two_chips(p: int, q: int, k: nat, t: nat)
    requires
        1 <= p <= 32,
        1 <= q <= 32,
    ensures
        (code_bit(p, t) ^ code_bit(q, t + k)) == (lag_form(0, k, g1_word(t)) ^ picked(
            stage_choice(p) ^ run(g2_map(), k, stage_choice(q)),
            t,
            10,
        )),
{
    lemma_stage_choice(q);
    lemma_picked_run(stage_choice(q), k, t);
    lemma_picked_sum(stage_choice(p), run(g2_map(), k, stage_choice(q)), t, 10);
    lemma_run_add(g1_map(), k, t, 0x3ff);
}

/// No stage is chosen by zero.
proof fn lemma_picked_none(n: nat, k: nat)
    requires
        k <= 10,
    ensures
        !picked(0, n, k),
    decreases k,
{
    if k > 0 {
        lemma_picked_none(n, (k - 1) as nat);
        let i = (k - 1) as u32;
        assert(!lit(0, i)) by (bit_vector)
            requires
                i < 10,
        ;
    }
}

/// Different codes, or a code and itself at a lag, correlate weakly: the
/// correlation is -1, 63 or -65, where the peak would be 1023.
pub proof fn law_codes_correlate_weakly(p: int, q: int, lag: int)
    requires
        1 <= p <= 32,
        1 <= q <= 32,
        0 <= lag,
        p != q || lag % 1023 != 0,
    ensures
        correlation(ca_code(p), ca_code(q), lag) == -1 || correlation(ca_code(p), ca_code(q), lag)
            == 63 || correlation(ca_code(p), ca_code(q), lag) == -65,
{
    let k = (lag % 1023) as nat;
    let bits = |t: int| code_bit(p, t as nat) ^ code_bit(q, (t + lag % 1023) as nat);
    lemma_correlation_sum(p, q, lag, 1023);
    lemma_stage_choice(p);
    lemma_stage_choice(q);
    lemma_g1_is_full_cycle();
    lemma_g2_is_full_cycle();
    lemma_run_range(g2_map(), k, stage_choice(q));
    let m = stage_choice(p);
    let moved = run(g2_map(), k, stage_choice(q));
    let w = m ^ moved;
    assert(w < 1024) by (bit_vector)
        requires
            w == m ^ moved,
            m < 1024,
            moved < 1024,
    ;
    if w == 0 {
        assert(m == moved) by (bit_vector)
            requires
                m ^ moved == 0,
        ;
        if k == 0 {
            assert forall|n: int| 0 <= n < 1023 implies ca_chip(p, n) == #[trigger] ca_chip(
                q,
                n,
            ) by {
                lemma_chip(p, n as nat);
                lemma_chip(q, n as nat);
            }
            assert(ca_code(p) =~= ca_code(q));
            law_codes_are_distinct(p, q);
        }
        let f = |x: int| lag_form(0, k, x as u32);
        let g = |t: int| f(g1_word(t as nat) as int);
        assert forall|t: int| 0 <= t < 1023 implies #[trigger] bits(t) == g(t) by {
            lemma_two_chips(p, q, k, t as nat);
            lemma_picked_none(t as nat, 10);
        }
        lemma_equal_bits(bits, g, 1023);
        lemma_period_sum(f);
        lemma_lag_form_sum(k);
        lemma_lag_form_linear(0, k, 0, 0);
    } else {
        let s = lemma_picked_is_delayed(w);
        let f = delayed_mix(k, s);
        let g = |t: int| f(g1_word(t as nat) as int);
        assert forall|t: int| 0 <= t < 1023 implies #[trigger] bits(t) == g(t) by {
            let n = t as nat;
            lemma_two_chips(p, q, k, n);
            assert(picked(w, n, 10) == quad(g1_word(n + s)));
            lemma_run_add(g1_map(), s, n, 0x3ff);
        }
        lemma_equal_bits(bits, g, 1023);
        lemma_period_sum(f);
        lemma_delayed_mix_sum(k, s);
        lemma_lag_form_linear(0, k, 0, 0);
        lemma_run_range(g1_map(), s, 0);
        assert(!quad(0)) by (bit_vector);
    }
}

/// Sum of the chips of a code.
pub open spec fn chip_sum(code: Seq<i8>) -> int
    decreases code.len(),
{
    if code.len() == 0 {
        0
    } else {
        chip_sum(code.drop_last()) + code.last()
    }
}

/// The state of the G1 register `d` steps after `x`, for `d` up to nine.
spec fn ahead(d: u32, x: u32) -> u32 {
    if d == 0 {
        mapped(1, 2, 4, 8, 16, 32, 64, 128, 256, 512, x)
    } else if d == 1 {
        mapped(2, 4, 9, 16, 32, 64, 128, 256, 512, 1, x)
    } else if d == 2 {
        mapped(4, 9, 18, 32, 64, 128, 256, 512, 1, 2, x)
    } else if d == 3 {
        mapped(9, 18, 36, 64, 128, 256, 512, 1, 2, 4, x)
    } else if d == 4 {
        mapped(18, 36, 73, 128, 256, 512, 1, 2, 4, 9, x)
    } else if d == 5 {
        mapped(36, 73, 146, 256, 512, 1, 2, 4, 9, 18, x)
    } else if d == 6 {
        mapped(73, 146, 292, 512, 1, 2, 4, 9, 18, 36, x)
    } else if d == 7 {
        mapped(146, 292, 585, 1, 2, 4, 9, 18, 36, 73, x)
    } else if d == 8 {
        mapped(292, 585, 147, 2, 4, 9, 18, 36, 73, 146, x)
    } else {
        mapped(585, 147, 294, 4, 9, 18, 36, 73, 146, 292, x)
    }
}

/// Whether adding `r` to the state of the G1 register turns over the chip of a code
/// with the stages `a` and `b` of the G2 register.
spec fn turns_over(a: u32, b: u32, r: u32) -> bool {
    ||| a == 2 && b == 6 && r == 167
    ||| a == 3 && b == 7 && r == 231
    ||| a == 4 && b == 8 && r == 463
    ||| a == 5 && b == 9 && r == 318
    ||| a == 1 && b == 9 && r == 312
    ||| a == 2 && b == 10 && r == 28
    ||| a == 1 && b == 8 && r == 136
    ||| a == 2 && b == 9 && r == 272
    ||| a == 3 && b == 10 && r == 273
    ||| a == 2 && b == 3 && r == 131
    ||| a == 3 && b == 4 && r == 262
    ||| a == 5 && b == 6 && r == 26
    ||| a == 6 && b == 7 && r == 52
    ||| a == 7 && b == 8 && r == 105
    ||| a == 8 && b == 9 && r == 210
    ||| a == 9 && b == 10 && r == 420
    ||| a == 1 && b == 4 && r == 12
    ||| a == 2 && b == 5 && r == 25
    ||| a == 3 && b == 6 && r == 50
    ||| a == 4 && b == 7 && r == 100
    ||| a == 5 && b == 8 && r == 201
    ||| a == 6 && b == 9 && r == 402
    ||| a == 1 && b == 3 && r == 427
    ||| a == 4 && b == 6 && r == 56
    ||| a == 5 && b == 7 && r == 112
    ||| a == 6 && b == 8 && r == 224
    ||| a == 7 && b == 9 && r == 448
    ||| a == 8 && b == 10 && r == 389
    ||| a == 1 && b == 6 && r == 20
    ||| a == 2 && b == 7 && r == 7
    ||| a == 3 && b == 8 && r == 15
    ||| a == 4 && b == 9 && r == 31
}

/// The chip of a code with the stages `a` and `b` in terms of the state of the G1
/// register.
spec fn chip_of_state(a: u32, b: u32, x: u32) -> bool {
    lit(x, 9) ^ quad(ahead((10 - a) as u32, x)) ^ quad(ahead((10 - b) as u32, x))
}

/// For every code there is a number that turns its chips over.
proof fn lemma_turn(prn: int) -> (r: u32)
    requires
        1 <= prn <= 32,
    ensures
        r < 1024,
        turns_over(G2_TAPS@[prn - 1].0 as u32, G2_TAPS@[prn - 1].1 as u32, r),
{
    let turns = seq![
        167u32, 231u32, 463u32, 318u32, 312u32, 28u32, 136u32, 272u32, 273u32, 131u32, 262u32,
        26u32, 52u32, 105u32, 210u32, 420u32, 12u32, 25u32, 50u32, 100u32, 201u32, 402u32,
        427u32, 56u32, 112u32, 224u32, 448u32, 389u32, 20u32, 7u32, 15u32, 31u32,
    ];
    turns[prn - 1]
}

/// The chip of a code before and after a turn.
#[verifier::rlimit(80)]
proof fn lemma_turned_chip(a: u32, b: u32, r: u32, x: u32)
    requires
        turns_over(a, b, r),
        x < 1024,
        r < 1024,
        x ^ r < 1024,
        1 <= a <= 10,
        1 <= b <= 10,
    ensures
        chip_of_state(a, b, x ^ r) == !chip_of_state(a, b, x),
{
    let c = (10 - a) as u32;
    let d = (10 - b) as u32;
    let z = x ^ r;
    let xc = ahead(c, x);
    let xd = ahead(d, x);
    let rc = ahead(c, r);
    let rd = ahead(d, r);
    let zc = ahead(c, z);
    let zd = ahead(d, z);
    lemma_ahead(c, x);
    lemma_ahead(c, r);
    lemma_ahead(c, z);
    lemma_ahead(d, x);
    lemma_ahead(d, r);
    lemma_ahead(d, z);
    lemma_g1_linear(c as nat, x, r);
    lemma_g1_linear(d as nat, x, r);
    assert((lit(z, 9) ^ quad(zc) ^ quad(zd)) == !(lit(x, 9) ^ quad(xc) ^ quad(xd)))
        by (bit_vector)
        requires
            turns_over(a, b, r),
            x < 1024,
            z == x ^ r,
            c == 10 - a,
            d == 10 - b,
            xc == ahead(c, x),
            xd == ahead(d, x),
            rc == ahead(c, r),
            rd == ahead(d, r),
            zc == xc ^ rc,
            zd == xd ^ rd,
    ;
}

/// The chips of a code in terms of the state of the G1 register.
proof fn lemma_code_bit_of_state(prn: int, n: nat)
    requires
        1 <= prn <= 32,
    ensures
        ca_chip(prn, n as int) == sign(
            chip_of_state(
                G2_TAPS@[prn - 1].0 as u32,
                G2_TAPS@[prn - 1].1 as u32,
                g1_word(n),
            ),
        ),
{
    lemma_stage_choice(prn);
    let (a, b) = G2_TAPS@[prn - 1];
    lemma_g1_register(n);
    lemma_g2_register(n);
    assert(g1_at(n)[9] == lit(g1_word(n), 9));
    assert(g2_at(n)[a - 1] == quad(g1_word((n + 9 - (a - 1)) as nat)));
    assert(g2_at(n)[b - 1] == quad(g1_word((n + 9 - (b - 1)) as nat)));
    lemma_ahead((10 - a) as u32, g1_word(n));
    lemma_ahead((10 - b) as u32, g1_word(n));
    lemma_run_add(g1_map(), (10 - a) as nat, n, 0x3ff);
    lemma_run_add(g1_map(), (10 - b) as nat, n, 0x3ff);
}

/// States ahead are states after steps.
proof fn lemma_ahead(d: u32, x: u32)
    requires
        d < 10,
        x < 1024,
    ensures
        ahead(d, x) == run(g1_map(), d as nat, x),
    decreases d,
{
    if d == 0 {
        assert(ahead(0, x) == x) by (bit_vector)
            requires
                x < 1024,
        ;
    } else {
        let before = (d - 1) as u32;
        lemma_ahead(before, x);
        let z = ahead(before, x);
        assert(ahead(d, x) == g1_step(z)) by (bit_vector)
            requires
                x < 1024,
                0 < d < 10,
                before == d - 1,
                z == ahead(before, x),
        ;
    }
}

/// The codes are balanced: the chips of each of them add up to -1.
pub proof fn law_codes_are_balanced(prn: int)
    requires
        1 <= prn <= 32,
    ensures
        chip_sum(ca_code(prn)) == -1,
{
    let a = G2_TAPS@[prn - 1].0 as u32;
    let b = G2_TAPS@[prn - 1].1 as u32;
    let f = |x: int| chip_of_state(a, b, x as u32);
    let r = lemma_turn(prn);
    let s = |x: int| (x as u32 ^ r) as int;
    lemma_shift_permutes(r);
    lemma_stage_choice(prn);
    assert forall|x: int| 0 <= x < 1024 implies f(#[trigger] s(x)) == !f(x) by {
        assert(0 <= s(x) < 1024);
        lemma_turned_chip(a, b, r, x as u32);
    }
    lemma_turned_over(f, s, 1024);
    lemma_period_sum(f);
    lemma_chip_sum(prn, 1023);
    lemma_zero_state(a, b);
    assert(ca_code(prn).take(1023) =~= ca_code(prn));
}

/// Without a one in the register there is no one in the chip.
proof fn lemma_zero_state(a: u32, b: u32)
    requires
        1 <= a <= 10,
        1 <= b <= 10,
    ensures
        !chip_of_state(a, b, 0),
{
    let c = (10 - a) as u32;
    let d = (10 - b) as u32;
    assert(ahead(c, 0) == 0 && ahead(d, 0) == 0) by (bit_vector);
    assert(!quad(0) && !lit(0, 9)) by (bit_vector);
}

/// The first chips of a code add up as the signs of their bits.
proof fn lemma_chip_sum(prn: int, m: int)
    requires
        1 <= prn <= 32,
        0 <= m <= 1023,
    ensures
        chip_sum(ca_code(prn).take(m)) == sign_sum(
            |t: int|
                (|x: int|
                    chip_of_state(
                        G2_TAPS@[prn - 1].0 as u32,
                        G2_TAPS@[prn - 1].1 as u32,
                        x as u32,
                    ))(g1_word(t as nat) as int),
            m,
        ),
    decreases m,
{
    if m > 0 {
        lemma_chip_sum(prn, m - 1);
        lemma_code_bit_of_state(prn, (m - 1) as nat);
        assert(ca_code(prn).take(m).drop_last() =~= ca_code(prn).take(m - 1));
    }
}

} // verus!
