//! Integers written as bits, most significant bit first.

use vstd::arithmetic::power2::pow2;
use vstd::prelude::*;

verus! {

/// The unsigned number that `bits` is written as.
pub open spec fn bits_value(bits: Seq<bool>) -> nat
    decreases bits.len(),
{
    if bits.len() == 0 {
        0
    } else {
        2 * bits_value(bits.drop_last()) + if bits.last() {
            1nat
        } else {
            0nat
        }
    }
}

/// The two's complement number that `bits` is written as.
pub open spec fn signed_value(bits: Seq<bool>) -> int {
    if bits.len() > 0 && bits[0] {
        bits_value(bits) - pow2(bits.len())
    } else {
        bits_value(bits) as int
    }
}

/// A number of `n` bits is below two to the power of `n`.
pub proof fn lemma_bits_value_bound(bits: Seq<bool>)
    ensures
        bits_value(bits) < pow2(bits.len()),
    decreases bits.len(),
{
    if bits.len() == 0 {
        vstd::arithmetic::power2::lemma2_to64();
    } else {
        lemma_bits_value_bound(bits.drop_last());
        vstd::arithmetic::power2::lemma_pow2_unfold(bits.len());
    }
}

/// The leading bit stands for the upper half of the range.
pub proof fn lemma_leading_bit(bits: Seq<bool>)
    requires
        bits.len() > 0,
    ensures
        bits[0] <==> bits_value(bits) >= pow2((bits.len() - 1) as nat),
    decreases bits.len(),
{
    if bits.len() == 1 {
        vstd::arithmetic::power2::lemma2_to64();
        assert(bits.drop_last().len() == 0);
        assert(bits_value(bits.drop_last()) == 0);
    } else {
        lemma_leading_bit(bits.drop_last());
        lemma_bits_value_bound(bits.drop_last());
        vstd::arithmetic::power2::lemma_pow2_unfold((bits.len() - 1) as nat);
    }
}

/// A signed field of `n` bits lies within the range of `n`-bit two's complement.
pub proof fn lemma_signed_value_bound(bits: Seq<bool>)
    requires
        bits.len() > 0,
    ensures
        -(pow2((bits.len() - 1) as nat) as int) <= signed_value(bits) < pow2(
            (bits.len() - 1) as nat,
        ),
{
    lemma_bits_value_bound(bits);
    lemma_leading_bit(bits);
    vstd::arithmetic::power2::lemma_pow2_unfold(bits.len());
}

proof fn lemma_append_bit_mod(v: int, bit: int)
    ensures
        (2 * (v % 0x1_0000_0000) + bit) % 0x1_0000_0000 == (2 * v + bit) % 0x1_0000_0000,
{
    let q = v / 0x1_0000_0000;
    let r = v % 0x1_0000_0000;
    vstd::arithmetic::div_mod::lemma_mod_multiples_vanish(2 * q, 2 * r + bit, 0x1_0000_0000);
}

/// The number written as `bits`, most significant bit first. Only the last 32
/// bits count.
pub fn bits_to_u32(bits: &[bool]) -> (value: u32)
    ensures
        value == bits_value(bits@) % 0x1_0000_0000,
        bits@.len() <= 32 ==> value == bits_value(bits@),
{
    let mut acc: u32 = 0;
    let mut i: usize = 0;
    while i < bits.len()
        invariant
            i <= bits@.len(),
            acc == bits_value(bits@.take(i as int)) % 0x1_0000_0000,
        decreases bits@.len() - i,
    {
        let bit: u32 = if bits[i] {
            1
        } else {
            0
        };
        assert(bits@.take(i + 1).drop_last() =~= bits@.take(i as int));
        assert(((acc << 1u32) | bit) == (2 * acc + bit) % 0x1_0000_0000) by (bit_vector)
            requires
                bit <= 1,
        ;
        proof {
            lemma_append_bit_mod(bits_value(bits@.take(i as int)) as int, bit as int);
        }
        acc = (acc << 1) | bit;
        i = i + 1;
    }
    assert(bits@.take(i as int) =~= bits@);
    proof {
        if bits@.len() <= 32 {
            lemma_bits_value_bound(bits@);
            vstd::arithmetic::power2::lemma2_to64();
            if bits@.len() < 32 {
                vstd::arithmetic::power2::lemma_pow2_strictly_increases(bits@.len(), 32);
            }
        }
    }
    acc
}

/// The bits are the binary digits of the number: bit `i` of `n` is one exactly when
/// the number has a one at the place of two to the power of `n - 1 - i`.
pub proof fn law_bits_are_binary_digits(bits: Seq<bool>, i: int)
    requires
        0 <= i < bits.len(),
    ensures
        bits[i] <==> (bits_value(bits) / pow2((bits.len() - 1 - i) as nat)) % 2 == 1,
        bits_value(bits) < pow2(bits.len()),
    decreases bits.len(),
{
    lemma_bits_value_bound(bits);
    let n = bits.len() as int;
    let v = bits_value(bits.drop_last()) as int;
    if i == n - 1 {
        vstd::arithmetic::power2::lemma2_to64();
        assert(bits_value(bits) == 2 * v + if bits[i] {
            1int
        } else {
            0int
        });
        assert(pow2((bits.len() - 1 - i) as nat) == 1);
        vstd::arithmetic::div_mod::lemma_div_basics(bits_value(bits) as int);
    } else {
        law_bits_are_binary_digits(bits.drop_last(), i);
        let k = (n - 2 - i) as nat;
        let p = pow2(k) as int;
        vstd::arithmetic::power2::lemma_pow2_unfold((k + 1) as nat);
        vstd::arithmetic::power2::lemma_pow2_pos(k);
        let x = bits_value(bits) as int;
        assert(x / 2 == v);
        vstd::arithmetic::div_mod::lemma_div_denominator(x, 2, p);
        assert((bits.len() - 1 - i) as nat == (k + 1) as nat);
        assert((bits.drop_last().len() - 1 - i) as nat == k);
        assert(pow2((k + 1) as nat) == 2 * p);
        assert(bits.drop_last()[i] == bits[i]);
    }
}

/// Turning every bit over turns a two's complement number into its opposite less
/// one.
pub proof fn law_signed_value_is_twos_complement(bits: Seq<bool>, turned: Seq<bool>)
    requires
        bits.len() > 0,
        turned.len() == bits.len(),
        forall|i: int| 0 <= i < bits.len() ==> #[trigger] turned[i] == !bits[i],
    ensures
        signed_value(turned) == -signed_value(bits) - 1,
        !bits[0] ==> signed_value(bits) == bits_value(bits),
{
    lemma_turned_bits(bits, turned);
    assert(turned[0] == !bits[0]);
}

proof fn lemma_turned_bits(bits: Seq<bool>, turned: Seq<bool>)
    requires
        turned.len() == bits.len(),
        forall|i: int| 0 <= i < bits.len() ==> #[trigger] turned[i] == !bits[i],
    ensures
        bits_value(bits) + bits_value(turned) + 1 == pow2(bits.len()),
    decreases bits.len(),
{
    if bits.len() == 0 {
        vstd::arithmetic::power2::lemma2_to64();
    } else {
        let a = bits.drop_last();
        let b = turned.drop_last();
        assert forall|i: int| 0 <= i < a.len() implies #[trigger] b[i] == !a[i] by {
            assert(turned[i] == !bits[i]);
        }
        lemma_turned_bits(a, b);
        assert(turned[bits.len() - 1] == !bits[bits.len() - 1]);
        vstd::arithmetic::power2::lemma_pow2_unfold(bits.len());
    }
}

} // verus!
