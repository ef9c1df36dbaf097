//! Fixed-width binary numerals: the link between code numbers and their bits.
use crate::bits::{
    bit_at, bits_from, lemma_shifted_right, lemma_word_by_bits, lemma_zero_word, word_bit,
};
use vstd::arithmetic::power2::{lemma_pow2_unfold, pow2};
use vstd::prelude::*;

verus! {

/// The number of binary digits of `n`: zero for zero, else one more than the
/// position of its highest set bit.
pub open spec fn bit_length(n: nat) -> nat
    decreases n,
{
    if n == 0 {
        0
    } else {
        1 + bit_length(n / 2)
    }
}

/// The lowest `w` binary digits of `v`, most significant first.
pub open spec fn numeral(v: nat, w: nat) -> Seq<bool>
    decreases w,
{
    if w == 0 {
        Seq::empty()
    } else {
        numeral(v / 2, (w - 1) as nat).push(v % 2 == 1)
    }
}

/// The number that a run of binary digits spells, most significant first.
pub open spec fn bits_value(bits: Seq<bool>) -> nat
    decreases bits.len(),
{
    if bits.len() == 0 {
        0
    } else {
        2 * bits_value(bits.drop_last()) + if bits.last() {
            1nat
        } else {
            0nat
        }
    }
}

/// `v` can be written with `w` binary digits.
pub open spec fn fits(v: nat, w: nat) -> bool
    decreases w,
{
    if w == 0 {
        v == 0
    } else {
        fits(v / 2, (w - 1) as nat)
    }
}

/// A numeral of width `w` has `w` digits.
pub proof fn lemma_numeral_len(v: nat, w: nat)
    ensures
        numeral(v, w).len() == w,
    decreases w,
{
    if w > 0 {
        lemma_numeral_len(v / 2, (w - 1) as nat);
    }
}

/// A number that fits its width is the value of its numeral.
pub proof fn lemma_value_of_numeral(v: nat, w: nat)
    requires
        fits(v, w),
    ensures
        bits_value(numeral(v, w)) == v,
    decreases w,
{
    if w > 0 {
        lemma_value_of_numeral(v / 2, (w - 1) as nat);
        lemma_numeral_len(v / 2, (w - 1) as nat);
        let s = numeral(v, w);
        assert(s.drop_last() =~= numeral(v / 2, (w - 1) as nat));
    }
}

/// A number fits its own bit length.
pub proof fn lemma_fits_bit_length(v: nat)
    ensures
        fits(v, bit_length(v)),
    decreases v,
{
    if v > 0 {
        lemma_fits_bit_length(v / 2);
    }
}

/// What fits a width fits every larger width, and so does every smaller number.
pub proof fn lemma_fits_monotone(v: nat, u: nat, w: nat, x: nat)
    requires
        fits(u, w),
        v <= u,
        w <= x,
    ensures
        fits(v, x),
    decreases x,
{
    if x == 0 {
    } else if w == 0 {
        lemma_fits_monotone(v / 2, 0, 0, (x - 1) as nat);
    } else {
        lemma_fits_monotone(v / 2, u / 2, (w - 1) as nat, (x - 1) as nat);
    }
}

/// A positive number lies between the two powers of two that its bit length names.
pub proof fn lemma_bit_length_bounds(n: nat)
    requires
        n >= 1,
    ensures
        bit_length(n) >= 1,
        pow2((bit_length(n) - 1) as nat) <= n < pow2(bit_length(n)),
    decreases n,
{
    if n == 1 {
        assert(bit_length(1) == 1) by {
            assert(bit_length(0) == 0);
        }
        vstd::arithmetic::power2::lemma2_to64();
    } else {
        lemma_bit_length_bounds(n / 2);
        lemma_pow2_unfold(bit_length(n));
        lemma_pow2_unfold((bit_length(n) - 1) as nat);
    }
}

/// A number below a power of two has at most that power's exponent as bit length.
pub proof fn lemma_bit_length_below(n: nat, k: nat)
    requires
        n < pow2(k),
    ensures
        bit_length(n) <= k,
    decreases k,
{
    if n > 0 {
        if k == 0 {
            vstd::arithmetic::power2::lemma2_to64();
        } else {
            lemma_pow2_unfold(k);
            lemma_bit_length_below(n / 2, (k - 1) as nat);
        }
    }
}

/// Halving a word moves every bit one position toward the end; the last bit
/// tells whether the word is odd.
pub proof fn lemma_half_word(x: u64, k: u64)
    by (bit_vector)
    requires
        k < 63,
    ensures
        bit_at(x >> 1, (k + 1) as u64) == bit_at(x, k),
        x >> 1 == x / 2,
        bit_at(x, 63) == (x % 2 == 1),
{
}

/// The last `w` bits of a word are the numeral of that word at width `w`.
pub proof fn lemma_low_bits_numeral(x: u64, w: nat)
    requires
        w <= 64,
    ensures
        bits_from(seq![x], 64 - w, w) == numeral(x as nat, w),
    decreases w,
{
    if w == 0 {
        assert(bits_from(seq![x], 64 - w, w) =~= numeral(x as nat, w));
    } else {
        let h: u64 = x >> 1;
        lemma_low_bits_numeral(h, (w - 1) as nat);
        lemma_numeral_len(h as nat, (w - 1) as nat);
        lemma_half_word(x, 0);
        let whole = bits_from(seq![x], 64 - w, w);
        let shorter = bits_from(seq![h], 65 - w, (w - 1) as nat);
        assert forall|i: int| 0 <= i < w - 1 implies whole[i] == shorter[i] by {
            lemma_half_word(x, (64 - w + i) as u64);
            assert(word_bit(seq![x], 64 - w + i) == bit_at(x, (64 - w + i) as u64));
            assert(word_bit(seq![h], 65 - w + i) == bit_at(h, (65 - w + i) as u64));
        }
        assert(whole[w - 1] == bit_at(x, 63));
        assert(whole =~= shorter.push(x % 2 == 1));
    }
}

/// A word with no bit set ahead of its last `w` bits fits `w` binary digits.
pub proof fn lemma_word_fits(x: u64, w: nat)
    requires
        w <= 64,
        forall|k: u64| k < 64 - w ==> !#[trigger] bit_at(x, k),
    ensures
        fits(x as nat, w),
    decreases w,
{
    if w == 0 {
        assert forall|k: u64| k < 64 implies !#[trigger] bit_at(0u64, k) by {
            lemma_zero_word(k);
        }
        lemma_word_by_bits(x, 0u64);
    } else {
        let h: u64 = x >> 1;
        lemma_half_word(x, 0);
        assert forall|k: u64| k < 65 - w implies !#[trigger] bit_at(h, k) by {
            lemma_shifted_right(x, 1, k);
        }
        lemma_word_fits(h, (w - 1) as nat);
    }
}

/// A right-justified word with nothing ahead of its last `w` bits is the
/// value that those bits spell.
pub proof fn lemma_word_value(x: u64, w: nat)
    requires
        w <= 64,
        forall|k: u64| k < 64 - w ==> !#[trigger] bit_at(x, k),
    ensures
        bits_value(bits_from(seq![x], 64 - w, w)) == x,
{
    lemma_low_bits_numeral(x, w);
    lemma_word_fits(x, w);
    lemma_value_of_numeral(x as nat, w);
}

/// The bit length of `n`.
pub fn bit_length_of(n: usize) -> (r: usize)
    ensures
        r == bit_length(n as nat),
        r <= 64,
{
    let mut rest: usize = n;
    let mut r: usize = 0;
    proof {
        vstd::arithmetic::power2::lemma2_to64();
        vstd::arithmetic::power2::lemma2_to64_rest();
        lemma_bit_length_below(n as nat, 64);
    }
    while rest > 0
        invariant
            bit_length(n as nat) == r + bit_length(rest as nat),
            r + bit_length(rest as nat) <= 64,
        decreases rest,
    {
        rest = rest / 2;
        r += 1;
    }
    r
}

} // verus!
