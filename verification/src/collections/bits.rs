//! Bits of words and of numbers: what the shifts and masks of the bit
//! stream do to single bits, and how bits spell numbers.

use vstd::arithmetic::div_mod::{lemma_mod_breakdown, lemma_small_mod};
use vstd::arithmetic::power2::{lemma2_to64, lemma_pow2_adds, lemma_pow2_pos, lemma_pow2_unfold, pow2};
use vstd::bits::lemma_u128_shr_is_div;
use vstd::prelude::*;

verus! {

/// Bit `j` of the number `v`, counted from the least significant end.
pub open spec fn nth_bit(v: nat, j: nat) -> bool {
    (v / pow2(j)) % 2 == 1
}

/// The low `n` bits of `v`, least significant first.
pub open spec fn bits_of(v: nat, n: nat) -> Seq<bool> {
    Seq::new(n, |j: int| nth_bit(v, j as nat))
}

/// The number whose binary digits are `bits`, least significant first.
pub open spec fn value_of(bits: Seq<bool>) -> nat
    decreases bits.len(),
{
    if bits.len() == 0 {
        0
    } else {
        value_of(bits.drop_last()) + if bits.last() {
            pow2((bits.len() - 1) as nat)
        } else {
            0
        }
    }
}

/// Bit `i` of the word `w`, counted from the least significant end.
pub open spec fn word_bit(w: u128, i: u128) -> bool {
    (w >> i) & 1 == 1
}

/// The mask that keeps the low `n` bits of a word.
pub open spec fn low_mask(n: u128) -> u128 {
    if n >= 128 {
        !0u128
    } else {
        ((1u128 << n) - 1) as u128
    }
}

/// The word `w` with `n` bits of `v` laid over it from bit `idx` upwards.
pub open spec fn splice_low(w: u128, v: u128, n: u128, idx: u128) -> u128 {
    (w & !(low_mask(n) << idx)) | ((v & low_mask(n)) << idx)
}

/// The word `w` with the part of an `n`-bit value `v` that did not fit into
/// the `rem` bits left in the word before it laid over its low end.
pub open spec fn splice_high(w: u128, v: u128, n: u128, rem: u128) -> u128 {
    (w & !(low_mask(n) >> rem)) | ((v & low_mask(n)) >> rem)
}

/// The `n` bits that start at bit `idx` of `w0` and run on into `w1`.
pub open spec fn window(w0: u128, w1: u128, n: u128, idx: u128) -> u128 {
    if idx == 0 {
        w0 & low_mask(n)
    } else {
        ((w0 >> idx) | (w1 << ((128 - idx) as u128))) & low_mask(n)
    }
}

/// A bit of `a | b` is set where it is set in `a` or in `b`.
pub proof fn lemma_bit_or(a: u128, b: u128, j: u128)
    by (bit_vector)
    requires
        j < 128,
    ensures
        word_bit(a | b, j) == (word_bit(a, j) || word_bit(b, j)),
{
}

/// A bit of `a & b` is set where it is set in `a` and in `b`.
pub proof fn lemma_bit_and(a: u128, b: u128, j: u128)
    by (bit_vector)
    requires
        j < 128,
    ensures
        word_bit(a & b, j) == (word_bit(a, j) && word_bit(b, j)),
{
}

/// A bit of `!a` is set where it is clear in `a`.
pub proof fn lemma_bit_not(a: u128, j: u128)
    by (bit_vector)
    requires
        j < 128,
    ensures
        word_bit(!a, j) == !word_bit(a, j),
{
}

/// Bit `j` of `a << s` is bit `j - s` of `a`, and clear below bit `s`.
#[verifier::rlimit(40)]
pub proof fn lemma_bit_shl(a: u128, s: u128, j: u128)
    by (bit_vector)
    requires
        s < 128,
        j < 128,
    ensures
        word_bit(a << s, j) == (j >= s && word_bit(a, (j - s) as u128)),
{
}

/// Bit `j` of `a >> s` is bit `j + s` of `a`, and clear where `a` has no
/// such bit.
#[verifier::rlimit(40)]
pub proof fn lemma_bit_shr(a: u128, s: u128, j: u128)
    by (bit_vector)
    requires
        s < 128,
        j < 128,
    ensures
        word_bit(a >> s, j) == (j + s < 128 && word_bit(a, (j + s) as u128)),
{
}

/// The mask of the low `n` bits has exactly the bits below `n` set.
#[verifier::rlimit(40)]
pub proof fn lemma_bit_low_mask(n: u128, j: u128)
    by (bit_vector)
    requires
        n <= 128,
        j < 128,
    ensures
        word_bit(low_mask(n), j) == (j < n),
{
}

/// Each bit of `splice_low(w, v, n, idx)` comes from `v` inside the range laid
/// over and from `w` outside it.
pub proof fn lemma_splice_low_bit(w: u128, v: u128, n: u128, idx: u128, j: u128)
    requires
        n <= 128,
        idx < 128,
        j < 128,
    ensures
        word_bit(splice_low(w, v, n, idx), j) == (if idx <= j && j - idx < n {
            word_bit(v, (j - idx) as u128)
        } else {
            word_bit(w, j)
        }),
{
    let m = low_mask(n);
    lemma_bit_or(w & !(m << idx), (v & m) << idx, j);
    lemma_bit_and(w, !(m << idx), j);
    lemma_bit_not(m << idx, j);
    lemma_bit_shl(m, idx, j);
    lemma_bit_shl(v & m, idx, j);
    if idx <= j {
        lemma_bit_low_mask(n, (j - idx) as u128);
        lemma_bit_and(v, m, (j - idx) as u128);
    }
}

/// Each bit of `splice_high(w, v, n, rem)` comes from the upper part of `v`
/// where that part reaches and from `w` above it.
pub proof fn lemma_splice_high_bit(w: u128, v: u128, n: u128, rem: u128, j: u128)
    requires
        n <= 128,
        0 < rem < 128,
        j < 128,
    ensures
        word_bit(splice_high(w, v, n, rem), j) == (if j + rem < n {
            word_bit(v, (j + rem) as u128)
        } else {
            word_bit(w, j)
        }),
{
    let m = low_mask(n);
    lemma_bit_or(w & !(m >> rem), (v & m) >> rem, j);
    lemma_bit_and(w, !(m >> rem), j);
    lemma_bit_not(m >> rem, j);
    lemma_bit_shr(m, rem, j);
    lemma_bit_shr(v & m, rem, j);
    if j + rem < 128 {
        lemma_bit_low_mask(n, (j + rem) as u128);
        lemma_bit_and(v, m, (j + rem) as u128);
    }
}

/// Each of the low `n` bits of `window(w0, w1, n, idx)` is the bit that lies
/// `idx` places further up in `w0` and `w1` taken together; the others are
/// clear.
pub proof fn lemma_window_bit(w0: u128, w1: u128, n: u128, idx: u128, j: u128)
    requires
        n <= 128,
        idx < 128,
        j < 128,
    ensures
        word_bit(window(w0, w1, n, idx), j) == (if j < n {
            if j + idx < 128 {
                word_bit(w0, (j + idx) as u128)
            } else {
                word_bit(w1, (j + idx - 128) as u128)
            }
        } else {
            false
        }),
{
    let m = low_mask(n);
    lemma_bit_low_mask(n, j);
    if idx == 0 {
        lemma_bit_and(w0, m, j);
    } else {
        let up = (128 - idx) as u128;
        lemma_bit_and((w0 >> idx) | (w1 << up), m, j);
        lemma_bit_or(w0 >> idx, w1 << up, j);
        lemma_bit_shr(w0, idx, j);
        lemma_bit_shl(w1, up, j);
    }
}

/// The bit of a word found by shifting and masking is the binary digit of the
/// number that the word stands for.
pub proof fn lemma_word_bit_is_nth_bit(w: u128, j: u128)
    requires
        j < 128,
    ensures
        word_bit(w, j) == nth_bit(w as nat, j as nat),
{
    lemma_u128_shr_is_div(w, j);
    let s = w >> j;
    assert((s & 1 == 1) == (s % 2 == 1)) by (bit_vector);
}

/// Two to the power 128 is one more than the largest word.
pub proof fn lemma_pow2_128()
    ensures
        pow2(128) == 0x1_0000_0000_0000_0000_0000_0000_0000_0000,
{
    lemma2_to64();
    lemma_pow2_adds(64, 64);
}

/// Reading the low `n` binary digits of a number back as a number gives the
/// number modulo two to the `n`.
pub proof fn lemma_value_of_bits_of(v: nat, n: nat)
    ensures
        value_of(bits_of(v, n)) == v % pow2(n),
    decreases n,
{
    lemma_pow2_pos(n);
    if n == 0 {
        lemma2_to64();
    } else {
        let m = (n - 1) as nat;
        lemma_pow2_pos(m);
        lemma_pow2_unfold(n);
        assert(bits_of(v, n).drop_last() =~= bits_of(v, m));
        lemma_value_of_bits_of(v, m);
        lemma_mod_breakdown(v as int, pow2(m) as int, 2);
        let d = (v / pow2(m)) % 2;
        assert(d == 0 || d == 1);
        assert(pow2(m) * d == if d == 1 { pow2(m) } else { 0 }) by (nonlinear_arith)
            requires
                d == 0 || d == 1,
        ;
    }
}

/// Binary digits that are all clear from some place upwards add nothing to
/// the number.
pub proof fn lemma_value_of_clear_tail(bits: Seq<bool>, n: nat)
    requires
        n <= bits.len(),
        forall|j: int| n <= j < bits.len() ==> !bits[j],
    ensures
        value_of(bits) == value_of(bits.subrange(0, n as int)),
    decreases bits.len(),
{
    if bits.len() == n {
        assert(bits.subrange(0, n as int) =~= bits);
    } else {
        let shorter = bits.drop_last();
        assert(shorter.subrange(0, n as int) =~= bits.subrange(0, n as int));
        lemma_value_of_clear_tail(shorter, n);
    }
}

/// A word whose bits are clear from place `n` upwards is the number that its
/// low `n` bits spell.
pub proof fn lemma_word_is_value_of_low_bits(w: u128, n: nat)
    requires
        n <= 128,
        forall|j: u128| n <= j < 128 ==> !word_bit(w, j),
    ensures
        w as nat == value_of(bits_of(w as nat, n)),
{
    let all = bits_of(w as nat, 128);
    lemma_value_of_bits_of(w as nat, 128);
    lemma_pow2_128();
    lemma_small_mod(w as nat, pow2(128));
    assert forall|j: int| n <= j < all.len() implies !all[j] by {
        lemma_word_bit_is_nth_bit(w, j as u128);
    }
    lemma_value_of_clear_tail(all, n);
    assert(all.subrange(0, n as int) =~= bits_of(w as nat, n));
}

/// The number spelled by `n` binary digits is below two to the `n`.
pub proof fn lemma_value_of_bound(bits: Seq<bool>)
    ensures
        value_of(bits) < pow2(bits.len()),
    decreases bits.len(),
{
    if bits.len() == 0 {
        lemma2_to64();
    } else {
        lemma_value_of_bound(bits.drop_last());
        lemma_pow2_unfold(bits.len());
    }
}

/// A run of `n` set bits.
pub open spec fn ones(n: nat) -> Seq<bool> {
    Seq::new(n, |i: int| true)
}

/// The mask of the low `n` bits is the number that `n` set bits spell.
pub proof fn lemma_low_mask_is_ones(n: u128)
    requires
        n <= 128,
    ensures
        low_mask(n) as nat == value_of(ones(n as nat)),
{
    let m = low_mask(n);
    assert forall|j: u128| n <= j < 128 implies !word_bit(m, j) by {
        lemma_bit_low_mask(n, j);
    }
    lemma_word_is_value_of_low_bits(m, n as nat);
    assert forall|j: int| 0 <= j < n implies bits_of(m as nat, n as nat)[j] by {
        lemma_bit_low_mask(n, j as u128);
        lemma_word_bit_is_nth_bit(m, j as u128);
    }
    assert(bits_of(m as nat, n as nat) =~= ones(n as nat));
}

/// Two runs of binary digits of one length that spell the same number are
/// the same run.
pub proof fn lemma_value_of_injective(a: Seq<bool>, b: Seq<bool>)
    requires
        a.len() == b.len(),
        value_of(a) == value_of(b),
    ensures
        a == b,
    decreases a.len(),
{
    if a.len() > 0 {
        lemma_value_of_bound(a.drop_last());
        lemma_value_of_bound(b.drop_last());
        lemma_value_of_injective(a.drop_last(), b.drop_last());
        assert(a =~= a.drop_last().push(a.last()));
        assert(b =~= b.drop_last().push(b.last()));
    }
    assert(a =~= b);
}

/// The number of set binary digits of `n`.
pub open spec fn popcount(n: nat) -> nat
    decreases n,
{
    if n == 0 {
        0
    } else {
        n % 2 + popcount(n / 2)
    }
}

/// A number below two to the `k` has at most `k` set binary digits, and a
/// number above zero has at least one.
pub proof fn lemma_popcount_bound(n: nat, k: nat)
    requires
        n < pow2(k),
    ensures
        popcount(n) <= k,
        n > 0 ==> popcount(n) >= 1,
    decreases n,
{
    if n > 0 {
        if k == 0 {
            lemma2_to64();
        } else {
            lemma_pow2_unfold(k);
            lemma_popcount_bound(n / 2, (k - 1) as nat);
        }
    }
}

} // verus!
