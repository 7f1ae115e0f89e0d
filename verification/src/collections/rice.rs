//! The Rice code and the capped code as runs of bits, what a decoder reads
//! at the cursor of a stream, and the laws that tie writing to reading.

use crate::collections::bits::{bits_of, lemma_value_of_bits_of, ones, popcount};
use crate::collections::bitstream::BitStreamView;
use vstd::arithmetic::div_mod::{
    lemma_div_is_ordered_by_denominator, lemma_fundamental_div_mod, lemma_small_mod,
};
use vstd::arithmetic::power2::{lemma2_to64, lemma_pow2_pos, lemma_pow2_strictly_increases, pow2};
use vstd::prelude::*;

verus! {

/// The absolute value of `e`.
pub open spec fn magnitude(e: int) -> nat {
    if e < 0 {
        (-e) as nat
    } else {
        e as nat
    }
}

/// The Rice code of `e` for the divisor two to the `k`: the sign bit (set for
/// a negative `e`), the quotient of the magnitude in unary (that many set
/// bits and one clear bit), and the remainder in `k` bits.
pub open spec fn rice_code(k: nat, e: int) -> Seq<bool> {
    seq![e < 0] + ones(magnitude(e) / pow2(k)) + seq![false] + bits_of(magnitude(e) % pow2(k), k)
}

/// The exponent that stands for `divisor`: the number of set binary digits
/// of `divisor - 1`, which is `k` for the divisor two to the `k`.
pub open spec fn divisor_exponent(divisor: int) -> nat {
    popcount((divisor - 1) as nat)
}

/// The number of bits of a value stored without a Rice code.
pub open spec fn capped_bits() -> nat {
    14
}

/// `value` kept within what `capped_bits()` bits can hold with a sign.
pub open spec fn capped_clamp(value: int) -> int {
    if value < -8192 {
        -8192
    } else if value > 8191 {
        8191
    } else {
        value
    }
}

/// The capped code of `value`: a clear bit and the Rice code where the
/// quotient of the magnitude by `divisor` is below 16, else a set bit and the
/// clamped value in `capped_bits()` bits, two's complement.
pub open spec fn capped_code(divisor: int, value: int) -> Seq<bool> {
    if magnitude(value) / (divisor as nat) < 16 {
        seq![false] + rice_code(divisor_exponent(divisor), value)
    } else {
        seq![true] + bits_of((capped_clamp(value) + 16384) as nat, capped_bits())
    }
}

/// The number of set bits in a row from place `from` of `bits` on.
pub open spec fn run_of_ones(bits: Seq<bool>, from: nat) -> nat
    decreases bits.len() - from,
{
    if from < bits.len() && bits[from as int] {
        1 + run_of_ones(bits, from + 1)
    } else {
        0
    }
}

/// The largest magnitude that a decoded value can have.
pub open spec fn max_magnitude() -> nat {
    32767
}

/// One fixed-width field of a stream: a value and the number of bits it is
/// written in.
pub struct BitField {
    pub value: nat,
    pub width: nat,
}

impl BitStreamView {
    /// The number of set bits in a row from place `from` on.
    pub open spec fn ones_run(self, from: nat) -> nat {
        run_of_ones(self.bits, from)
    }

    /// The quotient of the Rice code at the cursor: the number of set bits
    /// that follow the sign bit.
    pub open spec fn rice_quotient(self) -> nat {
        self.ones_run(self.cursor + 1)
    }

    /// The number of bits that the Rice code at the cursor takes.
    pub open spec fn rice_len(self, k: nat) -> nat {
        self.rice_quotient() + 2 + k
    }

    /// The magnitude that the Rice code at the cursor spells: the quotient
    /// times the divisor, plus the remainder.
    pub open spec fn rice_magnitude(self, k: nat) -> nat {
        self.rice_quotient() * pow2(k) + self.seek(self.cursor + 2 + self.rice_quotient()).peek(k)
    }

    /// The value that the Rice code at the cursor decodes to. A magnitude
    /// above `max_magnitude()` counts as `max_magnitude()`.
    pub open spec fn rice_value(self, k: nat) -> int {
        let m = if self.rice_magnitude(k) > max_magnitude() {
            max_magnitude()
        } else {
            self.rice_magnitude(k)
        };
        if self.bit(self.cursor as int) {
            -(m as int)
        } else {
            m as int
        }
    }

    /// The value that the capped code at the cursor decodes to.
    pub open spec fn capped_value(self, divisor: int) -> int {
        let body = self.advance(1);
        if self.bit(self.cursor as int) {
            let raw = body.peek(capped_bits());
            if raw >= 8192 {
                raw - 16384
            } else {
                raw as int
            }
        } else {
            body.rice_value(divisor_exponent(divisor))
        }
    }

    /// The number of bits that the capped code at the cursor takes.
    pub open spec fn capped_len(self, divisor: int) -> nat {
        if self.bit(self.cursor as int) {
            1 + capped_bits()
        } else {
            1 + self.advance(1).rice_len(divisor_exponent(divisor))
        }
    }

    /// The stream after each field of `fields` was written in turn.
    pub open spec fn write_all(self, fields: Seq<BitField>) -> BitStreamView
        decreases fields.len(),
    {
        if fields.len() == 0 {
            self
        } else {
            self.write(fields[0].value, fields[0].width).write_all(fields.drop_first())
        }
    }

    /// The numbers that reading fields of the widths `widths` in turn gives.
    pub open spec fn read_all(self, widths: Seq<nat>) -> Seq<nat>
        decreases widths.len(),
    {
        if widths.len() == 0 {
            Seq::empty()
        } else {
            seq![self.peek(widths[0])] + self.advance(widths[0]).read_all(widths.drop_first())
        }
    }
}

/// The widths of `fields`, in order.
pub open spec fn widths_of(fields: Seq<BitField>) -> Seq<nat> {
    Seq::new(fields.len(), |i: int| fields[i].width)
}

/// The values of `fields`, in order.
pub open spec fn values_of(fields: Seq<BitField>) -> Seq<nat> {
    Seq::new(fields.len(), |i: int| fields[i].value)
}

/// What was written at the cursor stands there.
pub proof fn lemma_write_seq_window(v: BitStreamView, s: Seq<bool>)
    ensures
        v.write_seq(s).seek(v.cursor).window(s.len()) == s,
{
    assert(v.write_seq(s).seek(v.cursor).window(s.len()) =~= s);
}

/// A number written in `n` bits reads back from the same place as the number
/// modulo two to the `n`.
pub proof fn lemma_write_peek(v: BitStreamView, value: nat, n: nat)
    ensures
        v.write(value, n).seek(v.cursor).peek(n) == value % pow2(n),
{
    lemma_write_seq_window(v, bits_of(value, n));
    lemma_value_of_bits_of(value, n);
}

/// Writing `a` and then `b` is writing `a` followed by `b`.
pub proof fn lemma_write_seq_concat(v: BitStreamView, a: Seq<bool>, b: Seq<bool>)
    ensures
        v.write_seq(a).write_seq(b) == v.write_seq(a + b),
{
    assert(v.write_seq(a).write_seq(b).bits =~= v.write_seq(a + b).bits);
}

/// A run of set bits ends at the high-water mark at the latest.
pub proof fn lemma_ones_run_bound(v: BitStreamView, from: nat)
    ensures
        from + v.ones_run(from) <= if from > v.bits.len() {
            from
        } else {
            v.bits.len()
        },
    decreases v.bits.len() - from,
{
    if v.bit(from as int) {
        lemma_ones_run_bound(v, from + 1);
    }
}

/// Where `n` set bits stand from a place on, the run from that place is `n`
/// longer than the run behind them.
pub proof fn lemma_ones_run_skip(v: BitStreamView, from: nat, n: nat)
    requires
        forall|i: int| from <= i < from + n ==> v.bit(i),
    ensures
        v.ones_run(from) == n + v.ones_run(from + n),
    decreases n,
{
    if n > 0 {
        assert(v.bit(from as int));
        lemma_ones_run_skip(v, from + 1, (n - 1) as nat);
    }
}

/// Where the run of set bits from a place on is at least `n` long, the `n`
/// bits from that place on are set.
pub proof fn lemma_ones_run_covers(v: BitStreamView, from: nat, n: nat)
    requires
        v.ones_run(from) >= n,
    ensures
        forall|i: int| from <= i < from + n ==> v.bit(i),
    decreases n,
{
    if n > 0 {
        assert(v.bit(from as int));
        lemma_ones_run_covers(v, from + 1, (n - 1) as nat);
    }
}

/// The Rice code has one sign bit, the unary quotient with its end mark, and
/// `k` bits of remainder.
pub proof fn lemma_rice_code_len(k: nat, e: int)
    ensures
        rice_code(k, e).len() == magnitude(e) / pow2(k) + 2 + k,
{
    lemma_pow2_pos(k);
}

/// A value written as a Rice code and decoded from the same place with the
/// same exponent comes back unchanged, and the decoder takes exactly the bits
/// that were written.
pub proof fn lemma_rice_round_trip(v: BitStreamView, k: nat, e: int)
    requires
        magnitude(e) <= max_magnitude(),
    ensures
        v.write_seq(rice_code(k, e)).seek(v.cursor).rice_value(k) == e,
        v.write_seq(rice_code(k, e)).seek(v.cursor).rice_len(k) == rice_code(k, e).len(),
{
    let code = rice_code(k, e);
    let m = magnitude(e);
    let q = m / pow2(k);
    let r = m % pow2(k);
    let c = v.cursor;
    let w = v.write_seq(code).seek(c);
    lemma_pow2_pos(k);
    assert forall|i: int| c <= i < c + code.len() implies w.bit(i) == code[i - c] by {}
    assert(w.bit(c as int) == (e < 0)) by {
        assert(code[0] == (e < 0));
    }
    assert forall|i: int| c + 1 <= i < c + 1 + q implies w.bit(i) by {
        assert(code[i - c]);
    }
    lemma_ones_run_skip(w, c + 1, q);
    assert(!w.bit(c + 1 + q as int)) by {
        assert(!code[1 + q as int]);
    }
    assert(w.ones_run(c + 1 + q) == 0);
    assert(w.rice_quotient() == q);
    let tail = w.seek(c + 2 + q);
    assert(tail.window(k) =~= bits_of(r, k)) by {
        assert forall|j: int| 0 <= j < k implies tail.window(k)[j] == bits_of(r, k)[j] by {
            assert(w.bit(c + 2 + q + j) == code[2 + q + j]);
        }
    }
    lemma_value_of_bits_of(r, k);
    lemma_small_mod(r, pow2(k));
    lemma_fundamental_div_mod(m as int, pow2(k) as int);
    assert(q * pow2(k) == pow2(k) * q) by (nonlinear_arith);
    assert(w.rice_magnitude(k) == m);
}

/// Bits below the cursor stay as they are when fields are written, and the
/// cursor does not move back.
pub proof fn lemma_write_all_keeps_prefix(v: BitStreamView, fields: Seq<BitField>)
    ensures
        v.write_all(fields).cursor >= v.cursor,
        forall|i: int| i < v.cursor ==> v.write_all(fields).bit(i) == v.bit(i),
    decreases fields.len(),
{
    if fields.len() > 0 {
        let next = v.write(fields[0].value, fields[0].width);
        lemma_write_all_keeps_prefix(next, fields.drop_first());
        assert forall|i: int| i < v.cursor implies v.write_all(fields).bit(i) == v.bit(i) by {
            assert(next.bit(i) == v.bit(i));
        }
    }
}

/// Any number of fields, each value fitting its width, written one after the
/// other and read back from where the first was written with the same widths
/// in the same order, come back as the values that were written.
pub proof fn lemma_write_all_read_all(v: BitStreamView, fields: Seq<BitField>)
    requires
        forall|i: int| 0 <= i < fields.len() ==> fields[i].value < pow2(fields[i].width),
    ensures
        v.write_all(fields).seek(v.cursor).read_all(widths_of(fields)) == values_of(fields),
    decreases fields.len(),
{
    let widths = widths_of(fields);
    let done = v.write_all(fields);
    if fields.len() == 0 {
        assert(done.seek(v.cursor).read_all(widths) =~= values_of(fields));
    } else {
        let first = fields[0];
        let rest = fields.drop_first();
        let next = v.write(first.value, first.width);
        lemma_write_all_keeps_prefix(next, rest);
        let read = done.seek(v.cursor).window(first.width);
        let written = next.seek(v.cursor).window(first.width);
        assert forall|j: int| 0 <= j < first.width implies read[j] == written[j] by {
            assert(done.bit(v.cursor + j) == next.bit(v.cursor + j));
        }
        assert(read =~= written);
        lemma_write_peek(v, first.value, first.width);
        lemma_small_mod(first.value, pow2(first.width));
        assert forall|i: int| 0 <= i < rest.len() implies rest[i].value < pow2(rest[i].width) by {
            assert(rest[i] == fields[i + 1]);
        }
        lemma_write_all_read_all(next, rest);
        assert(widths.drop_first() =~= widths_of(rest));
        assert(done.seek(v.cursor).advance(first.width) == done.seek(next.cursor));
        assert(values_of(fields) =~= seq![first.value] + values_of(rest));
    }
}

/// A value written as a capped code and decoded from the same place with the
/// same divisor comes back unchanged, provided that it is stored as a Rice
/// code or lies within what the capped form can hold.
pub proof fn lemma_capped_round_trip(v: BitStreamView, divisor: int, value: int)
    requires
        divisor >= 2,
        magnitude(value) <= max_magnitude(),
        magnitude(value) / (divisor as nat) < 16 || -8192 <= value <= 8191,
    ensures
        v.write_seq(capped_code(divisor, value)).seek(v.cursor).capped_value(divisor) == value,
        v.write_seq(capped_code(divisor, value)).seek(v.cursor).capped_len(divisor)
            == capped_code(divisor, value).len(),
{
    let code = capped_code(divisor, value);
    let c = v.cursor;
    let w = v.write_seq(code).seek(c);
    assert(w.bit(c as int) == code[0]);
    if magnitude(value) / (divisor as nat) < 16 {
        let k = divisor_exponent(divisor);
        let flagged = v.write_seq(seq![false]);
        lemma_write_seq_concat(v, seq![false], rice_code(k, value));
        lemma_rice_round_trip(flagged, k, value);
        assert(w.advance(1) == flagged.write_seq(rice_code(k, value)).seek(flagged.cursor));
    } else {
        let raw = (value + 16384) as nat;
        let flagged = v.write_seq(seq![true]);
        lemma_write_seq_concat(v, seq![true], bits_of(raw, 14));
        lemma_write_peek(flagged, raw, 14);
        assert(w.advance(1) == flagged.write(raw, 14).seek(flagged.cursor));
        assert(pow2(14) == 16384) by {
            lemma2_to64();
        }
    }
}

/// The Rice code at the cursor ends at most `k + 1` bits behind the
/// high-water mark, or behind the bit after the cursor where that lies
/// higher.
pub proof fn lemma_rice_len_bound(v: BitStreamView, k: nat)
    ensures
        v.cursor + v.rice_len(k) <= k + 1 + if v.cursor + 1 > v.bits.len() {
            v.cursor + 1
        } else {
            v.bits.len()
        },
{
    lemma_ones_run_bound(v, v.cursor + 1);
}

/// The Rice code of a value takes at most as many bits as its magnitude
/// halved, and three more, where the remainder has one bit; a larger
/// exponent makes the unary part no longer.
pub proof fn lemma_rice_code_len_bound(k: nat, e: int)
    requires
        k >= 1,
    ensures
        rice_code(k, e).len() <= magnitude(e) / 2 + 2 + k,
{
    lemma_pow2_pos(k);
    lemma2_to64();
    if k > 1 {
        lemma_pow2_strictly_increases(1, k);
    }
    lemma_div_is_ordered_by_denominator(magnitude(e) as int, 2, pow2(k) as int);
}

/// The run of set bits from a place on is the same in two streams that
/// agree on every bit from that place on.
pub proof fn lemma_ones_run_same_bits(v: BitStreamView, w: BitStreamView, from: nat)
    requires
        forall|i: int| from <= i ==> v.bit(i) == w.bit(i),
    ensures
        v.ones_run(from) == w.ones_run(from),
    decreases
            (if v.bits.len() > w.bits.len() {
                v.bits.len()
            } else {
                w.bits.len()
            }) - from,
{
    assert(v.bit(from as int) == w.bit(from as int));
    if v.bit(from as int) {
        lemma_ones_run_same_bits(v, w, from + 1);
    }
}

/// Whether the bits of `code` stand in `stream` from the cursor on.
pub open spec fn holds_at(stream: BitStreamView, code: Seq<bool>) -> bool {
    forall|i: int| 0 <= i < code.len() ==> #[trigger] code[i] == stream.bit(stream.cursor + i)
}

/// Where the Rice code of a value stands at the cursor, the decoder reads
/// the value and takes exactly the bits of the code.
pub proof fn lemma_rice_decode(w: BitStreamView, k: nat, e: int)
    requires
        magnitude(e) <= max_magnitude(),
        holds_at(w, rice_code(k, e)),
    ensures
        w.rice_value(k) == e,
        w.rice_len(k) == rice_code(k, e).len(),
{
    let code = rice_code(k, e);
    let x = w.write_seq(code).seek(w.cursor);
    lemma_rice_round_trip(w, k, e);
    assert forall|i: int| x.bit(i) == w.bit(i) by {
        if w.cursor <= i < w.cursor + code.len() {
            assert(code[i - w.cursor] == w.bit(w.cursor + (i - w.cursor)));
        }
    }
    lemma_ones_run_same_bits(x, w, w.cursor + 1);
    let q = w.rice_quotient();
    assert(x.seek(x.cursor + 2 + q).window(k) =~= w.seek(w.cursor + 2 + q).window(k));
}

} // verus!
