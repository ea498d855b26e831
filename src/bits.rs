//! The mathematical model of a bit stream: sequences of bits read
//! most-significant first, their numeric values, and the bits that a byte
//! buffer yields.
use vstd::arithmetic::div_mod::*;
use vstd::arithmetic::power2::*;
use vstd::prelude::*;

verus! {

/// The value of a bit sequence read most-significant bit first.
pub open spec fn value_of(s: Seq<bool>) -> nat
    decreases s.len(),
{
    if s.len() == 0 {
        0
    } else {
        2 * value_of(s.drop_last()) + if s.last() {
            1nat
        } else {
            0nat
        }
    }
}

/// The low `m` bits of `v`, most-significant first.
pub open spec fn bit_seq(v: nat, m: nat) -> Seq<bool> {
    Seq::new(m, |i: int| (v / pow2((m - 1 - i) as nat)) % 2 == 1)
}

/// The 16-bit word that two bytes form when read as little-endian.
pub open spec fn le_word(lo: u8, hi: u8) -> nat {
    lo as nat + 256 * hi as nat
}

/// The bits of a byte buffer: each whole pair of bytes is a little-endian
/// word whose bits come most-significant first. A lone trailing byte yields
/// no bits.
pub open spec fn word_stream(b: Seq<u8>) -> Seq<bool>
    decreases b.len(),
{
    if b.len() < 2 {
        Seq::empty()
    } else {
        bit_seq(le_word(b[0], b[1]), 16) + word_stream(b.subrange(2, b.len() as int))
    }
}

/// Fields laid end to end: each `(value, width)` as its low `width` bits,
/// most-significant first.
pub open spec fn pack(fields: Seq<(nat, nat)>) -> Seq<bool>
    decreases fields.len(),
{
    if fields.len() == 0 {
        Seq::empty()
    } else {
        bit_seq(fields[0].0, fields[0].1) + pack(fields.skip(1))
    }
}

/// The values that reading fields of the given widths in turn takes from `s`.
pub open spec fn unpack(s: Seq<bool>, widths: Seq<nat>) -> Seq<nat>
    decreases widths.len(),
{
    if widths.len() == 0 {
        Seq::empty()
    } else {
        seq![value_of(s.take(widths[0] as int))] + unpack(s.skip(widths[0] as int), widths.skip(1))
    }
}

/// Words stored as little-endian byte pairs, in order.
pub open spec fn le_bytes(ws: Seq<u16>) -> Seq<u8>
    decreases ws.len(),
{
    if ws.len() == 0 {
        Seq::empty()
    } else {
        seq![(ws[0] % 256) as u8, (ws[0] / 256) as u8] + le_bytes(ws.skip(1))
    }
}

/// The bits of words in order, each most-significant first.
pub open spec fn word_bits(ws: Seq<u16>) -> Seq<bool>
    decreases ws.len(),
{
    if ws.len() == 0 {
        Seq::empty()
    } else {
        bit_seq(ws[0] as nat, 16) + word_bits(ws.skip(1))
    }
}

proof fn lemma_pow2_split(a: nat, b: nat)
    ensures
        pow2(a + b) == pow2(a) * pow2(b),
        pow2(a) > 0,
        pow2(b) > 0,
{
    lemma_pow2_adds(a, b);
    lemma_pow2_pos(a);
    lemma_pow2_pos(b);
}

/// Dropping `d` and then `e` low bits drops `d + e` of them.
proof fn lemma_shifted_bit(v: nat, d: nat, e: nat)
    ensures
        (v / pow2(d)) / pow2(e) == v / pow2(d + e),
{
    lemma_pow2_split(d, e);
    lemma_div_denominator(v as int, pow2(d) as int, pow2(e) as int);
}

/// The value of `m` bits of `v` is `v` reduced modulo `2^m`.
pub proof fn lemma_value_of_bit_seq(v: nat, m: nat)
    ensures
        value_of(bit_seq(v, m)) == v % pow2(m),
    decreases m,
{
    lemma_pow2_pos(m);
    if m == 0 {
        lemma2_to64();
        assert(bit_seq(v, 0) =~= Seq::empty());
    } else {
        let s = bit_seq(v, m);
        let p = pow2((m - 1) as nat);
        assert(s.drop_last() =~= bit_seq(v / 2, (m - 1) as nat)) by {
            assert forall|i: int| 0 <= i < m - 1 implies #[trigger] s.drop_last()[i] == bit_seq(
                v / 2,
                (m - 1) as nat,
            )[i] by {
                lemma_pow2_unfold(1);
                lemma2_to64();
                lemma_shifted_bit(v, 1, (m - 2 - i) as nat);
                assert(1 + (m - 2 - i) == m - 1 - i);
            }
        }
        lemma2_to64();
        assert(s.last() == ((v / pow2(0)) % 2 == 1));
        assert(v / 1 == v);
        lemma_value_of_bit_seq(v / 2, (m - 1) as nat);
        lemma_pow2_unfold(m);
        lemma_pow2_pos((m - 1) as nat);
        lemma_mod_breakdown(v as int, 2, p as int);
        assert(pow2(m) == 2 * p);
    }
}


/// The first `j` of `m` bits of `v` are the bits of `v` with `m - j` low bits dropped.
pub proof fn lemma_bit_seq_take(v: nat, m: nat, j: nat)
    requires
        j <= m,
    ensures
        bit_seq(v, m).take(j as int) == bit_seq(v / pow2((m - j) as nat), j),
{
    assert forall|i: int| 0 <= i < j implies #[trigger] bit_seq(v, m).take(j as int)[i] == bit_seq(
        v / pow2((m - j) as nat),
        j,
    )[i] by {
        lemma_shifted_bit(v, (m - j) as nat, (j - 1 - i) as nat);
        assert((m - j) + (j - 1 - i) == m - 1 - i);
    }
    assert(bit_seq(v, m).take(j as int) =~= bit_seq(v / pow2((m - j) as nat), j));
}

/// Dropping the first `j` of `m` bits of `v` leaves its low `m - j` bits.
pub proof fn lemma_bit_seq_skip(v: nat, m: nat, j: nat)
    requires
        j <= m,
    ensures
        bit_seq(v, m).skip(j as int) == bit_seq(v, (m - j) as nat),
{
    assert(bit_seq(v, m).skip(j as int) =~= bit_seq(v, (m - j) as nat));
}

/// The value of a concatenation: the first part fills the high positions.
pub proof fn lemma_value_of_append(a: Seq<bool>, b: Seq<bool>)
    ensures
        value_of(a + b) == value_of(a) * pow2(b.len()) + value_of(b),
    decreases b.len(),
{
    if b.len() == 0 {
        lemma2_to64();
        assert(a + b =~= a);
    } else {
        assert((a + b).drop_last() =~= a + b.drop_last());
        assert((a + b).last() == b.last());
        lemma_value_of_append(a, b.drop_last());
        lemma_pow2_unfold(b.len());
        let p = pow2((b.len() - 1) as nat);
        let va = value_of(a);
        assert(2 * (va * p) == va * (2 * p)) by (nonlinear_arith);
    }
}

/// A sequence of `n` bits has a value below `2^n`.
pub proof fn lemma_value_of_bound(s: Seq<bool>)
    ensures
        value_of(s) < pow2(s.len()),
    decreases s.len(),
{
    lemma2_to64();
    if s.len() > 0 {
        lemma_value_of_bound(s.drop_last());
        lemma_pow2_unfold(s.len());
    }
}

/// A bit sequence has value zero exactly when none of its bits is set.
pub proof fn lemma_value_of_zero(s: Seq<bool>)
    ensures
        (value_of(s) == 0) == (forall|i: int| 0 <= i < s.len() ==> !#[trigger] s[i]),
    decreases s.len(),
{
    if s.len() > 0 {
        lemma_value_of_zero(s.drop_last());
        if value_of(s) == 0 {
            assert forall|i: int| 0 <= i < s.len() implies !#[trigger] s[i] by {
                if i < s.len() - 1 {
                    assert(s.drop_last()[i] == s[i]);
                }
            }
        } else {
            if !s.last() {
                let k = choose|i: int| 0 <= i < s.len() - 1 && #[trigger] s.drop_last()[i];
                assert(s[k]);
            }
        }
    }
}

/// Taking a prefix that reaches past the first part of a concatenation.
pub proof fn lemma_take_append(a: Seq<bool>, b: Seq<bool>, k: int)
    requires
        a.len() <= k <= a.len() + b.len(),
    ensures
        (a + b).take(k) == a + b.take(k - a.len()),
        (a + b).skip(k) == b.skip(k - a.len()),
{
    assert((a + b).take(k) =~= a + b.take(k - a.len()));
    assert((a + b).skip(k) =~= b.skip(k - a.len()));
}

/// Taking a prefix that stays within the first part of a concatenation.
pub proof fn lemma_take_within(a: Seq<bool>, b: Seq<bool>, k: int)
    requires
        0 <= k <= a.len(),
    ensures
        (a + b).take(k) == a.take(k),
        (a + b).skip(k) == a.skip(k) + b,
{
    assert((a + b).take(k) =~= a.take(k));
    assert((a + b).skip(k) =~= a.skip(k) + b);
}

/// A buffer yields sixteen bits for each whole pair of bytes.
pub proof fn lemma_word_stream_len(b: Seq<u8>)
    ensures
        word_stream(b).len() == 16 * (b.len() / 2),
    decreases b.len(),
{
    if b.len() >= 2 {
        lemma_word_stream_len(b.subrange(2, b.len() as int));
    }
}

} // verus!
