//! Properties of reading that relate several operations or hold of every
//! stream.
use crate::bits::{
    bit_seq, le_bytes, le_word, lemma_bit_seq_skip, lemma_bit_seq_take, lemma_take_append,
    lemma_take_within, lemma_value_of_bit_seq, lemma_value_of_zero, lemma_word_stream_len, pack,
    unpack, value_of, word_bits, word_stream,
};
use crate::bitstream::{le16_of, Bitstream};
use vstd::arithmetic::div_mod::*;
use vstd::arithmetic::power2::*;
use vstd::prelude::*;

verus! {

/// Bytes written as little-endian words read back as the words' bits in
/// order, each word most-significant bit first.
pub proof fn lemma_le_bytes_read_as_words(ws: Seq<u16>)
    ensures
        word_stream(le_bytes(ws)) == word_bits(ws),
    decreases ws.len(),
{
    if ws.len() > 0 {
        let b = le_bytes(ws);
        let w = ws[0];
        assert(le_bytes(ws.skip(1)) =~= b.subrange(2, b.len() as int));
        assert(le_word((w % 256) as u8, (w / 256) as u8) == w as nat);
        lemma_le_bytes_read_as_words(ws.skip(1));
    }
}

/// Values packed one after another, each in its width of at most sixteen
/// bits, come back unchanged when fields of the same widths are read in
/// turn, whatever follows them.
pub proof fn lemma_packed_fields_read_back(fields: Seq<(nat, nat)>, tail: Seq<bool>)
    requires
        forall|i: int|
            0 <= i < fields.len() ==> #[trigger] fields[i].1 <= 16 && fields[i].0 < pow2(
                fields[i].1,
            ),
    ensures
        unpack(pack(fields) + tail, fields.map_values(|f: (nat, nat)| f.1)) == fields.map_values(
            |f: (nat, nat)| f.0,
        ),
    decreases fields.len(),
{
    let widths = fields.map_values(|f: (nat, nat)| f.1);
    let values = fields.map_values(|f: (nat, nat)| f.0);
    if fields.len() == 0 {
        assert(values =~= Seq::empty());
    } else {
        let (v, w) = fields[0];
        let first = bit_seq(v, w);
        let more = pack(fields.skip(1)) + tail;
        assert(pack(fields) + tail =~= first + more);
        lemma_take_within(first, more, w as int);
        assert(first.take(w as int) =~= first);
        assert(first.skip(w as int) =~= Seq::empty());
        assert(Seq::<bool>::empty() + more =~= more);
        lemma_value_of_bit_seq(v, w);
        lemma_small_mod(v, pow2(w));
        assert forall|i: int| 0 <= i < fields.skip(1).len() implies #[trigger] fields.skip(1)[i].1
            <= 16 && fields.skip(1)[i].0 < pow2(fields.skip(1)[i].1) by {
            assert(fields.skip(1)[i] == fields[i + 1]);
        }
        lemma_packed_fields_read_back(fields.skip(1), tail);
        assert(widths.skip(1) =~= fields.skip(1).map_values(|f: (nat, nat)| f.1));
        assert(values =~= seq![v] + fields.skip(1).map_values(|f: (nat, nat)| f.0));
    }
}

/// Bytes that store, as little-endian words, values packed end to end in
/// widths of at most sixteen bits give those values back when fields of
/// the same widths are read in turn from a new cursor over them.
pub proof fn lemma_packed_bytes_read_back(
    ws: Seq<u16>,
    fields: Seq<(nat, nat)>,
    tail: Seq<bool>,
)
    requires
        word_bits(ws) == pack(fields) + tail,
        forall|i: int|
            0 <= i < fields.len() ==> #[trigger] fields[i].1 <= 16 && fields[i].0 < pow2(
                fields[i].1,
            ),
    ensures
        unpack(word_stream(le_bytes(ws)), fields.map_values(|f: (nat, nat)| f.1))
            == fields.map_values(|f: (nat, nat)| f.0),
{
    lemma_le_bytes_read_as_words(ws);
    lemma_packed_fields_read_back(fields, tail);
}

/// A single bit read as a number is 1 when set and 0 when clear, so reading
/// one bit and reading a one-bit field give the same value.
pub proof fn lemma_one_bit_field(s: Seq<bool>)
    requires
        s.len() >= 1,
    ensures
        value_of(s.take(1)) == if s[0] {
            1nat
        } else {
            0nat
        },
{
    let t = s.take(1);
    assert(t.drop_last() =~= Seq::empty());
    assert(value_of(t.drop_last()) == 0);
    assert(t.last() == s[0]);
}

/// The little-endian reading of a word's sixteen bits swaps its bytes: the
/// high byte comes first in the stream.
proof fn lemma_le16_of_word(w: nat, t: Seq<bool>)
    requires
        w < 65536,
    ensures
        le16_of(bit_seq(w, 16) + t) == w / 256 + 256 * (w % 256),
{
    let b = bit_seq(w, 16);
    assert((b + t).subrange(0, 8) =~= b.take(8));
    assert((b + t).subrange(8, 16) =~= b.skip(8));
    lemma2_to64();
    lemma_bit_seq_take(w, 16, 8);
    lemma_bit_seq_skip(w, 16, 8);
    lemma_value_of_bit_seq(w / 256, 8);
    lemma_value_of_bit_seq(w, 8);
    lemma_small_mod(w / 256, 256);
}

/// On a stream at a word boundary, a little-endian 16-bit read gives the
/// next two bytes of the buffer taken as little-endian in the order the
/// stream yields them: the second byte of the pair first.
pub proof fn lemma_u16_le_aligned(s: Bitstream)
    requires
        s.wf(),
        s.avail() == 0,
        s.rest_bytes().len() >= 2,
    ensures
        le16_of(s.bits()) == s.rest_bytes()[1] + 256 * s.rest_bytes()[0],
{
    let b = s.rest_bytes();
    let w = le_word(b[0], b[1]);
    assert(s.lookahead() =~= Seq::empty());
    assert(s.bits() =~= bit_seq(w, 16) + word_stream(b.subrange(2, b.len() as int)));
    lemma_le16_of_word(w, word_stream(b.subrange(2, b.len() as int)));
    lemma_fundamental_div_mod_converse(w as int, 256, b[1] as int, b[0] as int);
}

/// On a stream at a word boundary, a little-endian 32-bit read takes the
/// first pair of bytes as the low half and the second pair as the high
/// half, each pair read as `lemma_u16_le_aligned` says.
pub proof fn lemma_u32_le_aligned(s: Bitstream)
    requires
        s.wf(),
        s.avail() == 0,
        s.rest_bytes().len() >= 4,
    ensures
        le16_of(s.bits()) + 65536 * le16_of(s.bits().skip(16)) == (s.rest_bytes()[1] + 256
            * s.rest_bytes()[0]) + 65536 * (s.rest_bytes()[3] + 256 * s.rest_bytes()[2]),
{
    lemma_u16_le_aligned(s);
    let b = s.rest_bytes();
    let w0 = le_word(b[0], b[1]);
    let r = b.subrange(2, b.len() as int);
    let w1 = le_word(r[0], r[1]);
    let t = word_stream(r.subrange(2, r.len() as int));
    assert(s.lookahead() =~= Seq::empty());
    assert(word_stream(r) == bit_seq(w1, 16) + t);
    assert(word_stream(b) == bit_seq(w0, 16) + word_stream(r));
    assert(s.bits() =~= bit_seq(w0, 16) + (bit_seq(w1, 16) + t));
    lemma_take_within(bit_seq(w0, 16), bit_seq(w1, 16) + t, 16);
    assert(bit_seq(w0, 16).skip(16) =~= Seq::empty());
    assert(Seq::<bool>::empty() + (bit_seq(w1, 16) + t) =~= bit_seq(w1, 16) + t);
    lemma_le16_of_word(w1, t);
    lemma_fundamental_div_mod_converse(w1 as int, 256, r[1] as int, r[0] as int);
}

/// A peek sees what a read of the same width would return; a peek leaves
/// the cursor alone, so peeking any number of times changes no later read.
pub proof fn lemma_peek_matches_read(s: Bitstream, count: nat)
    requires
        s.wf(),
        count <= 16,
        count <= s.bits().len(),
    ensures
        value_of(s.peek_window().take(count as int)) == value_of(s.bits().take(count as int)),
{
    let a = s.lookahead();
    let b = s.rest_bytes();
    lemma_word_stream_len(b);
    if count <= a.len() {
        lemma_take_within(a, bit_seq(s.next_word(), 16), count as int);
        lemma_take_within(a, word_stream(b), count as int);
    } else {
        let x = bit_seq(s.next_word(), 16);
        let t = word_stream(b.subrange(2, b.len() as int));
        assert(s.bits() =~= (a + x) + t);
        lemma_take_within(a + x, t, count as int);
    }
}

/// Peeking past the end of the buffer does not fail: the missing bits read
/// as zero.
pub proof fn lemma_peek_past_end(s: Bitstream, count: nat)
    requires
        s.wf(),
        count <= 16,
        s.rest_bytes().len() == 0,
    ensures
        s.peek_window().take(count as int) == (s.bits() + Seq::new(16, |i: int| false)).take(
            count as int,
        ),
{
    assert(s.bits() =~= s.lookahead());
    assert(bit_seq(0, 16) =~= Seq::new(16, |i: int| false)) by {
        assert forall|i: int| 0 <= i < 16 implies !#[trigger] bit_seq(0, 16)[i] by {
            lemma_pow2_pos((16 - 1 - i) as nat);
        }
    }
}

/// A stream is drained exactly when no whole word is left to load and none
/// of the bits still to be read is set; in particular it is not drained
/// while a set bit remains.
pub proof fn lemma_drained_iff_no_set_bit(s: Bitstream)
    requires
        s.wf(),
    ensures
        s.drained() == (s.rest_bytes().len() < 2 && forall|i: int|
            0 <= i < s.bits().len() ==> !#[trigger] s.bits()[i]),
        (exists|i: int| 0 <= i < s.bits().len() && #[trigger] s.bits()[i]) ==> !s.drained(),
{
    if s.rest_bytes().len() < 2 {
        assert(s.bits() =~= s.lookahead());
    }
}

} // verus!
