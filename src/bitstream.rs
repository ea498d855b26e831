//! A cursor over a byte buffer that hands out its bits in stream order.
use crate::bits::{
    bit_seq, le_word, lemma_bit_seq_skip, lemma_bit_seq_take, lemma_take_append, lemma_take_within,
    lemma_value_of_append, lemma_value_of_bit_seq, lemma_value_of_bound, lemma_value_of_zero,
    lemma_word_stream_len, value_of, word_stream,
};
use vstd::arithmetic::div_mod::*;
use vstd::arithmetic::power2::*;
use vstd::bits::*;
use vstd::prelude::*;
use vstd::slice::slice_subrange;

verus! {

/// Why a read could not be served.
#[derive(Debug, Clone, Copy, PartialEq, Eq)]
pub enum BitstreamError {
    /// A new word was needed but fewer than two bytes were left.
    UnexpectedEof,
}

/// A bit reader over borrowed bytes. Bits are packed most-significant first
/// into 16-bit words, and each word is stored as a little-endian byte pair.
///
/// The cursor holds the word loaded last and how many of its low bits are
/// still unread; the next bit is the highest of those.
pub struct Bitstream<'a> {
    buffer: &'a [u8],
    word: u16,
    remaining: u8,
}

/// The byte at `i`, or zero past the end.
pub open spec fn byte_or_zero(b: Seq<u8>, i: int) -> u8 {
    if i < b.len() {
        b[i]
    } else {
        0
    }
}

/// Sixteen bits read as a little-endian integer: the first eight bits are the
/// low byte, the next eight the high byte.
pub open spec fn le16_of(s: Seq<bool>) -> nat {
    value_of(s.subrange(0, 8)) + 256 * value_of(s.subrange(8, 16))
}

/// `2^e` for small `e`.
fn pow2_u32(e: u8) -> (r: u32)
    requires
        e <= 16,
    ensures
        r == pow2(e as nat),
{
    proof {
        lemma2_to64();
        lemma_u32_shl_is_mul(1, e as u32);
    }
    1u32 << e
}

/// The word that two bytes form when read as little-endian.
fn le_u16(lo: u8, hi: u8) -> (r: u16)
    ensures
        r == le_word(lo, hi),
{
    let l = lo as u16;
    let h = hi as u16;
    assert(l | (h << 8) == l + 256 * h) by (bit_vector)
        requires
            l < 256,
            h < 256,
    ;
    l | (h << 8)
}

/// The first `count` bits of the low `avail` bits of `word` followed by the
/// sixteen bits of `next`, as a number whose top bit is the earliest one.
fn extract(word: u16, avail: u8, next: u16, count: u8) -> (r: u16)
    requires
        avail <= 16,
        count <= 16,
    ensures
        r == value_of((bit_seq(word as nat, avail as nat) + bit_seq(next as nat, 16)).take(
            count as int,
        )),
{
    let ghost a = bit_seq(word as nat, avail as nat);
    let ghost b = bit_seq(next as nat, 16);
    proof {
        lemma2_to64();
    }
    if count <= avail {
        let shift = avail - count;
        let m = pow2_u32(count);
        proof {
            lemma_u32_shr_is_div(word as u32, shift as u32);
        }
        let v = ((word as u32) >> (shift as u32)) % m;
        proof {
            lemma_take_within(a, b, count as int);
            lemma_bit_seq_take(word as nat, avail as nat, count as nat);
            lemma_value_of_bit_seq(word as nat / pow2(shift as nat), count as nat);
            lemma_pow2_strictly_increases(count as nat, 17);
        }
        v as u16
    } else {
        let rest = count - avail;
        let hm = pow2_u32(avail);
        let lm = pow2_u32(rest);
        let hi = (word as u32) % hm;
        proof {
            lemma_u32_shr_is_div(next as u32, (16 - rest) as u32);
        }
        let lo = ((next as u32) >> ((16 - rest) as u32)) % lm;
        proof {
            lemma_take_append(a, b, count as int);
            lemma_bit_seq_take(next as nat, 16, rest as nat);
            lemma_value_of_bit_seq(word as nat, avail as nat);
            lemma_value_of_bit_seq(next as nat / pow2((16 - rest) as nat), rest as nat);
            lemma_value_of_append(a, b.take(rest as int));
            lemma_pow2_adds(avail as nat, rest as nat);
            lemma_pow2_strictly_increases(count as nat, 17);
            assert(hi * lm + lo < hm * lm) by (nonlinear_arith)
                requires
                    hi < hm,
                    lo < lm,
            ;
        }
        (hi * lm + lo) as u16
    }
}

/// Swapping the bytes of the value of sixteen bits gives their
/// little-endian reading.
proof fn lemma_u16_halves(s: Seq<bool>, v: u16)
    requires
        s.len() >= 16,
        v == value_of(s.take(16)),
    ensures
        (v << 8) | (v >> 8) == le16_of(s),
{
    let a = s.subrange(0, 8);
    let b = s.subrange(8, 16);
    assert(s.take(16) =~= a + b);
    lemma_value_of_append(a, b);
    lemma2_to64();
    lemma_value_of_bound(a);
    lemma_value_of_bound(b);
    let va = value_of(a);
    let vb = value_of(b);
    assert(v == va * 256 + vb);
    lemma_fundamental_div_mod_converse(v as int, 256, va as int, vb as int);
    assert(((v << 8) | (v >> 8)) == (v % 256) * 256 + v / 256) by (bit_vector);
}

impl<'a> Bitstream<'a> {
    /// The bytes not yet loaded.
    pub closed spec fn rest_bytes(self) -> Seq<u8> {
        self.buffer@
    }

    /// The word loaded last.
    pub closed spec fn current_word(self) -> u16 {
        self.word
    }

    /// How many bits of the current word are still unread.
    pub closed spec fn avail(self) -> nat {
        self.remaining as nat
    }

    pub open spec fn wf(self) -> bool {
        self.avail() <= 16
    }

    /// The unread bits of the current word, in reading order.
    pub open spec fn lookahead(self) -> Seq<bool> {
        bit_seq(self.current_word() as nat, self.avail())
    }

    /// Every bit still to be read, in reading order.
    pub open spec fn bits(self) -> Seq<bool> {
        self.lookahead() + word_stream(self.rest_bytes())
    }

    /// The next word as a peek sees it: bytes past the end count as zero.
    pub open spec fn next_word(self) -> nat {
        le_word(byte_or_zero(self.rest_bytes(), 0), byte_or_zero(self.rest_bytes(), 1))
    }

    /// What a peek can see: the unread bits of the current word, then the
    /// next word with missing bytes taken as zero.
    pub open spec fn peek_window(self) -> Seq<bool> {
        self.lookahead() + bit_seq(self.next_word(), 16)
    }

    /// The bytes left after reading `count` bits: a word is loaded only when
    /// the current one runs short.
    pub open spec fn rest_after(self, count: nat) -> Seq<u8> {
        if count <= self.avail() {
            self.rest_bytes()
        } else {
            self.rest_bytes().skip(2)
        }
    }

    /// No whole word is left to load and every unread bit of the current
    /// word is zero.
    pub open spec fn drained(self) -> bool {
        &&& self.rest_bytes().len() < 2
        &&& forall|i: int| 0 <= i < self.lookahead().len() ==> !#[trigger] self.lookahead()[i]
    }

    /// A cursor before the first bit of `buffer`.
    pub fn new(buffer: &'a [u8]) -> (r: Self)
        ensures
            r.wf(),
            r.rest_bytes() == buffer@,
            r.avail() == 0,
            r.bits() == word_stream(buffer@),
    {
        let r = Bitstream { buffer, word: 0, remaining: 0 };
        assert(r.lookahead() =~= Seq::empty());
        assert(r.bits() =~= word_stream(buffer@));
        r
    }

    /// Loads the next two bytes as the current word.
    fn advance_buffer(&mut self)
        requires
            old(self).rest_bytes().len() >= 2,
        ensures
            final(self).avail() == 16,
            final(self).current_word() == le_word(old(self).rest_bytes()[0], old(self).rest_bytes()[1]),
            final(self).rest_bytes() == old(self).rest_bytes().skip(2),
            word_stream(old(self).rest_bytes()) == final(self).lookahead() + word_stream(
                final(self).rest_bytes(),
            ),
    {
        self.remaining = 16;
        self.word = le_u16(self.buffer[0], self.buffer[1]);
        self.buffer = slice_subrange(self.buffer, 2, self.buffer.len());
        assert(self.buffer@ =~= old(self).buffer@.skip(2));
    }

    /// Reads the next `count` bits as a number whose top bit is the earliest.
    pub fn read_bits(&mut self, count: u8) -> (r: Result<u16, BitstreamError>)
        requires
            old(self).wf(),
            count <= 16,
        ensures
            final(self).wf(),
            (r is Ok) == (count <= old(self).bits().len()),
            r is Ok ==> {
                &&& r->Ok_0 == value_of(old(self).bits().take(count as int))
                &&& final(self).bits() == old(self).bits().skip(count as int)
                &&& final(self).rest_bytes() == old(self).rest_after(count as nat)
            },
            r is Err ==> r == Err::<u16, _>(BitstreamError::UnexpectedEof) && *final(self) == *old(
                self,
            ),
    {
        let ghost s0 = *self;
        let ghost a = self.lookahead();
        proof {
            lemma_word_stream_len(self.rest_bytes());
        }
        if count <= self.remaining {
            let v = extract(self.word, self.remaining, 0, count);
            self.remaining = self.remaining - count;
            proof {
                let w = word_stream(s0.rest_bytes());
                lemma_take_within(a, bit_seq(0, 16), count as int);
                lemma_take_within(a, w, count as int);
                lemma_bit_seq_skip(s0.current_word() as nat, s0.avail(), count as nat);
            }
            Ok(v)
        } else if self.buffer.len() < 2 {
            Err(BitstreamError::UnexpectedEof)
        } else {
            let word = self.word;
            let avail = self.remaining;
            self.advance_buffer();
            let v = extract(word, avail, self.word, count);
            let rest = count - avail;
            self.remaining = 16 - rest;
            proof {
                let b = bit_seq(self.current_word() as nat, 16);
                let w = word_stream(self.rest_bytes());
                assert(s0.bits() == a + (b + w));
                assert(a + (b + w) == (a + b) + w);
                lemma_take_within(a + b, w, count as int);
                lemma_take_append(a, b, count as int);
                lemma_bit_seq_skip(self.current_word() as nat, 16, rest as nat);
            }
            Ok(v)
        }
    }

    /// Looks at the next `count` bits without moving the cursor. Bits past
    /// the end of the buffer read as zero.
    pub fn peek_bits(&self, count: u8) -> (r: u16)
        requires
            self.wf(),
            count <= 16,
        ensures
            r == value_of(self.peek_window().take(count as int)),
    {
        let b0 = if self.buffer.len() >= 1 {
            self.buffer[0]
        } else {
            0
        };
        let b1 = if self.buffer.len() >= 2 {
            self.buffer[1]
        } else {
            0
        };
        extract(self.word, self.remaining, le_u16(b0, b1), count)
    }

    /// Reads the next bit: 1 when it is set, else 0.
    pub fn read_bit(&mut self) -> (r: Result<u16, BitstreamError>)
        requires
            old(self).wf(),
        ensures
            final(self).wf(),
            (r is Ok) == (1 <= old(self).bits().len()),
            r is Ok ==> {
                &&& r->Ok_0 == if old(self).bits()[0] {
                    1u16
                } else {
                    0u16
                }
                &&& final(self).bits() == old(self).bits().skip(1)
                &&& final(self).rest_bytes() == old(self).rest_after(1)
            },
            r is Err ==> r == Err::<u16, _>(BitstreamError::UnexpectedEof) && *final(self) == *old(
                self,
            ),
    {
        let ghost s0 = *self;
        proof {
            lemma_word_stream_len(self.rest_bytes());
        }
        if self.remaining == 0 {
            if self.buffer.len() < 2 {
                return Err(BitstreamError::UnexpectedEof);
            }
            self.advance_buffer();
            assert(s0.lookahead() =~= Seq::empty());
            assert(s0.bits() =~= self.bits());
        }
        let ghost s1 = *self;
        self.remaining = self.remaining - 1;
        let shift = self.remaining as u16;
        let w = self.word;
        proof {
            lemma2_to64();
            lemma_u16_shr_is_div(w, shift);
            lemma_bit_seq_skip(w as nat, s1.avail(), 1);
            lemma_take_within(s1.lookahead(), word_stream(s1.rest_bytes()), 1);
            assert(s1.bits()[0] == s1.lookahead()[0]);
            assert(((w >> shift) & 1) == (w >> shift) % 2) by (bit_vector);
        }
        Ok((w >> shift) & 1)
    }

    /// Whether at least `count` bits are left to read.
    fn has_bits(&self, count: u8) -> (r: bool)
        requires
            self.wf(),
        ensures
            r == (count <= self.bits().len()),
    {
        proof {
            lemma_word_stream_len(self.rest_bytes());
        }
        count <= self.remaining || self.buffer.len() / 2 >= ((count - self.remaining) as usize + 15)
            / 16
    }

    /// Reads sixteen bits as a little-endian integer: the first eight bits
    /// read are its low byte.
    pub fn read_u16_le(&mut self) -> (r: Result<u16, BitstreamError>)
        requires
            old(self).wf(),
        ensures
            final(self).wf(),
            (r is Ok) == (16 <= old(self).bits().len()),
            r is Ok ==> {
                &&& r->Ok_0 == le16_of(old(self).bits())
                &&& final(self).bits() == old(self).bits().skip(16)
            },
            r is Err ==> r == Err::<u16, _>(BitstreamError::UnexpectedEof) && *final(self) == *old(
                self,
            ),
    {
        let ghost s = old(self).bits();
        match self.read_bits(16) {
            Ok(v) => {
                proof {
                    lemma_u16_halves(s, v);
                }
                Ok((v << 8) | (v >> 8))
            },
            Err(e) => Err(e),
        }
    }

    /// Reads two little-endian 16-bit integers, the first as the low half and
    /// the second as the high half.
    pub fn read_u32_le(&mut self) -> (r: Result<u32, BitstreamError>)
        requires
            old(self).wf(),
        ensures
            final(self).wf(),
            (r is Ok) == (32 <= old(self).bits().len()),
            r is Ok ==> {
                &&& r->Ok_0 == le16_of(old(self).bits()) + 65536 * le16_of(
                    old(self).bits().skip(16),
                )
                &&& final(self).bits() == old(self).bits().skip(32)
            },
            r is Err ==> r == Err::<u32, _>(BitstreamError::UnexpectedEof) && *final(self) == *old(
                self,
            ),
    {
        if !self.has_bits(32) {
            return Err(BitstreamError::UnexpectedEof);
        }
        let ghost s = self.bits();
        let lo = match self.read_u16_le() {
            Ok(v) => v as u32,
            Err(e) => return Err(e),
        };
        let hi = match self.read_u16_le() {
            Ok(v) => v as u32,
            Err(e) => return Err(e),
        };
        proof {
            assert(s.skip(16).skip(16) =~= s.skip(32));
            assert((hi << 16) | lo == hi * 65536 + lo) by (bit_vector)
                requires
                    hi < 65536,
                    lo < 65536,
            ;
        }
        Ok((hi << 16) | lo)
    }

    /// Reads the next 24 bits as one number whose top bit is the earliest.
    pub fn read_u24_be(&mut self) -> (r: Result<u32, BitstreamError>)
        requires
            old(self).wf(),
        ensures
            final(self).wf(),
            (r is Ok) == (24 <= old(self).bits().len()),
            r is Ok ==> {
                &&& r->Ok_0 == value_of(old(self).bits().take(24))
                &&& final(self).bits() == old(self).bits().skip(24)
            },
            r is Err ==> r == Err::<u32, _>(BitstreamError::UnexpectedEof) && *final(self) == *old(
                self,
            ),
    {
        if !self.has_bits(24) {
            return Err(BitstreamError::UnexpectedEof);
        }
        let ghost s = self.bits();
        let hi = match self.read_bits(16) {
            Ok(v) => v as u32,
            Err(e) => return Err(e),
        };
        let lo = match self.read_bits(8) {
            Ok(v) => v as u32,
            Err(e) => return Err(e),
        };
        proof {
            assert(s.skip(16).skip(8) =~= s.skip(24));
            assert(s.take(24) =~= s.take(16) + s.skip(16).take(8));
            lemma_value_of_append(s.take(16), s.skip(16).take(8));
            lemma2_to64();
            lemma_value_of_bound(s.take(16));
            lemma_value_of_bound(s.skip(16).take(8));
            assert((hi << 8) | lo == hi * 256 + lo) by (bit_vector)
                requires
                    hi < 65536,
                    lo < 256,
            ;
        }
        Ok((hi << 8) | lo)
    }

    /// True when no whole word is left to load and every unread bit of the
    /// current word is zero. Trailing zero padding thus counts as the end,
    /// and so do zero-valued final bits: without a known length the two
    /// cannot be told apart.
    pub fn is_empty(&self) -> (r: bool)
        requires
            self.wf(),
        ensures
            r == self.drained(),
    {
        let b = self.buffer.len() < 2;
        let v = self.peek_bits(self.remaining);
        proof {
            lemma_take_within(self.lookahead(), bit_seq(self.next_word(), 16), self.avail() as int);
            assert(self.lookahead().take(self.avail() as int) =~= self.lookahead());
            lemma_value_of_zero(self.lookahead());
        }
        b && v == 0
    }
}

} // verus!
