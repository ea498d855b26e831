use lzxd::{Bitstream, BitstreamError};

fn le_bytes(ns: &[u16]) -> Vec<u8> {
    let mut bytes = Vec::with_capacity(ns.len() * 2);
    ns.iter().for_each(|n| bytes.extend(&n.to_le_bytes()));
    bytes
}

#[test]
fn read_sequential() {
    // 0..=10 and padding using the least amount of bits possible, read LTR
    let ns = [0b0_1_10_11_100_101_110_1u16, 0b11_1000_1001_1010_00u16];
    let bit_lengths = [1u8, 1, 2, 2, 3, 3, 3, 3, 4, 4, 4];

    let mut bytes = Vec::with_capacity(ns.len() * 2);
    ns.iter().for_each(|n| bytes.extend(&n.to_le_bytes()));

    let mut bitstream = Bitstream::new(&bytes);
    bit_lengths
        .iter()
        .copied()
        .enumerate()
        .for_each(|(value, bit_length)| {
            assert_eq!(bitstream.read_bits(bit_length), Ok(value as u16));
        });
}

#[test]
fn read_16le_aligned() {
    let ns = [0b11100000_00000111_u16, 0b00011111_11111000];
    let mut bytes = Vec::with_capacity(ns.len() * 2);
    ns.iter().for_each(|n| bytes.extend(&n.to_le_bytes()));

    let mut bitstream = Bitstream::new(&bytes);
    assert_eq!(bitstream.read_u16_le(), Ok(0b00000111_11100000));
    assert_eq!(bitstream.read_u16_le(), Ok(0b11111000_00011111));
}

#[test]
fn read_16le_unaligned() {
    let ns = [0b00000000000_10001u16, 0b10000000001_00000];
    let mut bytes = Vec::with_capacity(ns.len() * 2);
    ns.iter().for_each(|n| bytes.extend(&n.to_le_bytes()));

    let mut bitstream = Bitstream::new(&bytes);

    assert_eq!(bitstream.read_bits(11), Ok(0));
    assert_eq!(bitstream.read_u16_le(), Ok(0b00000001_10001_100));
    assert_eq!(bitstream.read_bits(5), Ok(0));
}

#[test]
fn read_32le() {
    let bytes = [0x56, 0x78, 0x12, 0x34];
    let mut bitstream = Bitstream::new(&bytes);

    assert_eq!(bitstream.read_u32_le(), Ok(0x12345678));
}

#[test]
fn read_24be() {
    let ns = [0b0000_1100_0001_1000_u16, 0b0001_1000_0011_0000_u16];
    let mut bytes = Vec::with_capacity(ns.len() * 2);
    ns.iter().for_each(|n| bytes.extend(&n.to_le_bytes()));

    let mut bitstream = Bitstream::new(&bytes);

    assert_eq!(bitstream.read_bits(4), Ok(0));
    assert_eq!(bitstream.read_u24_be(), Ok(0b1100_0001_1000_0001_1000_0011));
    assert_eq!(bitstream.read_bits(4), Ok(0));
}

#[test]
fn is_empty() {
    let bytes = [];
    let bitstream = Bitstream::new(&bytes);
    assert!(bitstream.is_empty());

    let bytes = [0xab, 0xcd];
    let mut bitstream = Bitstream::new(&bytes);
    assert!(!bitstream.is_empty());
    bitstream.read_bits(15).unwrap();
    assert!(!bitstream.is_empty());
    bitstream.read_bit().unwrap();
    assert!(bitstream.is_empty());
}

#[test]
fn check_read_bit() {
    let bytes = [0b0110_1001, 0b1001_0110];
    let mut bitstream_1 = Bitstream::new(&bytes);
    let mut bitstream_n = Bitstream::new(&bytes);

    (0..16).for_each(|_| assert_eq!(bitstream_1.read_bit(), bitstream_n.read_bits(1)));
}

#[test]
fn read_bit_order_is_high_byte_first() {
    // The word 0xcdab: its bits come 1100_1101 1010_1011.
    let bytes = [0xab, 0xcd];
    let mut s = Bitstream::new(&bytes);
    let expected = [1u16, 1, 0, 0, 1, 1, 0, 1, 1, 0, 1, 0, 1, 0, 1, 1];
    for e in expected {
        assert_eq!(s.read_bit(), Ok(e));
    }
    assert_eq!(s.read_bit(), Err(BitstreamError::UnexpectedEof));
}

#[test]
fn read_bits_across_words() {
    let bytes = le_bytes(&[0x1234, 0xabcd]);
    let mut s = Bitstream::new(&bytes);
    assert_eq!(s.read_bits(12), Ok(0x123));
    assert_eq!(s.read_bits(8), Ok(0x4a));
    assert_eq!(s.read_bits(12), Ok(0xbcd));
    assert!(s.is_empty());
}

#[test]
fn read_sixteen_bits_after_partial_word() {
    let bytes = le_bytes(&[0x8001, 0xffff]);
    let mut s = Bitstream::new(&bytes);
    assert_eq!(s.read_bits(1), Ok(1));
    assert_eq!(s.read_bits(16), Ok(0x0003));
    assert_eq!(s.read_bits(15), Ok(0x7fff));
}

#[test]
fn read_zero_bits() {
    let bytes: [u8; 0] = [];
    let mut s = Bitstream::new(&bytes);
    assert_eq!(s.read_bits(0), Ok(0));
    assert_eq!(s.peek_bits(0), 0);
}

#[test]
fn packed_fields_read_back() {
    // Fields (value, width) laid end to end, then zero padding to a word.
    let fields: [(u16, u8); 6] = [(5, 3), (0xbeef, 16), (1, 1), (0, 2), (0x3ff, 10), (6, 4)];
    let mut words: Vec<u16> = Vec::new();
    let mut acc: u32 = 0;
    let mut used: u32 = 0;
    for &(v, w) in fields.iter() {
        for i in (0..w).rev() {
            acc = (acc << 1) | ((v as u32 >> i) & 1);
            used += 1;
            if used == 16 {
                words.push(acc as u16);
                acc = 0;
                used = 0;
            }
        }
    }
    if used > 0 {
        words.push((acc << (16 - used)) as u16);
    }
    let bytes = le_bytes(&words);
    let mut s = Bitstream::new(&bytes);
    for &(v, w) in fields.iter() {
        assert_eq!(s.read_bits(w), Ok(v));
    }
    assert!(s.is_empty());
}

#[test]
fn read_bits_past_end_fails_and_keeps_position() {
    let bytes = le_bytes(&[0xf00f]);
    let mut s = Bitstream::new(&bytes);
    assert_eq!(s.read_bits(12), Ok(0xf00));
    assert_eq!(s.read_bits(5), Err(BitstreamError::UnexpectedEof));
    assert_eq!(s.read_bits(4), Ok(0xf));
    assert_eq!(s.read_bits(1), Err(BitstreamError::UnexpectedEof));
}

#[test]
fn lone_trailing_byte_cannot_be_read() {
    let bytes = [0xff];
    let mut s = Bitstream::new(&bytes);
    assert_eq!(s.read_bits(1), Err(BitstreamError::UnexpectedEof));
    assert_eq!(s.read_bit(), Err(BitstreamError::UnexpectedEof));
    // A peek sees it as the low byte of a word whose high byte is zero.
    assert_eq!(s.peek_bits(16), 0x00ff);
    assert!(s.is_empty());
}

#[test]
fn compound_reads_fail_without_moving() {
    let bytes = le_bytes(&[0x1234]);
    let mut s = Bitstream::new(&bytes);
    assert_eq!(s.read_u32_le(), Err(BitstreamError::UnexpectedEof));
    assert_eq!(s.read_u24_be(), Err(BitstreamError::UnexpectedEof));
    assert_eq!(s.read_bits(4), Ok(0x1));
    assert_eq!(s.read_u16_le(), Err(BitstreamError::UnexpectedEof));
    assert_eq!(s.read_bits(12), Ok(0x234));
}

#[test]
fn read_u16_le_swaps_bytes() {
    let bytes = [0x34, 0x12];
    let mut s = Bitstream::new(&bytes);
    assert_eq!(s.read_u16_le(), Ok(0x3412));
}

#[test]
fn read_u32_le_after_odd_offset() {
    let bytes = le_bytes(&[0x8123, 0x4567, 0x89ab, 0xcdef]);
    let mut s = Bitstream::new(&bytes);
    assert_eq!(s.read_bits(4), Ok(0x8));
    // Next 32 bits: 0x1234_5678, halves 0x1234 then 0x5678, each byte-swapped.
    assert_eq!(s.read_u32_le(), Ok(0x7856_3412));
    assert_eq!(s.read_bits(12), Ok(0x9ab));
}

#[test]
fn read_u24_be_unaligned() {
    let bytes = le_bytes(&[0x0abc, 0xdef0]);
    let mut s = Bitstream::new(&bytes);
    assert_eq!(s.read_bits(4), Ok(0));
    assert_eq!(s.read_u24_be(), Ok(0xabcdef));
}

#[test]
fn peek_twice_then_read() {
    let bytes = le_bytes(&[0xa5c3, 0x0ff0]);
    let mut s = Bitstream::new(&bytes);
    assert_eq!(s.read_bits(3), Ok(0b101));
    assert_eq!(s.peek_bits(16), 0x2e18);
    assert_eq!(s.peek_bits(16), 0x2e18);
    assert_eq!(s.read_bits(16), Ok(0x2e18));
    assert_eq!(s.peek_bits(5), 0b0_1111);
    assert_eq!(s.read_bits(5), Ok(0b0_1111));
}

#[test]
fn peek_past_end_pads_with_zero() {
    let bytes = le_bytes(&[0x00ff]);
    let mut s = Bitstream::new(&bytes);
    assert_eq!(s.read_bits(10), Ok(0x003));
    assert_eq!(s.peek_bits(16), 0xfc00);
    assert_eq!(s.peek_bits(6), 0x3f);
    let empty: [u8; 0] = [];
    let t = Bitstream::new(&empty);
    assert_eq!(t.peek_bits(16), 0);
}

#[test]
fn is_empty_tracks_set_bits() {
    let bytes = le_bytes(&[0x0000, 0x8000]);
    let mut s = Bitstream::new(&bytes);
    assert!(!s.is_empty());
    assert_eq!(s.read_bits(16), Ok(0));
    assert!(!s.is_empty());
    assert_eq!(s.read_bit(), Ok(1));
    assert!(s.is_empty());
}

#[test]
fn is_empty_with_zero_word_left() {
    let bytes = le_bytes(&[0x0000]);
    let s = Bitstream::new(&bytes);
    assert!(!s.is_empty());
}
