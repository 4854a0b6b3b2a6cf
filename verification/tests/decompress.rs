use prem_tools::decompress;
use prem_tools::Block;
use prem_tools::BlockRef;
use prem_tools::Decoder;
use prem_tools::UncompressError;

#[test]
fn test_decompress_literal_only() {
    let mut literals = vec![];
    let mut data: Vec<u8> = vec![];
    data.push(0b1111_1111); // 8 literal values
    data.push(0b0001_1111); // 5 literal values + EOF
    for value in 0..13 {
        data.push(value);
        literals.push(value);
    }
    data.push(0xff); // EOF byte

    data.push(0xff); // Dummy command block
    data.push(0xff);
    assert_eq!(decompress(data).unwrap(), literals);
}

/// Assembles a compressed stream in the order the decoder consumes it:
/// command bits fill 16-bit little-endian words that are placed in the
/// stream at the position the decoder's refill will read them, and raw
/// bytes go in between.
struct StreamBuilder {
    out: Vec<u8>,
    word_pos: usize,
    word: u16,
    nbits: u32,
}

impl StreamBuilder {
    fn new() -> StreamBuilder {
        StreamBuilder { out: vec![0, 0], word_pos: 0, word: 0, nbits: 0 }
    }

    fn push_bit(&mut self, bit: u8) {
        self.word |= (bit as u16) << self.nbits;
        self.nbits += 1;
        if self.nbits == 16 {
            self.out[self.word_pos] = (self.word & 0xff) as u8;
            self.out[self.word_pos + 1] = (self.word >> 8) as u8;
            // The decoder refills eagerly on the 16th extraction, reading
            // the next word right here in the stream.
            self.word_pos = self.out.len();
            self.out.push(0);
            self.out.push(0);
            self.word = 0;
            self.nbits = 0;
        }
    }

    fn push_byte(&mut self, value: u8) {
        self.out.push(value);
    }

    fn literal(&mut self, value: u8) {
        self.push_bit(1);
        self.push_byte(value);
    }

    /// A big back-reference with a near offset (high byte 0xFE or 0xFF kept
    /// as-is) and any length in 3..=272.
    fn big_ref_near(&mut self, high_bit: u8, offset_l: u8, length: u16) {
        self.push_bit(0);
        self.push_bit(1);
        self.push_byte(offset_l);
        self.push_bit(high_bit);
        self.push_bit(1); // keep the high byte: no extension rounds
        if (3..=6).contains(&length) {
            for _ in 3..length {
                self.push_bit(0);
            }
            self.push_bit(1);
        } else if (7..=8).contains(&length) {
            for _ in 0..4 {
                self.push_bit(0);
            }
            self.push_bit(1);
            self.push_bit((length - 7) as u8);
        } else if (9..=16).contains(&length) {
            for _ in 0..6 {
                self.push_bit(0);
            }
            let v = (length - 9) as u8;
            self.push_bit((v >> 2) & 1);
            self.push_bit((v >> 1) & 1);
            self.push_bit(v & 1);
        } else {
            assert!((17..=272).contains(&length));
            for _ in 0..4 {
                self.push_bit(0);
            }
            self.push_bit(0);
            self.push_bit(1);
            self.push_byte((length - 17) as u8);
        }
    }

    fn end_of_file(&mut self) {
        self.push_bit(0);
        self.push_bit(0);
        self.push_byte(0xff);
        self.push_bit(0);
    }

    fn finish(mut self) -> Vec<u8> {
        self.out[self.word_pos] = (self.word & 0xff) as u8;
        self.out[self.word_pos + 1] = (self.word >> 8) as u8;
        self.out
    }
}

#[test]
fn test_builder_matches_literal_only_layout() {
    let mut b = StreamBuilder::new();
    let mut literals: Vec<u8> = vec![];
    for value in 0..13 {
        b.literal(value);
        literals.push(value);
    }
    b.end_of_file();
    assert_eq!(decompress(b.finish()).unwrap(), literals);
}

#[test]
fn test_determinism() {
    // The same bytes decode to the same result, run after run.
    let mut b = StreamBuilder::new();
    for value in 1..=6 {
        b.literal(value);
    }
    b.big_ref_near(1, 0xFD, 7); // offset 0xFFFD == -3
    b.end_of_file();
    let data = b.finish();
    let first = decompress(data.clone());
    let second = decompress(data);
    assert_eq!(first, second);
    assert_eq!(first.unwrap(), vec![1, 2, 3, 4, 5, 6, 4, 5, 6, 4, 5, 6, 4]);
}

#[test]
fn test_self_overlapping_ref() {
    // One literal X, then a back-reference with offset -1 and length 5,
    // then the end marker: X is repeated six times in all.
    let x: u8 = 0xAB;
    let data: Vec<u8> = vec![0x9D, 0x00, x, 0xFF, 0xFF];
    assert_eq!(decompress(data).unwrap(), vec![x; 6]);
}

#[test]
fn test_self_overlapping_longer_period() {
    // Six literals, then a back-reference with offset -6 and length 11:
    // the copy reads bytes it appended itself, repeating the period.
    let mut b = StreamBuilder::new();
    for value in 1..=6 {
        b.literal(value);
    }
    b.big_ref_near(1, 0xFA, 11); // offset 0xFFFA == -6
    b.end_of_file();
    let expected: Vec<u8> = vec![1, 2, 3, 4, 5, 6, 1, 2, 3, 4, 5, 6, 1, 2, 3, 4, 5];
    assert_eq!(decompress(b.finish()).unwrap(), expected);
}

#[test]
fn test_invalid_address() {
    // A short back-reference with offset -2 against an empty output: the
    // computed start wraps to 0xFFFE, which is not below the length 0.
    let data: Vec<u8> = vec![0x00, 0x00, 0xFE];
    assert_eq!(
        decompress(data),
        Err(UncompressError::InvalidAddress { len: 0, offset: -2, start: 0xFFFE })
    );
}

#[test]
fn test_invalid_address_at_boundary() {
    // After one literal, a big reference with offset -2 computes a start
    // that wraps to 0xFFFF, which is not below the length 1: equality or
    // greater is invalid.
    let mut b = StreamBuilder::new();
    b.literal(7);
    b.big_ref_near(1, 0xFE, 3); // offset 0xFFFE == -2, start = 1 - 2 = 0xFFFF
    b.end_of_file();
    assert_eq!(
        decompress(b.finish()),
        Err(UncompressError::InvalidAddress { len: 1, offset: -2, start: 0xFFFF })
    );
}

#[test]
fn test_output_size_overflow_at_crossing_token() {
    // One literal, then 241 maximal back-references of length 272 at
    // offset -1.  After 240 of them the output holds 65281 bytes and the
    // decode goes on; the 241st drives it past 65535 and must fail there,
    // with the size error rather than a truncation from reading on.
    let mut b = StreamBuilder::new();
    b.literal(0x5A);
    for _ in 0..241 {
        b.big_ref_near(1, 0xFF, 272); // offset 0xFFFF == -1
    }
    assert_eq!(decompress(b.finish()), Err(UncompressError::OutputSizeOverflow));
}

#[test]
fn test_output_size_at_ceiling_succeeds() {
    // Exactly 65535 bytes: one literal, 240 references of length 272, one
    // of length 254, then the end marker.
    let x: u8 = 0x33;
    let mut b = StreamBuilder::new();
    b.literal(x);
    for _ in 0..240 {
        b.big_ref_near(1, 0xFF, 272);
    }
    b.big_ref_near(1, 0xFF, 254);
    b.end_of_file();
    let out = decompress(b.finish()).unwrap();
    assert_eq!(out.len(), 65535);
    assert!(out.iter().all(|&v| v == x));
}

#[test]
fn test_refill_before_multi_bit_read() {
    // Six literals, then a big back-reference whose three length bits are
    // the 17th, 18th and 19th command bits: the refill happens on the 16th
    // extraction, so those three bits come from the second command word,
    // and the raw bytes around them stay aligned.
    let mut b = StreamBuilder::new();
    for value in 1..=6 {
        b.literal(value);
    }
    b.big_ref_near(1, 0xFA, 11); // length 11: probe and tail bits end the first word
    b.end_of_file();
    let data = b.finish();
    // Bits consumed before the three length bits: 6 literal flags, two
    // token bits, the high bit, the keep bit, four probe bits and two tail
    // bits -- 16 exactly.
    let expected: Vec<u8> = vec![1, 2, 3, 4, 5, 6, 1, 2, 3, 4, 5, 6, 1, 2, 3, 4, 5];
    assert_eq!(decompress(data).unwrap(), expected);
}

#[test]
fn test_truncated_empty_input() {
    assert_eq!(decompress(vec![]), Err(UncompressError::Truncated));
    assert_eq!(decompress(vec![0x01]), Err(UncompressError::Truncated));
}

#[test]
fn test_truncated_missing_literal_byte() {
    // A full command word announcing a literal, but no byte follows.
    assert_eq!(decompress(vec![0x01, 0x00]), Err(UncompressError::Truncated));
}

#[test]
fn test_truncated_missing_refill() {
    // Sixteen command bits are consumed and the eager refill finds no
    // further word: the third bit of the end marker is the 16th.
    let mut data: Vec<u8> = vec![0b1111_1111, 0b0001_1111];
    for value in 0..13 {
        data.push(value);
    }
    data.push(0xff); // EOF byte, but no command word to refill from
    assert_eq!(decompress(data), Err(UncompressError::Truncated));
}

#[test]
fn test_decode_block_literal_and_eof() {
    let data: Vec<u8> = vec![0x01, 0x00, 0x42, 0xFF];
    let mut d = Decoder::new(data).unwrap();
    assert_eq!(d.decode_block(), Ok(Block::Literal(0x42)));
    assert_eq!(d.decode_block(), Ok(Block::EndOfFile));
}

#[test]
fn test_decode_block_small_ref() {
    // Small reference: three command bits 1,0,1 give high byte
    // (0xF8 | 5) - 1 == 0xFC, so with low byte 0x34 the offset is -972.
    let data: Vec<u8> = vec![0x2C, 0x00, 0x34];
    let mut d = Decoder::new(data).unwrap();
    assert_eq!(d.decode_block(), Ok(Block::Ref(BlockRef { offset: -972, length: 2 })));
}

#[test]
fn test_decode_block_short_ref() {
    // The fixed short copy: low byte 0x10 with all three command bits
    // unset gives offset 0xFF10 == -240 and length 2.
    let data: Vec<u8> = vec![0x00, 0x00, 0x10];
    let mut d = Decoder::new(data).unwrap();
    assert_eq!(d.decode_block(), Ok(Block::Ref(BlockRef { offset: -240, length: 2 })));
}

#[test]
fn test_decode_block_big_ref_extension() {
    // A big reference taking one extension round: the high byte starts at
    // 0xFE, gains a 1 bit (0xFD), and the two's-complement correction with
    // tmp == 4 yields 0xF9; with low byte 0x10 the offset is -1776.  The
    // length probe answers at once: length 3.
    let data: Vec<u8> = vec![0xE2, 0x00, 0x10];
    let mut d = Decoder::new(data).unwrap();
    assert_eq!(d.decode_block(), Ok(Block::Ref(BlockRef { offset: -1776, length: 3 })));
}

#[test]
fn test_length_branches() {
    // One back-reference from each length encoding, all at offset -1 after
    // a single literal: lengths 4, 7, 8, 9, 16, 17 and 272 in turn.
    let x: u8 = 0x77;
    let lengths: Vec<u16> = vec![4, 7, 8, 9, 16, 17, 272];
    let mut total: usize = 1;
    let mut b = StreamBuilder::new();
    b.literal(x);
    for &len in &lengths {
        b.big_ref_near(1, 0xFF, len);
        total += len as usize;
    }
    b.end_of_file();
    let out = decompress(b.finish()).unwrap();
    assert_eq!(out.len(), total);
    assert!(out.iter().all(|&v| v == x));
}
