//! The bitstream decoder: a command-bit source refilled from 16-bit
//! little-endian words, and the token decoder built on top of it.
//!
//! Every executable step is specified against `Model`, a mathematical view of
//! the decoder state (the input bytes, the read position, and the current
//! command word).  The `spec_*` functions define, once and for all, what each
//! read of the stream yields and where it leaves the state; the executable
//! code is proved to follow them exactly.

use vstd::prelude::*;

verus! {

use crate::Block;
use crate::BlockRef;
use crate::UncompressError;

/// Mathematical view of the decoder state: the whole input, the position of
/// the next unread byte, and the current command word with its count of
/// unread bits.
#[verifier::ext_equal]
pub ghost struct Model {
    pub input: Seq<u8>,
    pub pos: int,
    pub cmd_data: u16,
    pub cmd_count: int,
}

/// A well-formed decoder state: the position lies inside the input and the
/// command word still holds at least one unread bit (a fresh word holds 16).
pub open spec fn wf(m: Model) -> bool {
    &&& 0 <= m.pos <= m.input.len()
    &&& 1 <= m.cmd_count <= 16
}

/// The 16-bit value of two little-endian bytes.
pub open spec fn spec_word(b0: u8, b1: u8) -> u16 {
    (b0 + b1 * 256) as u16
}

/// Reading a fresh command word: two bytes, little-endian, 16 unread bits.
/// Fails (None) when fewer than two bytes remain.
pub open spec fn spec_refill(m: Model) -> Option<Model> {
    if m.pos + 2 <= m.input.len() {
        Some(Model {
            input: m.input,
            pos: m.pos + 2,
            cmd_data: spec_word(m.input[m.pos], m.input[m.pos + 1]),
            cmd_count: 16,
        })
    } else {
        None
    }
}

/// Taking the least-significant bit out of the command word.
pub open spec fn spec_take_bit(m: Model) -> (u8, Model) {
    (
        (m.cmd_data & 1) as u8,
        Model {
            input: m.input,
            pos: m.pos,
            cmd_data: m.cmd_data >> 1,
            cmd_count: m.cmd_count - 1,
        },
    )
}

/// One command bit: take the low bit, then refill the word at once if that
/// emptied it.  The eager refill is part of the format: a multi-bit read that
/// crosses a word boundary sees the refill between its bit extractions.
pub open spec fn spec_next_bit(m: Model) -> Option<(u8, Model)> {
    let (bit, m1) = spec_take_bit(m);
    if m1.cmd_count == 0 {
        match spec_refill(m1) {
            Some(m2) => Some((bit, m2)),
            None => None,
        }
    } else {
        Some((bit, m1))
    }
}

/// `n` command bits composed big-endian onto the accumulator `acc`.
pub open spec fn spec_next_bits(m: Model, n: nat, acc: u8) -> Option<(u8, Model)>
    decreases n,
{
    if n == 0 {
        Some((acc, m))
    } else {
        match spec_next_bit(m) {
            Some((bit, m1)) => spec_next_bits(m1, (n - 1) as nat, (acc << 1) | bit),
            None => None,
        }
    }
}

/// One raw data byte from the input.
pub open spec fn spec_read_byte(m: Model) -> Option<(u8, Model)> {
    if m.pos < m.input.len() {
        Some((
            m.input[m.pos],
            Model { input: m.input, pos: m.pos + 1, cmd_data: m.cmd_data, cmd_count: m.cmd_count },
        ))
    } else {
        None
    }
}

/// The initial decoder state for an input: one command word read at the
/// start of the stream.
pub open spec fn spec_init(input: Seq<u8>) -> Option<Model> {
    spec_refill(Model { input: input, pos: 0, cmd_data: 0, cmd_count: 0 })
}

/// Two's-complement correction of the high offset byte accumulated by the
/// extension rounds of a big back-reference: `offset_h - tmp`, wrapping in a
/// byte.
pub open spec fn spec_correct_high(offset_h: u8, tmp: u8) -> u8 {
    ((offset_h + 256 - tmp) % 256) as u8
}

/// A 16-bit signed offset assembled from its high and low bytes.
pub open spec fn spec_make_offset(offset_h: u8, offset_l: u8) -> i16 {
    (((offset_h as u16) << 8) | (offset_l as u16)) as i16
}

/// The extension rounds of a big back-reference's high byte: up to `rounds`
/// times, a set command bit stops the extension, an unset one shifts a
/// further command bit into `offset_h` and doubles `tmp`.
pub open spec fn spec_big_ref_extend(m: Model, offset_h: u8, tmp: u8, rounds: nat) -> Option<
    (u8, u8, Model),
>
    decreases rounds,
{
    if rounds == 0 {
        Some((offset_h, tmp, m))
    } else {
        match spec_next_bit(m) {
            None => None,
            Some((stop, m1)) => {
                if stop == 1 {
                    Some((offset_h, tmp, m1))
                } else {
                    match spec_next_bit(m1) {
                        None => None,
                        Some((b, m2)) => spec_big_ref_extend(
                            m2,
                            (offset_h << 1) | b,
                            (tmp << 1) as u8,
                            (rounds - 1) as nat,
                        ),
                    }
                }
            },
        }
    }
}

/// The length code of a big back-reference, after `i - 3` unary probe bits
/// were already read unset: a set bit at probe `i` yields length `i` (the
/// probes cover 3 through 6), and after four unset probes the tail encodings
/// take over.
pub open spec fn spec_probe_length(m: Model, i: int) -> Option<(u16, Model)>
    decreases 7 - i,
{
    if i >= 7 {
        spec_length_tail(m)
    } else {
        match spec_next_bit(m) {
            None => None,
            Some((bit, m1)) => {
                if bit == 1 {
                    Some((i as u16, m1))
                } else {
                    spec_probe_length(m1, i + 1)
                }
            },
        }
    }
}

/// The length encodings behind four unset probe bits: one more command bit
/// picks 7 or 8; else a set bit selects a raw byte `v` giving `v + 0x11`
/// (17 through 272); else three command bits give 9 through 16.
pub open spec fn spec_length_tail(m: Model) -> Option<(u16, Model)> {
    match spec_next_bit(m) {
        None => None,
        Some((b7, m1)) => {
            if b7 == 1 {
                match spec_next_bit(m1) {
                    None => None,
                    Some((b, m2)) => Some(((7 + b) as u16, m2)),
                }
            } else {
                match spec_next_bit(m1) {
                    None => None,
                    Some((b8, m2)) => {
                        if b8 == 1 {
                            match spec_read_byte(m2) {
                                None => None,
                                Some((v, m3)) => Some(((v + 0x11) as u16, m3)),
                            }
                        } else {
                            match spec_next_bits(m2, 3, 0) {
                                None => None,
                                Some((bits, m3)) => Some((((bits + 9) % 256) as u16, m3)),
                            }
                        }
                    },
                }
            }
        },
    }
}

/// The whole length code of a big back-reference.
pub open spec fn spec_decode_length(m: Model) -> Option<(u16, Model)> {
    spec_probe_length(m, 3)
}

/// A big back-reference after its low offset byte `offset_l`: the high byte
/// starts as `0xFE` or `0xFF`, a set command bit keeps it, an unset one runs
/// the extension rounds and the two's-complement correction; then the length
/// code follows.
pub open spec fn spec_decode_big_ref(m: Model, offset_l: u8) -> Option<(BlockRef, Model)> {
    match spec_next_bit(m) {
        None => None,
        Some((b0, m1)) => {
            let high0 = (0xfe as u8) | b0;
            match spec_next_bit(m1) {
                None => None,
                Some((keep, m2)) => {
                    let high_done = if keep == 1 {
                        Some((high0, m2))
                    } else {
                        match spec_big_ref_extend(m2, high0, 2, 3) {
                            None => None,
                            Some((h, tmp, m3)) => Some((spec_correct_high(h, tmp), m3)),
                        }
                    };
                    match high_done {
                        None => None,
                        Some((offset_h, m4)) => match spec_decode_length(m4) {
                            None => None,
                            Some((length, m5)) => Some(
                                (
                                    BlockRef {
                                        offset: spec_make_offset(offset_h, offset_l),
                                        length: length,
                                    },
                                    m5,
                                ),
                            ),
                        },
                    }
                },
            }
        },
    }
}

/// A small back-reference after its low offset byte: three command bits give
/// the high byte as `(0xF8 | bits) - 1`, and the length is fixed at 2.
pub open spec fn spec_decode_small_ref(m: Model, offset_l: u8) -> Option<(BlockRef, Model)> {
    match spec_next_bits(m, 3, 0) {
        None => None,
        Some((bits, m1)) => Some(
            (
                BlockRef {
                    offset: spec_make_offset((((0xf8 as u8) | bits) - 1) as u8, offset_l),
                    length: 2,
                },
                m1,
            ),
        ),
    }
}

/// One whole token.  A set command bit announces a literal byte.  Otherwise
/// a second bit picks the big back-reference encoding; else, after the low
/// offset byte, a third bit picks the small encoding; else a low byte of
/// `0xFF` ends the stream, and any other low byte is a fixed short copy of
/// two bytes at displacement `0xFF00 | offset_l`.
pub open spec fn spec_decode_block(m: Model) -> Option<(Block, Model)> {
    match spec_next_bit(m) {
        None => None,
        Some((lit, m1)) => {
            if lit == 1 {
                match spec_read_byte(m1) {
                    None => None,
                    Some((v, m2)) => Some((Block::Literal(v), m2)),
                }
            } else {
                match spec_next_bit(m1) {
                    None => None,
                    Some((big, m2)) => match spec_read_byte(m2) {
                        None => None,
                        Some((offset_l, m3)) => {
                            if big == 1 {
                                match spec_decode_big_ref(m3, offset_l) {
                                    None => None,
                                    Some((r, m4)) => Some((Block::Ref(r), m4)),
                                }
                            } else {
                                match spec_next_bit(m3) {
                                    None => None,
                                    Some((small, m4)) => {
                                        if small == 1 {
                                            match spec_decode_small_ref(m4, offset_l) {
                                                None => None,
                                                Some((r, m5)) => Some((Block::Ref(r), m5)),
                                            }
                                        } else if offset_l == 0xff {
                                            Some((Block::EndOfFile, m4))
                                        } else {
                                            Some(
                                                (
                                                    Block::Ref(
                                                        BlockRef {
                                                            offset: spec_make_offset(0xff, offset_l),
                                                            length: 2,
                                                        },
                                                    ),
                                                    m4,
                                                ),
                                            )
                                        }
                                    },
                                }
                            }
                        },
                    },
                }
            }
        },
    }
}

/// Extracting the sixteenth and last bit of a command word refills the word
/// at once, before the bit reaches its consumer: the following state holds a
/// fresh word read at the old position with all 16 bits unread, so a
/// multi-bit read that crosses a word boundary draws its remaining bits from
/// the new word while the raw bytes around it stay aligned.  When no whole
/// word is left to read, the extraction itself fails with a truncation.
pub proof fn lemma_refill_on_sixteenth_bit(m: Model)
    requires
        m.cmd_count == 1,
    ensures
        m.pos + 2 <= m.input.len() ==> spec_next_bit(m) == Some(
            (
                ((m.cmd_data & 1) as u8),
                Model {
                    input: m.input,
                    pos: m.pos + 2,
                    cmd_data: spec_word(m.input[m.pos], m.input[m.pos + 1]),
                    cmd_count: 16,
                },
            ),
        ),
        m.pos + 2 > m.input.len() ==> spec_next_bit(m) is None,
{
}

/// One spec step leaves the input alone and never moves the position back;
/// where it moves it forward, it stays inside the input.
pub open spec fn advances(m: Model, m2: Model) -> bool {
    &&& m2.input == m.input
    &&& m.pos <= m2.pos
    &&& (m2.pos == m.pos || m2.pos <= m.input.len())
}

pub proof fn lemma_next_bit_advances(m: Model)
    ensures
        spec_next_bit(m) matches Some((b, m2)) ==> advances(m, m2),
{
}

pub proof fn lemma_next_bits_advances(m: Model, n: nat, acc: u8)
    ensures
        spec_next_bits(m, n, acc) matches Some((v, m2)) ==> advances(m, m2),
    decreases n,
{
    if n > 0 {
        match spec_next_bit(m) {
            Some((bit, m1)) => {
                lemma_next_bit_advances(m);
                lemma_next_bits_advances(m1, (n - 1) as nat, (acc << 1) | bit);
            },
            None => {},
        }
    }
}

pub proof fn lemma_read_byte_advances(m: Model)
    ensures
        spec_read_byte(m) matches Some((v, m2)) ==> advances(m, m2) && m2.pos == m.pos + 1
            && m2.pos <= m.input.len(),
{
}

pub proof fn lemma_big_ref_extend_advances(m: Model, offset_h: u8, tmp: u8, rounds: nat)
    ensures
        spec_big_ref_extend(m, offset_h, tmp, rounds) matches Some((h, t, m2)) ==> advances(m, m2),
    decreases rounds,
{
    if rounds > 0 {
        match spec_next_bit(m) {
            Some((stop, m1)) => {
                lemma_next_bit_advances(m);
                if stop != 1 {
                    match spec_next_bit(m1) {
                        Some((b, m2)) => {
                            lemma_next_bit_advances(m1);
                            lemma_big_ref_extend_advances(
                                m2,
                                (offset_h << 1) | b,
                                (tmp << 1) as u8,
                                (rounds - 1) as nat,
                            );
                        },
                        None => {},
                    }
                }
            },
            None => {},
        }
    }
}

pub proof fn lemma_length_tail_advances(m: Model)
    ensures
        spec_length_tail(m) matches Some((v, m2)) ==> advances(m, m2),
{
    match spec_next_bit(m) {
        Some((b7, m1)) => {
            lemma_next_bit_advances(m);
            if b7 == 1 {
                lemma_next_bit_advances(m1);
            } else {
                match spec_next_bit(m1) {
                    Some((b8, m2)) => {
                        lemma_next_bit_advances(m1);
                        if b8 == 1 {
                            lemma_read_byte_advances(m2);
                        } else {
                            lemma_next_bits_advances(m2, 3, 0);
                        }
                    },
                    None => {},
                }
            }
        },
        None => {},
    }
}

pub proof fn lemma_probe_length_advances(m: Model, i: int)
    ensures
        spec_probe_length(m, i) matches Some((v, m2)) ==> advances(m, m2),
    decreases 7 - i,
{
    if i >= 7 {
        lemma_length_tail_advances(m);
    } else {
        match spec_next_bit(m) {
            Some((bit, m1)) => {
                lemma_next_bit_advances(m);
                if bit != 1 {
                    lemma_probe_length_advances(m1, i + 1);
                }
            },
            None => {},
        }
    }
}

pub proof fn lemma_decode_big_ref_advances(m: Model, offset_l: u8)
    ensures
        spec_decode_big_ref(m, offset_l) matches Some((r, m2)) ==> advances(m, m2),
{
    match spec_next_bit(m) {
        Some((b0, m1)) => {
            lemma_next_bit_advances(m);
            match spec_next_bit(m1) {
                Some((keep, m2)) => {
                    lemma_next_bit_advances(m1);
                    if keep == 1 {
                        lemma_probe_length_advances(m2, 3);
                    } else {
                        lemma_big_ref_extend_advances(m2, (0xfe as u8) | b0, 2, 3);
                        match spec_big_ref_extend(m2, (0xfe as u8) | b0, 2, 3) {
                            Some((h, tmp, m3)) => {
                                lemma_probe_length_advances(m3, 3);
                            },
                            None => {},
                        }
                    }
                },
                None => {},
            }
        },
        None => {},
    }
}

pub proof fn lemma_decode_small_ref_advances(m: Model, offset_l: u8)
    ensures
        spec_decode_small_ref(m, offset_l) matches Some((r, m2)) ==> advances(m, m2),
{
    lemma_next_bits_advances(m, 3, 0);
}

/// A decoded token leaves the input alone, moves the position strictly
/// forward (every token reads at least one raw byte), and leaves it inside
/// the input.
pub proof fn lemma_decode_block_progress(m: Model)
    ensures
        spec_decode_block(m) matches Some((b, m2)) ==> m2.input == m.input && m.pos < m2.pos
            && m2.pos <= m.input.len(),
{
    match spec_next_bit(m) {
        Some((lit, m1)) => {
            lemma_next_bit_advances(m);
            if lit == 1 {
                lemma_read_byte_advances(m1);
            } else {
                match spec_next_bit(m1) {
                    Some((big, m2)) => {
                        lemma_next_bit_advances(m1);
                        match spec_read_byte(m2) {
                            Some((offset_l, m3)) => {
                                lemma_read_byte_advances(m2);
                                if big == 1 {
                                    lemma_decode_big_ref_advances(m3, offset_l);
                                } else {
                                    match spec_next_bit(m3) {
                                        Some((small, m4)) => {
                                            lemma_next_bit_advances(m3);
                                            if small == 1 {
                                                lemma_decode_small_ref_advances(m4, offset_l);
                                            }
                                        },
                                        None => {},
                                    }
                                }
                            },
                            None => {},
                        }
                    },
                    None => {},
                }
            }
        },
        None => {},
    }
}

/// The current command word and how many of its bits are still unread.
#[derive(Copy, Clone, Debug)]
struct CommandBlock {
    data: u16,
    count: usize,
}

impl CommandBlock {
    /// Read a fresh command word: two little-endian bytes at `pos`.
    fn read_from(input: &Vec<u8>, pos: usize) -> (r: Result<(CommandBlock, usize), UncompressError>)
        requires
            pos <= input@.len(),
        ensures
            match r {
                Ok((cb, pos2)) => {
                    &&& pos + 2 <= input@.len()
                    &&& cb.data == spec_word(input@[pos as int], input@[pos + 1])
                    &&& cb.count == 16
                    &&& pos2 == pos + 2
                },
                Err(e) => pos + 2 > input@.len() && e == UncompressError::Truncated,
            },
    {
        if input.len() - pos >= 2 {
            let b0 = input[pos];
            let b1 = input[pos + 1];
            let data: u16 = (b0 as u16) + (b1 as u16) * 256;
            Ok((CommandBlock { data, count: 16 }, pos + 2))
        } else {
            Err(UncompressError::Truncated)
        }
    }

    /// Take the least-significant unread bit out of the word.
    fn shift_bit(&mut self) -> (bit: u8)
        requires
            old(self).count >= 1,
        ensures
            bit == (old(self).data & 1) as u8,
            final(self).data == old(self).data >> 1,
            final(self).count == old(self).count - 1,
    {
        proof {
            let d = self.data;
            assert((d & 1) < 2) by (bit_vector);
        }
        let bit = (self.data & 0x01) as u8;
        self.count -= 1;
        self.data >>= 1;
        bit
    }

    /// Whether every bit of the word has been read.
    fn is_empty(&self) -> (r: bool)
        ensures
            r == (self.count == 0),
    {
        self.count == 0
    }
}

/// The token decoder: the input bytes, the position of the next unread
/// byte, and the current command word.
#[derive(Clone, Debug)]
pub struct Decoder {
    input: Vec<u8>,
    pos: usize,
    cmd_block: CommandBlock,
}

impl View for Decoder {
    type V = Model;

    closed spec fn view(&self) -> Model {
        Model {
            input: self.input@,
            pos: self.pos as int,
            cmd_data: self.cmd_block.data,
            cmd_count: self.cmd_block.count as int,
        }
    }
}

impl Decoder {
    /// Set up a decoder over the whole input, reading the first command
    /// word.  Fails with `Truncated` when the input holds fewer than two
    /// bytes.
    pub fn new(input: Vec<u8>) -> (r: Result<Decoder, UncompressError>)
        ensures
            match r {
                Ok(d) => spec_init(input@) == Some(d@) && wf(d@),
                Err(e) => spec_init(input@) is None && e == UncompressError::Truncated,
            },
    {
        match CommandBlock::read_from(&input, 0) {
            Ok((cmd_block, pos)) => {
                Ok(Decoder { input, pos, cmd_block })
            },
            Err(e) => Err(e),
        }
    }

    /// One raw data byte at the current position.
    fn read_byte(&mut self) -> (r: Result<u8, UncompressError>)
        requires
            wf(old(self)@),
        ensures
            match r {
                Ok(v) => spec_read_byte(old(self)@) == Some((v, final(self)@)) && wf(final(self)@),
                Err(e) => spec_read_byte(old(self)@) is None && e == UncompressError::Truncated,
            },
    {
        if self.pos < self.input.len() {
            let v = self.input[self.pos];
            self.pos += 1;
            Ok(v)
        } else {
            Err(UncompressError::Truncated)
        }
    }

    /// One command bit, as a boolean.
    fn next_cmd_bit(&mut self) -> (r: Result<bool, UncompressError>)
        requires
            wf(old(self)@),
        ensures
            match r {
                Ok(b) => spec_next_bit(old(self)@) == Some(
                    ((if b { 1u8 } else { 0u8 }), final(self)@),
                ) && wf(final(self)@),
                Err(e) => spec_next_bit(old(self)@) is None && e == UncompressError::Truncated,
            },
    {
        proof {
            lemma_next_bits_one(old(self)@);
            let d = old(self)@.cmd_data;
            assert((d & 1) < 2) by (bit_vector);
        }
        let bits = self.next_cmd_bits(1)?;
        Ok(bits == 0x01)
    }

    /// `bits` command bits composed big-endian, each extraction refilling
    /// the command word at once when it runs empty.
    fn next_cmd_bits(&mut self, bits: usize) -> (r: Result<u8, UncompressError>)
        requires
            wf(old(self)@),
        ensures
            match r {
                Ok(v) => spec_next_bits(old(self)@, bits as nat, 0) == Some((v, final(self)@))
                    && wf(final(self)@),
                Err(e) => spec_next_bits(old(self)@, bits as nat, 0) is None && e
                    == UncompressError::Truncated,
            },
    {
        let mut result: u8 = 0;
        let mut i: usize = 0;
        while i < bits
            invariant
                i <= bits,
                wf(self@),
                spec_next_bits(old(self)@, bits as nat, 0) == spec_next_bits(
                    self@,
                    (bits - i) as nat,
                    result,
                ),
            decreases bits - i,
        {
            // The refill must come right after the extraction that empties
            // the word, before the bit is folded into the result: a
            // multi-bit read that crosses a word boundary depends on it.
            let bit = self.cmd_block.shift_bit();
            if self.cmd_block.is_empty() {
                match CommandBlock::read_from(&self.input, self.pos) {
                    Ok((cb, pos)) => {
                        self.cmd_block = cb;
                        self.pos = pos;
                    },
                    Err(e) => {
                        return Err(e);
                    },
                }
            }
            result = (result << 1) | bit;
            i += 1;
        }
        Ok(result)
    }

    /// Decode the next token from the stream.
    pub fn decode_block(&mut self) -> (r: Result<Block, UncompressError>)
        requires
            wf(old(self)@),
        ensures
            match r {
                Ok(b) => spec_decode_block(old(self)@) == Some((b, final(self)@)) && wf(
                    final(self)@,
                ),
                Err(e) => spec_decode_block(old(self)@) is None && e == UncompressError::Truncated,
            },
    {
        if self.next_cmd_bit()? {
            let value = self.read_byte()?;
            Ok(Block::Literal(value))
        } else {
            let is_big_ref = self.next_cmd_bit()?;
            let offset_l = self.read_byte()?;
            if is_big_ref {
                let block_ref = self.decode_big_ref(offset_l)?;
                Ok(Block::Ref(block_ref))
            } else if self.next_cmd_bit()? {
                let block_ref = self.decode_small_ref(offset_l)?;
                Ok(Block::Ref(block_ref))
            } else if offset_l == 0xff {
                Ok(Block::EndOfFile)
            } else {
                let word: u16 = (((0xff as u8) as u16) << 8) | (offset_l as u16);
                let offset: i16 = #[verifier::truncate] (word as i16);
                Ok(Block::Ref(BlockRef { offset, length: 2 }))
            }
        }
    }

    /// Decode a big back-reference, given its low offset byte.
    #[verifier::loop_isolation(false)]
    fn decode_big_ref(&mut self, offset_l: u8) -> (r: Result<BlockRef, UncompressError>)
        requires
            wf(old(self)@),
        ensures
            match r {
                Ok(b) => spec_decode_big_ref(old(self)@, offset_l) == Some((b, final(self)@))
                    && wf(final(self)@),
                Err(e) => spec_decode_big_ref(old(self)@, offset_l) is None && e
                    == UncompressError::Truncated,
            },
    {
        proof {
            lemma_next_bits_one(old(self)@);
        }
        let mut offset_h: u8 = 0xfe | self.next_cmd_bits(1)?;
        let ghost high0 = offset_h;
        if !self.next_cmd_bit()? {
            let mut tmp: u8 = 2;
            let ghost m_ext = self@;
            let mut i: usize = 0;
            let mut done = false;
            while i < 3 && !done
                invariant
                    i <= 3,
                    wf(self@),
                    if done {
                        spec_big_ref_extend(m_ext, high0, 2, 3) == Some((offset_h, tmp, self@))
                    } else {
                        spec_big_ref_extend(m_ext, high0, 2, 3) == spec_big_ref_extend(
                            self@,
                            offset_h,
                            tmp,
                            (3 - i) as nat,
                        )
                    },
                decreases 3 - i + (if done { 0int } else { 1int }),
            {
                if self.next_cmd_bit()? {
                    done = true;
                } else {
                    proof {
                        lemma_next_bits_one(self@);
                    }
                    offset_h = (offset_h << 1) | self.next_cmd_bits(1)?;
                    tmp = tmp << 1;
                    i += 1;
                }
            }
            let v: u16 = (offset_h as u16) + 256 - (tmp as u16);
            offset_h = (v % 256) as u8;
        }
        let length = self.decode_length()?;
        let word: u16 = ((offset_h as u16) << 8) | (offset_l as u16);
        let offset: i16 = #[verifier::truncate] (word as i16);
        Ok(BlockRef { offset, length })
    }

    /// Decode a small back-reference, given its low offset byte.
    fn decode_small_ref(&mut self, offset_l: u8) -> (r: Result<BlockRef, UncompressError>)
        requires
            wf(old(self)@),
        ensures
            match r {
                Ok(b) => spec_decode_small_ref(old(self)@, offset_l) == Some((b, final(self)@))
                    && wf(final(self)@),
                Err(e) => spec_decode_small_ref(old(self)@, offset_l) is None && e
                    == UncompressError::Truncated,
            },
    {
        let bits = self.next_cmd_bits(3)?;
        proof {
            assert((0xf8u8 | bits) >= 0xf8) by (bit_vector);
        }
        let offset_h = (0xf8 | bits) - 1;
        let word: u16 = ((offset_h as u16) << 8) | (offset_l as u16);
        let offset: i16 = #[verifier::truncate] (word as i16);
        Ok(BlockRef { offset, length: 2 })
    }

    /// Decode the length code of a big back-reference.
    fn decode_length(&mut self) -> (r: Result<u16, UncompressError>)
        requires
            wf(old(self)@),
        ensures
            match r {
                Ok(v) => spec_decode_length(old(self)@) == Some((v, final(self)@)) && wf(
                    final(self)@,
                ),
                Err(e) => spec_decode_length(old(self)@) is None && e
                    == UncompressError::Truncated,
            },
    {
        let mut i: usize = 3;
        while i < 7
            invariant
                3 <= i <= 7,
                wf(self@),
                spec_decode_length(old(self)@) == spec_probe_length(self@, i as int),
            decreases 7 - i,
        {
            if self.next_cmd_bit()? {
                return Ok(i as u16);
            }
            i += 1;
        }
        if self.next_cmd_bit()? {
            proof {
                lemma_next_bits_one(self@);
            }
            let bit = self.next_cmd_bits(1)?;
            Ok(7 + (bit as u16))
        } else if self.next_cmd_bit()? {
            let value = self.read_byte()?;
            Ok((value as u16) + 0x11)
        } else {
            let bits = self.next_cmd_bits(3)?;
            Ok(((bits as u16) + 9) % 256)
        }
    }
}

/// One command bit through the accumulator form: reading a single bit onto
/// an empty accumulator is the bit itself.
proof fn lemma_next_bits_one(m: Model)
    ensures
        spec_next_bits(m, 1, 0) == spec_next_bit(m),
{
    match spec_next_bit(m) {
        Some((bit, m1)) => {
            assert((0u8 << 1) | bit == bit) by (bit_vector);
            assert(spec_next_bits(m1, 0, (0u8 << 1) | bit) == Some(((0u8 << 1) | bit, m1)));
        },
        None => {},
    }
}

} // verus!
