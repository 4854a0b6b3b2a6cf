//! Decoder for a bit-packed LZ-style compressed resource format.
//!
//! The compressed stream interleaves command bits, drawn 16 at a time from
//! little-endian command words, with raw data bytes.  Each decoded token is
//! either a literal byte, a back-reference into the bytes already produced,
//! or an end marker.  `decompress` expands a whole stream into the original
//! bytes, enforcing a 65535-byte ceiling on the output.

use vstd::prelude::*;

mod decoder;

pub use decoder::Decoder;

verus! {

use crate::decoder::Model;
use crate::decoder::spec_decode_block;
use crate::decoder::spec_init;
use crate::decoder::wf;

/// The ways a decode can fail: the stream ended before a needed byte or
/// command word, a back-reference pointed at or past the end of the output
/// produced so far, or the output outgrew the 65535-byte ceiling.
#[derive(Copy, Clone, Debug, PartialEq, Eq, Structural)]
pub enum UncompressError {
    Truncated,
    InvalidAddress { len: usize, offset: i16, start: u16 },
    OutputSizeOverflow,
}

/// A back-reference token: a signed displacement from the current end of the
/// output, and the number of bytes to copy.
#[derive(Copy, Clone, Debug, Eq, PartialEq, Structural)]
pub struct BlockRef {
    pub offset: i16,
    pub length: u16,
}

/// One decoded token.
#[derive(Copy, Clone, Debug, Eq, PartialEq, Structural)]
pub enum Block {
    Literal(u8),
    Ref(BlockRef),
    EndOfFile,
}

/// Where a back-reference starts reading: the current output length plus
/// the signed offset, in 16-bit wraparound arithmetic.
pub open spec fn spec_ref_start(len: u16, offset: i16) -> u16 {
    len.wrapping_add_signed(offset)
}

/// The bytes after copying `n` bytes one at a time, each read at `idx` and
/// appended before the next read.  A copy may read bytes it appended itself,
/// which reproduces periodic runs.
pub open spec fn spec_copy(out: Seq<u8>, idx: int, n: nat) -> Seq<u8>
    decreases n,
{
    if n == 0 {
        out
    } else {
        spec_copy(out.push(out[idx]), idx + 1, (n - 1) as nat)
    }
}

/// The outcome of decoding tokens from state `m` onto the output built so
/// far: tokens are expanded until the end marker, a back-reference starting
/// at or past the end of the output fails with `InvalidAddress`, and output
/// longer than 65535 bytes after any token fails with `OutputSizeOverflow`.
pub open spec fn spec_run(m: Model, out: Seq<u8>) -> Result<Seq<u8>, UncompressError>
    decreases m.input.len() - m.pos,
    via spec_run_decreases
{
    match spec_decode_block(m) {
        None => Err(UncompressError::Truncated),
        Some((b, m2)) => match b {
            Block::EndOfFile => Ok(out),
            Block::Literal(v) => {
                let out2 = out.push(v);
                if out2.len() > 0xffff {
                    Err(UncompressError::OutputSizeOverflow)
                } else {
                    spec_run(m2, out2)
                }
            },
            Block::Ref(r) => {
                let start = spec_ref_start(out.len() as u16, r.offset);
                if start >= out.len() {
                    Err(
                        UncompressError::InvalidAddress {
                            len: out.len() as usize,
                            offset: r.offset,
                            start: start,
                        },
                    )
                } else {
                    let out2 = spec_copy(out, start as int, r.length as nat);
                    if out2.len() > 0xffff {
                        Err(UncompressError::OutputSizeOverflow)
                    } else {
                        spec_run(m2, out2)
                    }
                }
            },
        },
    }
}

#[via_fn]
proof fn spec_run_decreases(m: Model, out: Seq<u8>) {
    crate::decoder::lemma_decode_block_progress(m);
}

/// What decompressing an input yields: the expansion of its token stream
/// onto an empty output, or `Truncated` when even the first command word is
/// missing.
pub open spec fn spec_decompress(input: Seq<u8>) -> Result<Seq<u8>, UncompressError> {
    match spec_init(input) {
        None => Err(UncompressError::Truncated),
        Some(m) => spec_run(m, Seq::empty()),
    }
}

/// How long a copy leaves the output: one byte longer per byte copied.
pub proof fn lemma_spec_copy_len(out: Seq<u8>, idx: int, n: nat)
    ensures
        spec_copy(out, idx, n).len() == out.len() + n,
    decreases n,
{
    if n > 0 {
        lemma_spec_copy_len(out.push(out[idx]), idx + 1, (n - 1) as nat);
    }
}

/// Decompression is deterministic: the outcome is a function of the input
/// bytes alone, so two decodes of the same bytes agree.
pub proof fn lemma_decompress_deterministic(
    input: Seq<u8>,
    r1: Result<Seq<u8>, UncompressError>,
    r2: Result<Seq<u8>, UncompressError>,
)
    requires
        r1 == spec_decompress(input),
        r2 == spec_decompress(input),
    ensures
        r1 == r2,
{
}

/// A back-reference whose start lands at or past the current end of the
/// output fails with `InvalidAddress`, carrying the offending offset and
/// the computed start for diagnosis.  (That no byte outside the output
/// produced so far is ever read is part of the verification of
/// `decompress` itself: every buffer index is proved in bounds.)
pub proof fn lemma_invalid_ref_rejected(m: Model, out: Seq<u8>, r: BlockRef, m2: Model)
    requires
        spec_decode_block(m) == Some((Block::Ref(r), m2)),
        spec_ref_start(out.len() as u16, r.offset) >= out.len(),
    ensures
        spec_run(m, out) == Err::<Seq<u8>, UncompressError>(
            UncompressError::InvalidAddress {
                len: out.len() as usize,
                offset: r.offset,
                start: spec_ref_start(out.len() as u16, r.offset),
            },
        ),
{
}

/// A literal that drives the output past 65535 bytes fails with
/// `OutputSizeOverflow` at that very token.
pub proof fn lemma_ceiling_literal(m: Model, out: Seq<u8>, v: u8, m2: Model)
    requires
        spec_decode_block(m) == Some((Block::Literal(v), m2)),
        out.len() + 1 > 0xffff,
    ensures
        spec_run(m, out) == Err::<Seq<u8>, UncompressError>(UncompressError::OutputSizeOverflow),
{
}

/// A back-reference that drives the output past 65535 bytes fails with
/// `OutputSizeOverflow` at that very token.
pub proof fn lemma_ceiling_ref(m: Model, out: Seq<u8>, r: BlockRef, m2: Model)
    requires
        spec_decode_block(m) == Some((Block::Ref(r), m2)),
        spec_ref_start(out.len() as u16, r.offset) < out.len(),
        out.len() + r.length > 0xffff,
    ensures
        spec_run(m, out) == Err::<Seq<u8>, UncompressError>(UncompressError::OutputSizeOverflow),
{
    lemma_spec_copy_len(out, spec_ref_start(out.len() as u16, r.offset) as int, r.length as nat);
}

/// Decompress a whole input stream.
///
/// Returns exactly what `spec_decompress` ascribes to the input bytes: the
/// decompressed output on success, and the first error the token stream
/// runs into otherwise.
#[verifier::loop_isolation(false)]
pub fn decompress(input: Vec<u8>) -> (r: Result<Vec<u8>, UncompressError>)
    ensures
        match r {
            Ok(out) => spec_decompress(input@) == Ok::<Seq<u8>, UncompressError>(out@)
                && out@.len() <= 0xffff,
            Err(e) => spec_decompress(input@) == Err::<Seq<u8>, UncompressError>(e),
        },
{
    let ghost input_seq = input@;
    let mut decoder = match Decoder::new(input) {
        Ok(d) => d,
        Err(e) => {
            return Err(e);
        },
    };
    let ghost m0 = decoder@;
    let mut output: Vec<u8> = Vec::new();
    loop
        invariant
            wf(decoder@),
            output@.len() <= 0xffff,
            spec_run(m0, Seq::empty()) == spec_run(decoder@, output@),
            spec_decompress(input_seq) == spec_run(m0, Seq::empty()),
        decreases decoder@.input.len() - decoder@.pos,
    {
        let ghost m_pre = decoder@;
        proof {
            crate::decoder::lemma_decode_block_progress(m_pre);
        }
        let block = match decoder.decode_block() {
            Ok(b) => b,
            Err(e) => {
                return Err(e);
            },
        };
        match block {
            Block::EndOfFile => {
                return Ok(output);
            },
            Block::Literal(value) => {
                output.push(value);
            },
            Block::Ref(block_ref) => {
                let offset = block_ref.offset;
                let length = block_ref.length;
                let len16: u16 = output.len() as u16;
                let start16: u16 = len16.wrapping_add_signed(offset);
                let start: usize = start16 as usize;
                if start >= output.len() {
                    return Err(
                        UncompressError::InvalidAddress {
                            len: output.len(),
                            offset,
                            start: start16,
                        },
                    );
                }
                let end: usize = start + (length as usize);
                let ghost out0 = output@;
                let mut i: usize = start;
                while i < end
                    invariant
                        start <= i <= end,
                        end == start + length,
                        start < out0.len(),
                        output@.len() == out0.len() + (i - start),
                        spec_copy(out0, start as int, length as nat) == spec_copy(
                            output@,
                            i as int,
                            (end - i) as nat,
                        ),
                    decreases end - i,
                {
                    let value = output[i];
                    output.push(value);
                    i += 1;
                }
            },
        }
        if output.len() > 0xffff {
            return Err(UncompressError::OutputSizeOverflow);
        }
    }
}

} // verus!

