//! The block format: what every block decompresses to.
use crate::bytes;
use crate::error::Error;
use crate::tag;
use crate::MAX_INPUT_SIZE;
use vstd::prelude::*;

verus! {

/// The header of a block, read from the front of `input`: the number of bytes
/// that it takes and the length that it gives for the decompressed bytes.
pub open spec fn header(input: Seq<u8>) -> Result<(nat, nat), Error> {
    match bytes::varu64(input) {
        Some((value, len)) => if value <= MAX_INPUT_SIZE {
            Ok((len, value))
        } else {
            Err(Error::TooBig { given: value as u64, max: MAX_INPUT_SIZE })
        },
        None => Err(Error::Header),
    }
}

/// What the element at some position of a block does.
pub enum Step {
    /// Appends the `len` bytes of the block at `start`. The next element stands
    /// right behind them.
    Literal { start: int, len: int },
    /// Appends `len` bytes, each of which equals the one `offset` positions
    /// before it. The next element stands at `next`.
    Copy { next: int, offset: int, len: int },
    /// Nothing: the element cannot be decompressed.
    Refuse { error: Error },
}

/// The step of a literal of `len` bytes that stand at `start`.
pub open spec fn literal_data(src: Seq<u8>, start: int, len: int, d: int, dst_len: int) -> Step {
    if len <= src.len() - start && len <= dst_len - d {
        Step::Literal { start, len }
    } else {
        Step::Refuse {
            error: Error::Literal {
                len: len as u64,
                src_len: (src.len() - start) as u64,
                dst_len: (dst_len - d) as u64,
            },
        }
    }
}

/// The number of bytes that hold the length of a literal whose tag byte gives
/// `len`.
pub open spec fn literal_width(len: int) -> int {
    if len <= 60 {
        0
    } else {
        len - 60
    }
}

/// The step of a literal whose tag byte gives `len` and stands right before `s`.
/// Up to 60, this is its length. Otherwise one to four bytes follow the tag byte
/// and hold the length less one: one byte for 61, up to four for 64.
pub open spec fn literal_body(src: Seq<u8>, s: int, len: int, d: int, dst_len: int) -> Step {
    let width = literal_width(len);
    if src.len() - s < width {
        Step::Refuse {
            error: Error::Literal {
                len: 4,
                src_len: (src.len() - s) as u64,
                dst_len: (dst_len - d) as u64,
            },
        }
    } else {
        let data_len = if width == 0 {
            len
        } else {
            bytes::le_value(src, s, width as nat) as int + 1
        };
        literal_data(src, s + width, data_len, d, dst_len)
    }
}

/// The step of the literal whose tag byte stands at `s`.
pub open spec fn literal_step(src: Seq<u8>, s: int, d: int, dst_len: int) -> Step {
    literal_body(src, s + 1, src[s] as int / 4 + 1, d, dst_len)
}

/// The step of the copy whose tag byte stands at `s`.
pub open spec fn copy_step(src: Seq<u8>, s: int, d: int, dst_len: int) -> Step {
    let trailer = tag::trailer_len(src[s]);
    let offset = tag::copy_offset(src[s], bytes::le_value(src, s + 1, trailer as nat));
    let len = tag::copy_len(src[s]);
    if src.len() - (s + 1) < trailer {
        Step::Refuse {
            error: Error::CopyRead {
                len: trailer as u64,
                src_len: (src.len() - (s + 1)) as u64,
            },
        }
    } else if offset == 0 || offset > d {
        Step::Refuse { error: Error::Offset { offset: offset as u64, dst_pos: d as u64 } }
    } else if len > dst_len - d {
        Step::Refuse {
            error: Error::CopyWrite { len: len as u64, dst_len: (dst_len - d) as u64 },
        }
    } else {
        Step::Copy { next: s + 1 + trailer, offset, len }
    }
}

/// The step of the element whose tag byte stands at `s`, after `d` bytes of
/// `dst_len` have been decompressed.
pub open spec fn step(src: Seq<u8>, s: int, d: int, dst_len: int) -> Step {
    if tag::kind(src[s]) == 0 {
        literal_step(src, s, d, dst_len)
    } else {
        copy_step(src, s, d, dst_len)
    }
}

/// The `len` bytes that a copy with the given offset appends to `out`: the last
/// `offset` bytes of `out`, over and over.
pub open spec fn repeated(out: Seq<u8>, offset: int, len: int) -> Seq<u8> {
    Seq::new(len as nat, |i: int| out[out.len() - offset + i % offset])
}

/// What comes of decompressing the elements of a block.
pub struct Decoded {
    /// The bytes that the elements decompress to, up to the end of the block or
    /// to the first element that is refused.
    pub bytes: Seq<u8>,
    /// Why the block cannot be decompressed, if it cannot.
    pub error: Option<Error>,
}

/// Decompresses the elements of `src` from position `s` on, where `out` is what
/// the elements before it decompress to and `dst_len` is the length of the
/// decompressed bytes that the header gives.
pub open spec fn decode(src: Seq<u8>, s: int, out: Seq<u8>, dst_len: int) -> Decoded
    decreases src.len() - s,
{
    if s >= src.len() {
        Decoded {
            bytes: out,
            error: if out.len() == dst_len {
                None
            } else {
                Some(
                    Error::HeaderMismatch {
                        expected_len: dst_len as u64,
                        got_len: out.len() as u64,
                    },
                )
            },
        }
    } else {
        match step(src, s, out.len() as int, dst_len) {
            Step::Literal { start, len } => decode(
                src,
                start + len,
                out + src.subrange(start, start + len),
                dst_len,
            ),
            Step::Copy { next, offset, len } => decode(
                src,
                next,
                out + repeated(out, offset, len),
                dst_len,
            ),
            Step::Refuse { error } => Decoded { bytes: out, error: Some(error) },
        }
    }
}

/// The decompressed bytes start with what was decompressed before, never exceed
/// the length that the header gives, and reach it if there is no error.
pub proof fn lemma_decode_len(src: Seq<u8>, s: int, out: Seq<u8>, dst_len: int)
    requires
        0 <= s,
        out.len() <= dst_len,
    ensures
        out.is_prefix_of(decode(src, s, out, dst_len).bytes),
        decode(src, s, out, dst_len).bytes.len() <= dst_len,
        decode(src, s, out, dst_len).error is None ==> decode(src, s, out, dst_len).bytes.len()
            == dst_len,
    decreases src.len() - s,
{
    if s < src.len() {
        match step(src, s, out.len() as int, dst_len) {
            Step::Literal { start, len } => {
                lemma_decode_len(
                    src,
                    start + len,
                    out + src.subrange(start, start + len),
                    dst_len,
                );
            },
            Step::Copy { next, offset, len } => {
                lemma_decode_len(src, next, out + repeated(out, offset, len), dst_len);
            },
            Step::Refuse { error } => {},
        }
    }
}

/// Decompressing goes on behind a copy that is not refused.
pub proof fn lemma_decode_copy(src: Seq<u8>, s: int, out: Seq<u8>, dst_len: int)
    requires
        0 <= s < src.len(),
        tag::kind(src[s]) != 0,
    ensures
        match copy_step(src, s, out.len() as int, dst_len) {
            Step::Copy { next, offset, len } => decode(src, s, out, dst_len) == decode(
                src,
                next,
                out + repeated(out, offset, len),
                dst_len,
            ),
            Step::Refuse { error } => decode(src, s, out, dst_len) == (Decoded {
                bytes: out,
                error: Some(error),
            }),
            Step::Literal { .. } => false,
        },
{
}

/// Decompressing goes on behind a literal that is not refused.
pub proof fn lemma_decode_literal(src: Seq<u8>, s: int, out: Seq<u8>, dst_len: int)
    requires
        0 <= s < src.len(),
        tag::kind(src[s]) == 0,
    ensures
        match literal_step(src, s, out.len() as int, dst_len) {
            Step::Literal { start, len } => decode(src, s, out, dst_len) == decode(
                src,
                start + len,
                out + src.subrange(start, start + len),
                dst_len,
            ),
            Step::Refuse { error } => decode(src, s, out, dst_len) == (Decoded {
                bytes: out,
                error: Some(error),
            }),
            Step::Copy { .. } => false,
        },
{
}

/// What comes of decompressing the elements of a block whose header takes `len`
/// bytes and gives the length `dst_len`.
pub open spec fn decode_block(input: Seq<u8>, len: nat, dst_len: nat) -> Decoded {
    decode(input.skip(len as int), 0, Seq::empty(), dst_len as int)
}

/// The bytes that a block decompresses to, or the error that it is refused with.
pub open spec fn decompressed(input: Seq<u8>) -> Result<Seq<u8>, Error> {
    if input.len() == 0 {
        Err(Error::Empty)
    } else {
        match header(input) {
            Ok((len, dst_len)) => {
                let decoded = decode_block(input, len, dst_len);
                match decoded.error {
                    None => Ok(decoded.bytes),
                    Some(error) => Err(error),
                }
            },
            Err(error) => Err(error),
        }
    }
}

} // verus!
