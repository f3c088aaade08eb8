//! What holds of headers, whatever follows them.
use crate::block;
use crate::bytes;
use crate::decompress;
use crate::error::Error;
use vstd::prelude::*;

verus! {

/// `h` has the shape of a header: up to ten bytes, of which all but the last one
/// have the high bit set.
pub open spec fn digits(h: Seq<u8>) -> bool {
    &&& 1 <= h.len() <= 10
    &&& h[h.len() - 1] < 128
    &&& forall|i: int| 0 <= i < h.len() - 1 ==> #[trigger] h[i] >= 128
}

/// What is read from the shape of a header.
pub(crate) proof fn lemma_digits(h: Seq<u8>, x: Seq<u8>)
    requires
        digits(h),
    ensures
        bytes::varint(h) is Some,
        bytes::varint(h)->Some_0.1 == h.len(),
        bytes::varint(h + x) == bytes::varint(h),
{
    bytes::lemma_varint_shape(h);
    if let Some((value, len)) = bytes::varint(h) {
        if len < h.len() {
            assert(h[len - 1] >= 128);
        }
        bytes::lemma_varint_prefix(h, x);
    } else {
        assert(h[h.len() - 1] >= 128);
    }
}

/// A header of nine bytes or fewer gives less than 64 bits.
proof fn lemma_short_digits(h: Seq<u8>)
    requires
        digits(h),
        h.len() <= 9,
    ensures
        bytes::varint(h)->Some_0.0 <= u64::MAX,
{
    lemma_digits(h, Seq::empty());
    bytes::lemma_varint_shape(h);
    vstd::arithmetic::power2::lemma2_to64();
    vstd::arithmetic::power2::lemma2_to64_rest();
    if h.len() < 9 {
        vstd::arithmetic::power2::lemma_pow2_strictly_increases(7 * h.len(), 63);
    }
}

/// A header that gives a length is read as such, whatever follows it.
pub(crate) proof fn lemma_gives(h: Seq<u8>, n: nat, x: Seq<u8>)
    requires
        digits(h),
        decompress::decompress_len_result(h) == Ok::<usize, Error>(n as usize),
        n <= 0xffff_ffff,
    ensures
        block::header(h + x) == Ok::<(nat, nat), Error>((h.len(), n)),
{
    lemma_digits(h, x);
    lemma_digits(h, Seq::empty());
}

/// A single byte without the high bit is a header, and gives its own value.
pub proof fn law_one_digit(b: u8, x: Seq<u8>)
    requires
        b < 128,
    ensures
        decompress::decompress_len_result(seq![b] + x) == Ok::<usize, Error>(b as usize),
        bytes::varu64(seq![b] + x) == Some((b as nat, 1nat)),
{
    assert((seq![b] + x)[0] == b);
}

/// A byte with the high bit in front of a header multiplies what it gives by 128
/// and adds its other seven bits. A length of more than 32 bits is refused and
/// reported; one of more than 64 bits makes the header invalid.
pub proof fn law_one_more_digit(b: u8, h: Seq<u8>, x: Seq<u8>)
    requires
        b >= 128,
        digits(h),
        h.len() <= 9,
    ensures
        ({
            let longer = decompress::decompress_len_result(seq![b] + h + x);
            match decompress::decompress_len_result(h) {
                Ok(v) => {
                    let w = (b - 128) + 128 * v;
                    longer == if w <= 0xffff_ffff {
                        Ok::<usize, Error>(w as usize)
                    } else {
                        Err((Error::TooBig { given: w as u64, max: 0xffff_ffff }))
                    }
                },
                Err(Error::TooBig { given, max }) => {
                    let w = (b - 128) + 128 * given;
                    &&& max == 0xffff_ffff
                    &&& longer == if w <= 0xffff_ffff_ffff_ffff {
                        Err::<usize, Error>((Error::TooBig { given: w as u64, max: 0xffff_ffff }))
                    } else {
                        Err((Error::Header))
                    }
                },
                Err(_) => false,
            }
        }),
        ({
            let (v, len) = bytes::varu64(h)->Some_0;
            let w = ((b - 128) + 128 * v) as nat;
            &&& bytes::varu64(h) is Some
            &&& len == h.len()
            &&& bytes::varu64(seq![b] + h + x) == if w <= 0xffff_ffff_ffff_ffff {
                Some((w, len + 1))
            } else {
                None
            }
        }),
{
    let all = seq![b] + h + x;
    lemma_digits(h, x);
    lemma_short_digits(h);
    assert(all.skip(1) =~= h + x);
    assert(all[0] == b);
}

/// The length is told from the header alone: what follows it, complete or not,
/// makes no difference.
pub proof fn law_only_the_header_is_read(h: Seq<u8>, x: Seq<u8>)
    requires
        digits(h),
    ensures
        decompress::decompress_len_result(h + x) == decompress::decompress_len_result(h),
        bytes::varu64(h + x) == bytes::varu64(h),
{
    lemma_digits(h, x);
}

/// If none of the first ten bytes ends it, a header is invalid.
pub proof fn law_unended_header_is_refused(input: Seq<u8>, room: nat)
    requires
        input.len() > 0,
        forall|i: int| 0 <= i < 10 && i < input.len() ==> #[trigger] input[i] >= 128,
    ensures
        decompress::decompress_len_result(input) == Err::<usize, Error>(Error::Header),
        decompress::decompress_result(input, room) == Err::<usize, Error>(Error::Header),
        block::decompressed(input) == Err::<Seq<u8>, Error>(Error::Header),
        bytes::varu64(input) is None,
{
    bytes::lemma_varint_shape(input);
    if let Some((value, len)) = bytes::varint(input) {
        if len <= 10 {
            assert(input[len - 1] >= 128);
        }
    }
}

/// Every length up to `2^32 - 1` is told from its shortest header, whatever
/// follows. A greater one is refused by every operation, and reported as given.
pub proof fn law_length_is_told(value: nat, x: Seq<u8>, room: nat)
    requires
        value <= 0xffff_ffff_ffff_ffff,
    ensures
        digits(bytes::varint_bytes(value)),
        bytes::varint_bytes(value).len() > 1 ==> bytes::varint_bytes(value).last() != 0,
        bytes::varu64(bytes::varint_bytes(value) + x) == Some(
            (value, bytes::varint_bytes(value).len()),
        ),
        value <= 0xffff_ffff ==> decompress::decompress_len_result(bytes::varint_bytes(value) + x)
            == Ok::<usize, Error>(value as usize),
        value > 0xffff_ffff ==> {
            let error = Error::TooBig { given: value as u64, max: 0xffff_ffff };
            let input = bytes::varint_bytes(value) + x;
            &&& decompress::decompress_len_result(input) == Err::<usize, Error>(error)
            &&& decompress::decompress_result(input, room) == Err::<usize, Error>(error)
            &&& block::decompressed(input) == Err::<Seq<u8>, Error>(error)
        },
{
    let h = bytes::varint_bytes(value);
    bytes::lemma_varint_bytes_last(value);
    bytes::lemma_varint_bytes(value);
    bytes::lemma_varint_bytes_len(value);
    bytes::lemma_varint_shape(h);
    bytes::lemma_varint_prefix(h, x);
}

/// Decompressing refuses an input as empty if and only if it is. Its length can
/// be told all the same, and is zero.
pub proof fn law_empty_means_empty(input: Seq<u8>, room: nat)
    ensures
        input.len() == 0 ==> decompress::decompress_len_result(input) == Ok::<usize, Error>(0),
        decompress::decompress_len_result(input) != Err::<usize, Error>(Error::Empty),
        input.len() == 0 <==> decompress::decompress_result(input, room) == Err::<usize, Error>(
            Error::Empty,
        ),
        input.len() == 0 <==> block::decompressed(input) == Err::<Seq<u8>, Error>(Error::Empty),
{
    if let Ok((len, dst_len)) = block::header(input) {
        lemma_elements_are_not_blamed_on_header(
            input.skip(len as int),
            0,
            Seq::empty(),
            dst_len as int,
        );
    }
}

/// An invalid header is reported if and only if the length cannot be told: no
/// element is blamed on the header, nor on the buffer.
pub proof fn law_header_errors_are_about_headers(input: Seq<u8>, room: nat)
    requires
        input.len() > 0,
    ensures
        decompress::decompress_len_result(input) matches Err(error) ==> {
            &&& error is Header || error is TooBig
            &&& decompress::decompress_result(input, room) == Err::<usize, Error>(error)
            &&& block::decompressed(input) == Err::<Seq<u8>, Error>(error)
        },
        decompress::decompress_len_result(input) is Ok ==> {
            &&& block::decompressed(input) matches Err(error) ==> {
                !(error is Header || error is TooBig || error is BufferTooSmall)
            }
            &&& decompress::decompress_result(input, room) matches Err(error) ==> {
                !(error is Header || error is TooBig)
            }
        },
        decompress::decompress_result(input, room) matches Err(Error::BufferTooSmall { given, min })
            ==> decompress::decompress_len_result(input) == Ok::<usize, Error>(min as usize),
{
    if let Ok((len, dst_len)) = block::header(input) {
        lemma_elements_are_not_blamed_on_header(
            input.skip(len as int),
            0,
            Seq::empty(),
            dst_len as int,
        );
    }
}

proof fn lemma_elements_are_not_blamed_on_header(src: Seq<u8>, s: int, out: Seq<u8>, dst_len: int)
    requires
        0 <= s,
    ensures
        block::decode(src, s, out, dst_len).error matches Some(error) ==> {
            ||| error is Literal
            ||| error is CopyRead
            ||| error is CopyWrite
            ||| error is Offset
            ||| error is HeaderMismatch
        },
    decreases src.len() - s,
{
    if s < src.len() {
        match block::step(src, s, out.len() as int, dst_len) {
            block::Step::Literal { start, len } => {
                lemma_elements_are_not_blamed_on_header(
                    src,
                    start + len,
                    out + src.subrange(start, start + len),
                    dst_len,
                );
            },
            block::Step::Copy { next, offset, len } => {
                lemma_elements_are_not_blamed_on_header(
                    src,
                    next,
                    out + block::repeated(out, offset, len),
                    dst_len,
                );
            },
            block::Step::Refuse { .. } => {},
        }
    }
}

} // verus!
