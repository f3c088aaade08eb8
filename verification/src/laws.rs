//! What holds of the library as a whole.
use crate::block;
use crate::bytes;
use crate::decompress;
use crate::element;
use crate::error::Error;
use crate::tag;
use crate::MAX_INPUT_SIZE;
use vstd::prelude::*;

verus! {

/// A block that a compressor has written decompresses to what its elements
/// say: any header that gives the right length, followed by any well-formed
/// elements.
pub proof fn law_decompresses_every_block(prefix: Seq<u8>, elements: Seq<element::Element>)
    requires
        element::well_formed(elements, Seq::empty()),
        element::expand(elements, Seq::empty()).len() <= MAX_INPUT_SIZE,
        bytes::varu64(prefix) == Some(
            (element::expand(elements, Seq::empty()).len(), prefix.len()),
        ),
    ensures
        block::decompressed(prefix + element::wire(elements)) == Ok::<Seq<u8>, Error>(
            element::expand(elements, Seq::empty()),
        ),
{
    let input = prefix + element::wire(elements);
    let out = element::expand(elements, Seq::empty());
    let src = input.skip(prefix.len() as int);
    bytes::lemma_varint_len(prefix);
    bytes::lemma_varint_prefix(prefix, element::wire(elements));
    assert(src =~= element::wire(elements));
    assert(src.subrange(0, src.len() as int) =~= src);
    element::lemma_decode_elements(elements, src, 0, Seq::empty(), out.len() as int);
}

/// Whatever decompresses is a block that a compressor could have written: its
/// header is followed by well-formed elements, and the decompressed bytes are
/// what these say.
pub proof fn law_decompresses_nothing_else(input: Seq<u8>, out: Seq<u8>)
    requires
        block::decompressed(input) == Ok::<Seq<u8>, Error>(out),
    ensures
        exists|len: nat, elements: Seq<element::Element>|
            #![trigger input.skip(len as int), element::wire(elements)]
            {
                &&& block::header(input) == Ok::<(nat, nat), Error>((len, out.len()))
                &&& input.skip(len as int) == element::wire(elements)
                &&& element::well_formed(elements, Seq::empty())
                &&& out == element::expand(elements, Seq::empty())
            },
{
    let (len, dst_len) = block::header(input)->Ok_0;
    let src = input.skip(len as int);
    block::lemma_decode_len(src, 0, Seq::empty(), dst_len as int);
    let elements = element::lemma_decode_is_elements(src, 0, Seq::empty(), dst_len as int);
    assert(src.skip(0) =~= src);
    assert(input.skip(len as int) == element::wire(elements));
}

/// If all elements are well-formed but do not add up to the length that the
/// header gives, then exactly the two lengths are reported.
pub proof fn law_short_block_is_reported(
    prefix: Seq<u8>,
    dst_len: nat,
    elements: Seq<element::Element>,
)
    requires
        element::well_formed(elements, Seq::empty()),
        element::expand(elements, Seq::empty()).len() < dst_len <= MAX_INPUT_SIZE,
        bytes::varu64(prefix) == Some((dst_len, prefix.len())),
    ensures
        block::decompressed(prefix + element::wire(elements)) == Err::<Seq<u8>, Error>(
            (Error::HeaderMismatch {
                expected_len: dst_len as u64,
                got_len: element::expand(elements, Seq::empty()).len() as u64,
            }),
        ),
{
    let input = prefix + element::wire(elements);
    let src = input.skip(prefix.len() as int);
    bytes::lemma_varint_len(prefix);
    bytes::lemma_varint_prefix(prefix, element::wire(elements));
    assert(src =~= element::wire(elements));
    assert(src.subrange(0, src.len() as int) =~= src);
    element::lemma_decode_elements(elements, src, 0, Seq::empty(), dst_len as int);
}

/// Every length up to the greatest that is permitted can be given by a header,
/// and is read back from it whatever follows. A greater length is refused, and
/// reported as it was given.
pub proof fn law_header_reads_back(value: nat, rest: Seq<u8>)
    requires
        value <= u64::MAX,
    ensures
        block::header(bytes::varint_bytes(value) + rest) == if value <= MAX_INPUT_SIZE {
            Ok::<(nat, nat), Error>((bytes::varint_bytes(value).len(), value))
        } else {
            Err((Error::TooBig { given: value as u64, max: MAX_INPUT_SIZE }))
        },
{
    bytes::lemma_varint_bytes(value);
    bytes::lemma_varint_bytes_len(value);
    bytes::lemma_varint_prefix(bytes::varint_bytes(value), rest);
}

/// Nothing may follow a complete block.
pub proof fn law_trailing_bytes_are_refused(input: Seq<u8>, extra: Seq<u8>)
    requires
        block::decompressed(input) is Ok,
        extra.len() > 0,
    ensures
        block::decompressed(input + extra) is Err,
{
    let out = block::decompressed(input)->Ok_0;
    let (len, dst_len) = block::header(input)->Ok_0;
    let src = input.skip(len as int);
    let longer = (input + extra).skip(len as int);
    bytes::lemma_varint_len(input);
    bytes::lemma_varint_prefix(input, extra);
    block::lemma_decode_len(src, 0, Seq::empty(), dst_len as int);
    let elements = element::lemma_decode_is_elements(src, 0, Seq::empty(), dst_len as int);
    assert(src.skip(0) =~= src);
    assert(longer.subrange(0, src.len() as int) =~= src);
    element::lemma_decode_elements(elements, longer, 0, Seq::empty(), dst_len as int);
    let s = src.len() as int;
    assert(block::step(longer, s, out.len() as int, dst_len as int) is Refuse);
}

/// A block that has been cut short is refused, wherever it was cut.
pub proof fn law_truncated_blocks_are_refused(input: Seq<u8>, n: nat)
    requires
        block::decompressed(input) is Ok,
        n < input.len(),
    ensures
        block::decompressed(input.take(n as int)) is Err,
{
    if block::decompressed(input.take(n as int)) is Ok {
        law_trailing_bytes_are_refused(input.take(n as int), input.skip(n as int));
        assert(input.take(n as int) + input.skip(n as int) =~= input);
    }
}

/// What an error reports is so: the lengths and positions in it contradict each
/// other as its kind says.
pub open spec fn error_is_true(error: Error) -> bool {
    match error {
        Error::TooBig { given, max } => given > max && max == MAX_INPUT_SIZE,
        Error::BufferTooSmall { given, min } => given < min <= MAX_INPUT_SIZE,
        Error::Empty => true,
        Error::Header => true,
        Error::HeaderMismatch { expected_len, got_len } => got_len < expected_len,
        Error::Literal { len, src_len, dst_len } => len > src_len || len > dst_len,
        Error::CopyRead { len, src_len } => src_len < len <= 4,
        Error::CopyWrite { len, dst_len } => dst_len < len <= 64,
        Error::Offset { offset, dst_pos } => offset == 0 || offset > dst_pos,
    }
}

proof fn lemma_decode_error_is_true(src: Seq<u8>, s: int, out: Seq<u8>, dst_len: int)
    requires
        0 <= s,
        src.len() <= usize::MAX,
        out.len() <= dst_len <= MAX_INPUT_SIZE,
    ensures
        block::decode(src, s, out, dst_len).error matches Some(error) ==> error_is_true(error),
    decreases src.len() - s,
{
    if s < src.len() {
        match block::step(src, s, out.len() as int, dst_len) {
            block::Step::Literal { start, len } => {
                lemma_decode_error_is_true(
                    src,
                    start + len,
                    out + src.subrange(start, start + len),
                    dst_len,
                );
            },
            block::Step::Copy { next, offset, len } => {
                lemma_decode_error_is_true(
                    src,
                    next,
                    out + block::repeated(out, offset, len),
                    dst_len,
                );
            },
            block::Step::Refuse { error } => {
                let trailer = tag::trailer_len(src[s]) as nat;
                bytes::lemma_le_value_unfold(src, s + 1, trailer);
                let width = (src[s] as int / 4 - 59) as nat;
                if tag::kind(src[s]) == 0 && src[s] as int / 4 >= 60 {
                    bytes::lemma_le_value_unfold(src, s + 1, width);
                }
            },
        }
    }
}

/// Whatever error decompressing reports, what it says is so.
pub proof fn law_errors_are_true(input: Seq<u8>, room: nat)
    requires
        input.len() <= usize::MAX,
        room <= usize::MAX,
    ensures
        decompress::decompress_result(input, room) matches Err(error) ==> error_is_true(error),
        block::decompressed(input) matches Err(error) ==> error_is_true(error),
        decompress::decompress_len_result(input) matches Err(error) ==> error_is_true(error),
{
    if let Ok((len, dst_len)) = block::header(input) {
        bytes::lemma_varint_len(input);
        lemma_decode_error_is_true(
            input.skip(len as int),
            0,
            Seq::empty(),
            dst_len as int,
        );
    }
}

/// The length that can be asked for beforehand is the length that decompressing
/// takes: with room for it, decompressing into a buffer and into a new vector
/// succeed together, with that length, or report the same error. Without room
/// for it, just the two lengths are reported.
pub proof fn law_room(input: Seq<u8>, room: nat)
    requires
        input.len() > 0,
        room <= usize::MAX,
    ensures
        decompress::decompress_len_result(input) matches Ok(n) ==> {
            let result = decompress::decompress_result(input, room);
            if n <= room {
                match block::decompressed(input) {
                    Ok(out) => result == Ok::<usize, Error>(n) && out.len() == n,
                    Err(error) => result == Err::<usize, Error>(error),
                }
            } else {
                result == Err::<usize, Error>(
                    (Error::BufferTooSmall { given: room as u64, min: n as u64 }),
                )
            }
        },
        decompress::decompress_len_result(input) matches Err(error) ==> {
            &&& decompress::decompress_result(input, room) == Err::<usize, Error>(error)
            &&& block::decompressed(input) == Err::<Seq<u8>, Error>(error)
        },
{
    if let Ok((len, dst_len)) = block::header(input) {
        block::lemma_decode_len(
            input.skip(len as int),
            0,
            Seq::empty(),
            dst_len as int,
        );
    }
}

/// What the buffer held before, and how much longer than needed it is, makes no
/// difference to what is decompressed into it.
pub proof fn law_previous_contents_do_not_matter(
    input: Seq<u8>,
    before: Seq<u8>,
    after: Seq<u8>,
    before2: Seq<u8>,
    after2: Seq<u8>,
)
    requires
        decompress::decompress_output(input, before, after),
        decompress::decompress_output(input, before2, after2),
        decompress::decompress_result(input, before.len()) is Ok,
        decompress::decompress_result(input, before2.len()) is Ok,
    ensures
        ({
            let n = decompress::decompress_result(input, before.len())->Ok_0 as int;
            &&& decompress::decompress_result(input, before2.len()) == Ok::<usize, Error>(n as usize)
            &&& after.take(n) == after2.take(n)
            &&& after == after.take(n) + before.skip(n)
        }),
{
    let (len, dst_len) = block::header(input)->Ok_0;
    block::lemma_decode_len(
        input.skip(len as int),
        0,
        Seq::empty(),
        dst_len as int,
    );
    assert(after =~= after.take(dst_len as int) + after.skip(dst_len as int));
}

/// A copy is the same as appending one byte at a time, each of which equals the
/// one `offset` positions before it, which may itself be part of the copy.
pub proof fn law_copy_is_byte_by_byte(out: Seq<u8>, offset: int, len: int)
    requires
        1 <= offset <= out.len(),
        0 <= len,
    ensures
        block::repeated(out, offset, 0) == Seq::<u8>::empty(),
        ({
            let longer = out + block::repeated(out, offset, len);
            out + block::repeated(out, offset, len + 1) == longer.push(longer[longer.len() - offset])
        }),
{
    let longer = out + block::repeated(out, offset, len);
    assert(block::repeated(out, offset, 0) =~= Seq::<u8>::empty());
    if len < offset {
        vstd::arithmetic::div_mod::lemma_small_mod(len as nat, offset as nat);
    } else {
        vstd::arithmetic::div_mod::lemma_mod_sub_multiples_vanish(len, offset);
    }
    assert(out + block::repeated(out, offset, len + 1) =~= longer.push(
        longer[longer.len() - offset],
    ));
}

/// What a tag byte says of its element, as it stands in the table: the bytes that
/// follow before the data, the high bits of an offset, and the length.
pub proof fn law_table_entries(t: u8)
    ensures
        tag::kind(t) == t % 4,
        tag::entry(t) == tag::TAG_LOOKUP_TABLE@[t as int],
        t % 4 == 0 && t < 240 ==> tag::entry(t) == t as int / 4 + 1,
        t % 4 == 0 && t >= 240 ==> tag::entry(t) == 0x800 * (t as int / 4 - 59),
        t % 4 == 1 ==> tag::entry(t) == 0x800 + 0x100 * (t as int / 32) + 4 + (t as int / 4) % 8,
        t % 4 == 2 ==> tag::entry(t) == 0x1000 + t as int / 4 + 1,
        t % 4 == 3 ==> tag::entry(t) == 0x2000 + t as int / 4 + 1,
{
    tag::lemma_table(t);
}

/// Up to four bytes are read with the least significant one first.
pub proof fn law_little_endian(s: Seq<u8>, at: int)
    ensures
        bytes::le_value(s, at, 0) == 0,
        bytes::le_value(s, at, 1) == s[at],
        bytes::le_value(s, at, 2) == s[at] + 0x100 * s[at + 1],
        bytes::le_value(s, at, 3) == s[at] + 0x100 * s[at + 1] + 0x1_0000 * s[at + 2],
        bytes::le_value(s, at, 4) == s[at] + 0x100 * s[at + 1] + 0x1_0000 * s[at + 2] + 0x100_0000
            * s[at + 3],
{
    bytes::lemma_le_value_unfold(s, at, 1);
    bytes::lemma_le_value_unfold(s, at, 2);
    bytes::lemma_le_value_unfold(s, at, 3);
    bytes::lemma_le_value_unfold(s, at, 4);
}

} // verus!
