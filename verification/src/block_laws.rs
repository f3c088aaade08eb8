//! What holds of blocks, element by element: how a block that decompresses may go
//! on, what it decompresses to then, and how each wrong continuation is reported.
use crate::block;
use crate::bytes;
use crate::decompress;
use crate::element;
use crate::error::Error;
use crate::header_laws;
use vstd::prelude::*;

verus! {

/// `h` is a header and gives the length `n`.
pub open spec fn gives(h: Seq<u8>, n: nat) -> bool {
    &&& header_laws::digits(h)
    &&& n <= 0xffff_ffff
    &&& decompress::decompress_len_result(h) == Ok::<usize, Error>(n as usize)
}

/// `h` is a header, and with the elements `body` behind it, decompresses to `out`.
pub open spec fn complete(h: Seq<u8>, body: Seq<u8>, out: Seq<u8>) -> bool {
    &&& header_laws::digits(h)
    &&& block::decompressed(h + body) == Ok::<Seq<u8>, Error>(out)
}

/// A greater length in the header makes no difference to the elements of a
/// block, and what follows them is met with what they decompress to.
proof fn lemma_resume(
    h: Seq<u8>,
    body: Seq<u8>,
    out: Seq<u8>,
    h2: Seq<u8>,
    m: nat,
    tail: Seq<u8>,
)
    requires
        complete(h, body, out),
        gives(h2, m),
        out.len() <= m,
    ensures
        block::header(h2 + body + tail) == Ok::<(nat, nat), Error>((h2.len(), m)),
        block::decode_block(h2 + body + tail, h2.len(), m) == block::decode(
            body + tail,
            body.len() as int,
            out,
            m as int,
        ),
        block::decompressed(h2 + body + tail) == match block::decode(
            body + tail,
            body.len() as int,
            out,
            m as int,
        ).error {
            None => Ok::<Seq<u8>, Error>(
                block::decode(body + tail, body.len() as int, out, m as int).bytes,
            ),
            Some(error) => Err(error),
        },
{
    header_laws::lemma_digits(h, body);
    let n = block::header(h + body)->Ok_0.1;
    assert((h + body).skip(h.len() as int) =~= body);
    assert(body.skip(0) =~= body);
    let elements = element::lemma_decode_is_elements(body, 0, Seq::empty(), n as int);
    let src = body + tail;
    let input = h2 + body + tail;
    assert(src.subrange(0, body.len() as int) =~= body);
    element::lemma_decode_elements(elements, src, 0, Seq::empty(), m as int);
    header_laws::lemma_gives(h2, m, src);
    assert(input =~= h2 + src);
    assert(input.skip(h2.len() as int) =~= src);
}

/// A copy appends one byte after the other, each equal to the one `offset`
/// positions before it.
proof fn lemma_echo(out: Seq<u8>, offset: int, len: int)
    requires
        1 <= offset <= out.len(),
        0 <= len,
    ensures
        ({
            let r = out + block::repeated(out, offset, len);
            &&& r.len() == out.len() + len
            &&& r.take(out.len() as int) == out
            &&& forall|i: int| out.len() <= i < r.len() ==> #[trigger] r[i] == r[i - offset]
        }),
{
    let r = out + block::repeated(out, offset, len);
    assert(r.take(out.len() as int) =~= out);
    assert forall|i: int| out.len() <= i < r.len() implies #[trigger] r[i] == r[i - offset] by {
        let j = i - out.len();
        if j < offset {
            vstd::arithmetic::div_mod::lemma_small_mod(j as nat, offset as nat);
        } else {
            vstd::arithmetic::div_mod::lemma_mod_sub_multiples_vanish(j, offset);
        }
    }
}

/// A header that gives the length zero is a complete block, of nothing.
pub proof fn law_empty_block(h: Seq<u8>)
    requires
        gives(h, 0),
    ensures
        block::decompressed(h) == Ok::<Seq<u8>, Error>(Seq::empty()),
{
    header_laws::lemma_gives(h, 0, Seq::empty());
    assert(h + Seq::<u8>::empty() =~= h);
}

/// Of a header only the length that it gives matters, however it is written. If
/// this is greater than what the elements add up to, then just these two lengths
/// are reported.
pub proof fn law_other_header(h: Seq<u8>, body: Seq<u8>, out: Seq<u8>, h2: Seq<u8>, m: nat)
    requires
        complete(h, body, out),
        gives(h2, m),
        out.len() <= m,
    ensures
        gives(h, out.len()),
        block::decompressed(h2 + body) == if m == out.len() {
            Ok::<Seq<u8>, Error>(out)
        } else {
            Err(
                (Error::HeaderMismatch { expected_len: m as u64, got_len: out.len() as u64 }),
            )
        },
{
    lemma_resume(h, body, out, h2, m, Seq::empty());
    assert(h2 + body + Seq::<u8>::empty() =~= h2 + body);
    assert(body + Seq::<u8>::empty() =~= body);
    header_laws::lemma_digits(h, body);
    assert((h + body).skip(h.len() as int) =~= body);
    block::lemma_decode_len(
        body,
        0,
        Seq::empty(),
        block::header(h + body)->Ok_0.1 as int,
    );
}

/// A tag byte with the low bits `00` and a value below 60 above them starts a
/// literal of one byte more than that value. If there are fewer bytes, or if the
/// header leaves room for fewer, then the three lengths are reported.
pub proof fn law_short_literal(
    h: Seq<u8>,
    body: Seq<u8>,
    out: Seq<u8>,
    h2: Seq<u8>,
    m: nat,
    t: u8,
    rest: Seq<u8>,
)
    requires
        complete(h, body, out),
        gives(h2, m),
        out.len() <= m,
        t % 4 == 0,
        t < 240,
    ensures
        ({
            let result = block::decompressed(h2 + body + (seq![t] + rest));
            let len = t as int / 4 + 1;
            &&& len > rest.len() || len > m - out.len() ==> result == Err::<Seq<u8>, Error>(
                (Error::Literal {
                    len: len as u64,
                    src_len: rest.len() as u64,
                    dst_len: (m - out.len()) as u64,
                }),
            )
            &&& len == rest.len() && len == m - out.len() ==> result == Ok::<Seq<u8>, Error>(
                out + rest,
            )
        }),
{
    let src = body + (seq![t] + rest);
    let s = body.len() as int;
    lemma_resume(h, body, out, h2, m, seq![t] + rest);
    assert(src[s] == t);
    block::lemma_decode_literal(src, s, out, m as int);
    if t as int / 4 + 1 == rest.len() {
        assert(src.subrange(s + 1, s + 1 + rest.len()) =~= rest);
    }
}

/// A tag byte with the low bits `00` and a value from 60 to 63 above them starts
/// a literal whose length less one stands in the next one to four bytes, the low
/// byte first. If these are not there, then the length 4 is reported, with how
/// many there are. Otherwise what holds of short literals holds here.
pub proof fn law_long_literal(
    h: Seq<u8>,
    body: Seq<u8>,
    out: Seq<u8>,
    h2: Seq<u8>,
    m: nat,
    t: u8,
    rest: Seq<u8>,
)
    requires
        complete(h, body, out),
        gives(h2, m),
        out.len() <= m,
        t % 4 == 0,
        t >= 240,
    ensures
        ({
            let result = block::decompressed(h2 + body + (seq![t] + rest));
            let width = t as int / 4 - 59;
            let data = rest.skip(width);
            let len = 1 + rest[0] + (if width >= 2 {
                0x100 * rest[1]
            } else {
                0
            }) + (if width >= 3 {
                0x1_0000 * rest[2]
            } else {
                0
            }) + (if width >= 4 {
                0x100_0000 * rest[3]
            } else {
                0
            });
            if rest.len() < width {
                result == Err::<Seq<u8>, Error>(
                    (Error::Literal {
                        len: 4,
                        src_len: rest.len() as u64,
                        dst_len: (m - out.len()) as u64,
                    }),
                )
            } else {
                &&& len > data.len() || len > m - out.len() ==> result == Err::<Seq<u8>, Error>(
                    (Error::Literal {
                        len: len as u64,
                        src_len: data.len() as u64,
                        dst_len: (m - out.len()) as u64,
                    }),
                )
                &&& len == data.len() && len == m - out.len() ==> result == Ok::<Seq<u8>, Error>(
                    out + data,
                )
            }
        }),
{
    let src = body + (seq![t] + rest);
    let s = body.len() as int;
    let width = t as int / 4 - 59;
    lemma_resume(h, body, out, h2, m, seq![t] + rest);
    assert(src[s] == t);
    block::lemma_decode_literal(src, s, out, m as int);
    if width <= rest.len() {
        let data = rest.skip(width);
        bytes::lemma_le_value_unfold(src, s + 1, width as nat);
        assert forall|i: int| 0 <= i < rest.len() implies #[trigger] src[s + 1 + i] == rest[i] by {}
        assert(src.subrange(s + 1 + width, src.len() as int) =~= data);
    }
}

/// A tag byte with the low bits `01` and the byte behind it are a copy of 4 to 11
/// bytes, with an offset of eleven bits.
pub proof fn law_near_copy(
    h: Seq<u8>,
    body: Seq<u8>,
    out: Seq<u8>,
    h2: Seq<u8>,
    m: nat,
    t: u8,
    rest: Seq<u8>,
)
    requires
        complete(h, body, out),
        gives(h2, m),
        out.len() <= m,
        t % 4 == 1,
    ensures
        ({
            let result = block::decompressed(h2 + body + (seq![t] + rest));
            let len = 4 + (t as int / 4) % 8;
            let offset = 0x100 * (t as int / 32) + rest[0];
            if rest.len() < 1 {
                result == Err::<Seq<u8>, Error>((Error::CopyRead { len: 1, src_len: 0 }))
            } else if offset == 0 || offset > out.len() {
                result == Err::<Seq<u8>, Error>(
                    (Error::Offset { offset: offset as u64, dst_pos: out.len() as u64 }),
                )
            } else if len > m - out.len() {
                result == Err::<Seq<u8>, Error>(
                    (Error::CopyWrite { len: len as u64, dst_len: (m - out.len()) as u64 }),
                )
            } else {
                rest.len() == 1 && len == m - out.len() ==> {
                    &&& result is Ok
                    &&& result->Ok_0.len() == m
                    &&& result->Ok_0.take(out.len() as int) == out
                    &&& forall|i: int|
                        out.len() <= i < m ==> #[trigger] result->Ok_0[i] == result->Ok_0[i
                            - offset]
                }
            }
        }),
{
    let src = body + (seq![t] + rest);
    let s = body.len() as int;
    lemma_resume(h, body, out, h2, m, seq![t] + rest);
    assert(src[s] == t);
    block::lemma_decode_copy(src, s, out, m as int);
    if rest.len() >= 1 {
        bytes::lemma_le_value_unfold(src, s + 1, 1);
        assert(src[s + 1] == rest[0]);
        let offset = 0x100 * (t as int / 32) + rest[0];
        if 1 <= offset <= out.len() {
            lemma_echo(out, offset, 4 + (t as int / 4) % 8);
        }
    }
}

/// A tag byte with the low bits `10` and the two bytes behind it are a copy of 1
/// to 64 bytes, with an offset of sixteen bits, the low byte first.
pub proof fn law_far_copy(
    h: Seq<u8>,
    body: Seq<u8>,
    out: Seq<u8>,
    h2: Seq<u8>,
    m: nat,
    t: u8,
    rest: Seq<u8>,
)
    requires
        complete(h, body, out),
        gives(h2, m),
        out.len() <= m,
        t % 4 == 2,
    ensures
        ({
            let result = block::decompressed(h2 + body + (seq![t] + rest));
            let len = t as int / 4 + 1;
            let offset = rest[0] + 0x100 * rest[1];
            if rest.len() < 2 {
                result == Err::<Seq<u8>, Error>(
                    (Error::CopyRead { len: 2, src_len: rest.len() as u64 }),
                )
            } else if offset == 0 || offset > out.len() {
                result == Err::<Seq<u8>, Error>(
                    (Error::Offset { offset: offset as u64, dst_pos: out.len() as u64 }),
                )
            } else if len > m - out.len() {
                result == Err::<Seq<u8>, Error>(
                    (Error::CopyWrite { len: len as u64, dst_len: (m - out.len()) as u64 }),
                )
            } else {
                rest.len() == 2 && len == m - out.len() ==> {
                    &&& result is Ok
                    &&& result->Ok_0.len() == m
                    &&& result->Ok_0.take(out.len() as int) == out
                    &&& forall|i: int|
                        out.len() <= i < m ==> #[trigger] result->Ok_0[i] == result->Ok_0[i
                            - offset]
                }
            }
        }),
{
    let src = body + (seq![t] + rest);
    let s = body.len() as int;
    lemma_resume(h, body, out, h2, m, seq![t] + rest);
    assert(src[s] == t);
    block::lemma_decode_copy(src, s, out, m as int);
    if rest.len() >= 2 {
        bytes::lemma_le_value_unfold(src, s + 1, 2);
        assert(src[s + 1] == rest[0]);
        assert(src[s + 2] == rest[1]);
        let offset = rest[0] + 0x100 * rest[1];
        if 1 <= offset <= out.len() {
            lemma_echo(out, offset, t as int / 4 + 1);
        }
    }
}

/// A tag byte with the low bits `11` and the four bytes behind it are a copy of 1
/// to 64 bytes, with an offset of 32 bits, the low byte first.
pub proof fn law_distant_copy(
    h: Seq<u8>,
    body: Seq<u8>,
    out: Seq<u8>,
    h2: Seq<u8>,
    m: nat,
    t: u8,
    rest: Seq<u8>,
)
    requires
        complete(h, body, out),
        gives(h2, m),
        out.len() <= m,
        t % 4 == 3,
    ensures
        ({
            let result = block::decompressed(h2 + body + (seq![t] + rest));
            let len = t as int / 4 + 1;
            let offset = rest[0] + 0x100 * rest[1] + 0x1_0000 * rest[2] + 0x100_0000 * rest[3];
            if rest.len() < 4 {
                result == Err::<Seq<u8>, Error>(
                    (Error::CopyRead { len: 4, src_len: rest.len() as u64 }),
                )
            } else if offset == 0 || offset > out.len() {
                result == Err::<Seq<u8>, Error>(
                    (Error::Offset { offset: offset as u64, dst_pos: out.len() as u64 }),
                )
            } else if len > m - out.len() {
                result == Err::<Seq<u8>, Error>(
                    (Error::CopyWrite { len: len as u64, dst_len: (m - out.len()) as u64 }),
                )
            } else {
                rest.len() == 4 && len == m - out.len() ==> {
                    &&& result is Ok
                    &&& result->Ok_0.len() == m
                    &&& result->Ok_0.take(out.len() as int) == out
                    &&& forall|i: int|
                        out.len() <= i < m ==> #[trigger] result->Ok_0[i] == result->Ok_0[i
                            - offset]
                }
            }
        }),
{
    let src = body + (seq![t] + rest);
    let s = body.len() as int;
    lemma_resume(h, body, out, h2, m, seq![t] + rest);
    assert(src[s] == t);
    block::lemma_decode_copy(src, s, out, m as int);
    if rest.len() >= 4 {
        bytes::lemma_le_value_unfold(src, s + 1, 4);
        assert(src[s + 1] == rest[0]);
        assert(src[s + 2] == rest[1]);
        assert(src[s + 3] == rest[2]);
        assert(src[s + 4] == rest[3]);
        let offset = rest[0] + 0x100 * rest[1] + 0x1_0000 * rest[2] + 0x100_0000 * rest[3];
        if 1 <= offset <= out.len() {
            lemma_echo(out, offset, t as int / 4 + 1);
        }
    }
}

/// Any well-formed elements behind the shortest header that gives what they add up
/// to, if this is at most `2^32 - 1`, decompress to what they say, into a new
/// vector and into every buffer that is long enough.
pub proof fn law_shortest_header(elements: Seq<element::Element>, room: nat)
    requires
        element::well_formed(elements, Seq::empty()),
        element::expand(elements, Seq::empty()).len() <= 0xffff_ffff,
    ensures
        ({
            let out = element::expand(elements, Seq::empty());
            let h = bytes::varint_bytes(out.len());
            let input = h + element::wire(elements);
            &&& gives(h, out.len())
            &&& block::decompressed(input) == Ok::<Seq<u8>, Error>(out)
            &&& out.len() <= room ==> decompress::decompress_result(input, room) == Ok::<
                usize,
                Error,
            >(out.len() as usize)
            &&& out.len() > room ==> decompress::decompress_result(input, room) == Err::<
                usize,
                Error,
            >((Error::BufferTooSmall { given: room as u64, min: out.len() as u64 }))
        }),
{
    let out = element::expand(elements, Seq::empty());
    let h = bytes::varint_bytes(out.len());
    let src = element::wire(elements);
    header_laws::law_length_is_told(out.len(), Seq::empty(), 0);
    assert(h + Seq::<u8>::empty() =~= h);
    header_laws::lemma_gives(h, out.len(), src);
    assert((h + src).skip(h.len() as int) =~= src);
    assert(src.subrange(0, src.len() as int) =~= src);
    element::lemma_decode_elements(elements, src, 0, Seq::empty(), out.len() as int);
}

/// The tag byte of a literal, and what of it is there behind the tag byte if it has
/// been cut after `kept` bytes of its data.
proof fn lemma_cut_literal_wire(data: Seq<u8>, width: nat, kept: nat) -> (cut: (u8, Seq<u8>))
    requires
        (element::Element::Literal { data, width }).valid(0),
        kept < data.len(),
    ensures
        (element::Element::Literal { data, width }).wire().take((1 + width + kept) as int)
            == seq![cut.0] + cut.1,
        cut.1.len() == width + kept,
        cut.0 % 4 == 0,
        width == 0 ==> cut.0 < 240 && cut.0 as int / 4 + 1 == data.len(),
        width > 0 ==> cut.0 >= 240 && cut.0 as int / 4 - 59 == width,
        width == 1 ==> data.len() == 1 + cut.1[0],
        width == 2 ==> data.len() == 1 + cut.1[0] + 0x100 * cut.1[1],
        width == 3 ==> data.len() == 1 + cut.1[0] + 0x100 * cut.1[1] + 0x1_0000 * cut.1[2],
        width == 4 ==> data.len() == 1 + cut.1[0] + 0x100 * cut.1[1] + 0x1_0000 * cut.1[2]
            + 0x100_0000 * cut.1[3],
{
    let literal = (element::Element::Literal { data, width }).wire();
    let t = literal[0];
    if width == 0 {
        let rest = data.take(kept as int);
        assert(literal.take((1 + width + kept) as int) =~= seq![t] + rest);
        (t, rest)
    } else {
        let lens = bytes::le_bytes((data.len() - 1) as nat, width);
        bytes::lemma_le_bytes((data.len() - 1) as nat, width);
        bytes::lemma_le_value_unfold(lens, 0, width);
        let rest = lens + data.take(kept as int);
        assert(literal.take((1 + width + kept) as int) =~= seq![t] + rest);
        (t, rest)
    }
}

/// A literal of which only the first `kept` bytes are there is refused. Its
/// length, that number, and what the header leaves room for are reported.
pub proof fn law_cut_literal(
    elements: Seq<element::Element>,
    data: Seq<u8>,
    width: nat,
    kept: nat,
    h: Seq<u8>,
    m: nat,
)
    requires
        element::well_formed(elements, Seq::empty()),
        (element::Element::Literal { data, width }).valid(0),
        kept < data.len(),
        gives(h, m),
        element::expand(elements, Seq::empty()).len() <= m,
    ensures
        ({
            let literal = (element::Element::Literal { data, width }).wire();
            block::decompressed(
                h + element::wire(elements) + literal.take((1 + width + kept) as int),
            ) == Err::<Seq<u8>, Error>(
                (Error::Literal {
                    len: data.len() as u64,
                    src_len: kept as u64,
                    dst_len: (m - element::expand(elements, Seq::empty()).len()) as u64,
                }),
            )
        }),
{
    let out = element::expand(elements, Seq::empty());
    let body = element::wire(elements);
    let h1 = bytes::varint_bytes(out.len());
    law_shortest_header(elements, 0);
    let (t, rest) = lemma_cut_literal_wire(data, width, kept);
    if width == 0 {
        law_short_literal(h1, body, out, h, m, t, rest);
    } else {
        law_long_literal(h1, body, out, h, m, t, rest);
    }
}

/// Whatever follows them, the elements at the front of a block that are
/// well-formed reach the buffer, and nothing is written beyond the length that
/// the header gives.
pub proof fn law_front_is_written(
    h: Seq<u8>,
    body: Seq<u8>,
    out: Seq<u8>,
    h2: Seq<u8>,
    m: nat,
    tail: Seq<u8>,
    before: Seq<u8>,
    after: Seq<u8>,
)
    requires
        complete(h, body, out),
        gives(h2, m),
        out.len() <= m <= before.len(),
        decompress::decompress_output(h2 + body + tail, before, after),
    ensures
        after.len() == before.len(),
        after.take(out.len() as int) == out,
        after.skip(m as int) == before.skip(m as int),
{
    lemma_resume(h, body, out, h2, m, tail);
    block::lemma_decode_len(body + tail, body.len() as int, out, m as int);
    let decoded = block::decode(body + tail, body.len() as int, out, m as int).bytes;
    assert(after.take(out.len() as int) =~= after.take(decoded.len() as int).take(
        out.len() as int,
    ));
    assert(decoded.take(out.len() as int) =~= out);
}

/// A block that decompresses leaves its bytes at the front of the buffer, and the
/// rest of the buffer as it was.
pub proof fn law_output(input: Seq<u8>, out: Seq<u8>, before: Seq<u8>, after: Seq<u8>)
    requires
        block::decompressed(input) == Ok::<Seq<u8>, Error>(out),
        out.len() <= before.len(),
        decompress::decompress_output(input, before, after),
    ensures
        after == out + before.skip(out.len() as int),
{
    let (len, n) = block::header(input)->Ok_0;
    block::lemma_decode_len(input.skip(len as int), 0, Seq::empty(), n as int);
    assert(after =~= after.take(n as int) + after.skip(n as int));
}

/// If the block is empty, its length cannot be told, or the buffer is too short
/// for it, then the buffer stays as it was.
pub proof fn law_buffer_is_left_alone(input: Seq<u8>, before: Seq<u8>, after: Seq<u8>)
    requires
        decompress::decompress_output(input, before, after),
        input.len() == 0 || match decompress::decompress_len_result(input) {
            Ok(n) => n > before.len(),
            Err(_) => true,
        },
    ensures
        after == before,
{
}

} // verus!
