//! Blocks as a compressor writes them: a list of elements and its bytes.
use crate::block;
use crate::bytes;
use crate::tag;
use vstd::prelude::*;

verus! {

/// An element of a block.
pub enum Element {
    /// A literal. Its length stands in the tag byte if `width` is zero, and in
    /// the `width` bytes behind the tag byte otherwise.
    Literal { data: Seq<u8>, width: nat },
    /// A copy with one byte of its offset behind the tag byte and three bits of
    /// it in the tag byte.
    Near { offset: int, len: int },
    /// A copy with the two bytes of its offset behind the tag byte.
    Far { offset: int, len: int },
    /// A copy with the four bytes of its offset behind the tag byte.
    Distant { offset: int, len: int },
}

impl Element {
    /// The element can be written after `d` bytes of output.
    pub open spec fn valid(self, d: int) -> bool {
        match self {
            Element::Literal { data, width } => {
                &&& 1 <= data.len()
                &&& width == 0 ==> data.len() <= 60
                &&& width == 1 ==> data.len() <= 0x100
                &&& width == 2 ==> data.len() <= 0x1_0000
                &&& width == 3 ==> data.len() <= 0x100_0000
                &&& width == 4 ==> data.len() <= 0x1_0000_0000
                &&& width <= 4
            },
            Element::Near { offset, len } => {
                &&& 1 <= offset <= d
                &&& offset < 0x800
                &&& 4 <= len <= 11
            },
            Element::Far { offset, len } => {
                &&& 1 <= offset <= d
                &&& offset < 0x1_0000
                &&& 1 <= len <= 64
            },
            Element::Distant { offset, len } => {
                &&& 1 <= offset <= d
                &&& offset < 0x1_0000_0000
                &&& 1 <= len <= 64
            },
        }
    }

    /// The bytes of the element.
    pub open spec fn wire(self) -> Seq<u8> {
        match self {
            Element::Literal { data, width } => if width == 0 {
                seq![(4 * (data.len() - 1)) as u8] + data
            } else {
                seq![(4 * (59 + width)) as u8] + bytes::le_bytes((data.len() - 1) as nat, width)
                    + data
            },
            Element::Near { offset, len } => seq![
                (1 + 4 * (len - 4) + 32 * (offset / 256)) as u8,
                (offset % 256) as u8,
            ],
            Element::Far { offset, len } => seq![(2 + 4 * (len - 1)) as u8] + bytes::le_bytes(
                offset as nat,
                2,
            ),
            Element::Distant { offset, len } => seq![(3 + 4 * (len - 1)) as u8] + bytes::le_bytes(
                offset as nat,
                4,
            ),
        }
    }

    /// What the element appends to `out`.
    pub open spec fn appends(self, out: Seq<u8>) -> Seq<u8> {
        match self {
            Element::Literal { data, .. } => data,
            Element::Near { offset, len } => block::repeated(out, offset, len),
            Element::Far { offset, len } => block::repeated(out, offset, len),
            Element::Distant { offset, len } => block::repeated(out, offset, len),
        }
    }
}

/// The bytes of a list of elements.
pub open spec fn wire(elements: Seq<Element>) -> Seq<u8>
    decreases elements.len(),
{
    if elements.len() == 0 {
        Seq::empty()
    } else {
        elements[0].wire() + wire(elements.skip(1))
    }
}

/// What `out` has become after a list of elements.
pub open spec fn expand(elements: Seq<Element>, out: Seq<u8>) -> Seq<u8>
    decreases elements.len(),
{
    if elements.len() == 0 {
        out
    } else {
        expand(elements.skip(1), out + elements[0].appends(out))
    }
}

/// Each element of the list can be written where it stands.
pub open spec fn well_formed(elements: Seq<Element>, out: Seq<u8>) -> bool
    decreases elements.len(),
{
    elements.len() > 0 ==> {
        &&& elements[0].valid(out.len() as int)
        &&& well_formed(elements.skip(1), out + elements[0].appends(out))
    }
}

/// A list of elements only adds to the output.
pub proof fn lemma_expand_len(elements: Seq<Element>, out: Seq<u8>)
    ensures
        out.len() <= expand(elements, out).len(),
    decreases elements.len(),
{
    if elements.len() > 0 {
        lemma_expand_len(elements.skip(1), out + elements[0].appends(out));
    }
}

/// The tag bytes of the three kinds of copies, taken apart.
proof fn lemma_copy_tags(offset: int, len: int)
    ensures
        0 <= offset < 0x800 && 4 <= len <= 11 ==> ({
            let t = (1 + 4 * (len - 4) + 32 * (offset / 256)) as u8;
            &&& tag::kind(t) == 1
            &&& tag::copy_len(t) == len
            &&& t as int / 32 == offset / 256
        }),
        1 <= len <= 64 ==> ({
            let t = (2 + 4 * (len - 1)) as u8;
            &&& tag::kind(t) == 2
            &&& tag::copy_len(t) == len
        }),
        1 <= len <= 64 ==> ({
            let t = (3 + 4 * (len - 1)) as u8;
            &&& tag::kind(t) == 3
            &&& tag::copy_len(t) == len
        }),
{
    if 0 <= offset < 0x800 && 4 <= len <= 11 {
        let h = offset / 256;
        let t = 1 + 4 * (len - 4) + 32 * h;
        vstd::arithmetic::div_mod::lemma_fundamental_div_mod_converse(
            t,
            32,
            h,
            1 + 4 * (len - 4),
        );
        vstd::arithmetic::div_mod::lemma_fundamental_div_mod_converse(
            t,
            4,
            len - 4 + 8 * h,
            1,
        );
        vstd::arithmetic::div_mod::lemma_fundamental_div_mod_converse(
            len - 4 + 8 * h,
            8,
            h,
            len - 4,
        );
    }
}

/// The element `e` stands at `s`.
spec fn stands_at(e: Element, src: Seq<u8>, s: int) -> bool {
    &&& 0 <= s
    &&& s + e.wire().len() <= src.len()
    &&& e.wire() == src.subrange(s, s + e.wire().len())
}

proof fn lemma_stands_at(e: Element, src: Seq<u8>, s: int, i: int)
    requires
        stands_at(e, src, s),
        0 <= i < e.wire().len(),
    ensures
        src[s + i] == e.wire()[i],
{
    assert(src.subrange(s, s + e.wire().len())[i] == src[s + i]);
}

/// What is read from a literal that stands at `s`.
proof fn lemma_literal_wire(e: Element, data: Seq<u8>, width: nat, src: Seq<u8>, s: int)
    requires
        e == (Element::Literal { data, width }),
        stands_at(e, src, s),
        e.valid(0),
    ensures
        tag::kind(src[s]) == 0,
        width == 0 ==> src[s] as int / 4 + 1 == data.len(),
        width > 0 ==> src[s] as int / 4 + 1 == 60 + width,
        width > 0 ==> bytes::le_value(src, s + 1, width) + 1 == data.len(),
        e.wire().len() == 1 + width + data.len(),
        src.subrange(s + 1 + width, s + 1 + width + data.len()) == data,
{
    if width > 0 {
        let lens = bytes::le_bytes((data.len() - 1) as nat, width);
        bytes::lemma_le_bytes((data.len() - 1) as nat, width);
        assert forall|k: int| 0 <= k < width implies #[trigger] lens[0 + k] == src[s + 1 + k] by {
            lemma_stands_at(e, src, s, 1 + k);
        }
        bytes::lemma_le_value_eq(lens, 0, src, s + 1, width);
    }
    lemma_stands_at(e, src, s, 0);
    assert forall|k: int| 0 <= k < data.len() implies src[s + 1 + width + k] == #[trigger] data[k] by {
        lemma_stands_at(e, src, s, 1 + width + k);
    }
    assert(src.subrange(s + 1 + width, s + 1 + width + data.len()) =~= data);
}

/// The tag byte at `s` and the bytes behind it give a copy its offset and length.
spec fn copy_reads(src: Seq<u8>, s: int, offset: int, len: int) -> bool {
    &&& tag::copy_len(src[s]) == len
    &&& tag::copy_offset(
        src[s],
        bytes::le_value(src, s + 1, tag::trailer_len(src[s]) as nat),
    ) == offset
}

/// What is read from a copy that stands at `s`.
proof fn lemma_copy_wire(e: Element, src: Seq<u8>, s: int, d: int)
    requires
        stands_at(e, src, s),
        e.valid(d),
        !(e is Literal),
    ensures
        tag::kind(src[s]) != 0,
        e.wire().len() == 1 + tag::trailer_len(src[s]),
        e matches Element::Near { offset, len } ==> copy_reads(src, s, offset, len),
        e matches Element::Far { offset, len } ==> copy_reads(src, s, offset, len),
        e matches Element::Distant { offset, len } ==> copy_reads(src, s, offset, len),
{
    match e {
        Element::Literal { .. } => {},
        Element::Near { offset, len } => {
            lemma_stands_at(e, src, s, 0);
            lemma_stands_at(e, src, s, 1);
            lemma_copy_tags(offset, len);
            bytes::lemma_le_value_unfold(src, s + 1, 1);
        },
        Element::Far { offset, len } => {
            let trailer = bytes::le_bytes(offset as nat, 2);
            bytes::lemma_le_bytes(offset as nat, 2);
            lemma_stands_at(e, src, s, 0);
            lemma_copy_tags(offset, len);
            assert forall|k: int| 0 <= k < 2 implies #[trigger] trailer[0 + k] == src[s + 1 + k] by {
                lemma_stands_at(e, src, s, 1 + k);
            }
            bytes::lemma_le_value_eq(trailer, 0, src, s + 1, 2);
        },
        Element::Distant { offset, len } => {
            let trailer = bytes::le_bytes(offset as nat, 4);
            bytes::lemma_le_bytes(offset as nat, 4);
            lemma_stands_at(e, src, s, 0);
            lemma_copy_tags(offset, len);
            assert forall|k: int| 0 <= k < 4 implies #[trigger] trailer[0 + k] == src[s + 1 + k] by {
                lemma_stands_at(e, src, s, 1 + k);
            }
            bytes::lemma_le_value_eq(trailer, 0, src, s + 1, 4);
        },
    }
}

/// Decompressing goes on behind a valid element that stands at `s`.
proof fn lemma_wire_step(e: Element, src: Seq<u8>, s: int, out: Seq<u8>, dst_len: int)
    requires
        stands_at(e, src, s),
        e.valid(out.len() as int),
        out.len() + e.appends(out).len() <= dst_len,
    ensures
        block::decode(src, s, out, dst_len) == block::decode(
            src,
            s + e.wire().len(),
            out + e.appends(out),
            dst_len,
        ),
{
    match e {
        Element::Literal { data, width } => {
            lemma_literal_wire(e, data, width, src, s);
            block::lemma_decode_literal(src, s, out, dst_len);
        },
        _ => {
            lemma_copy_wire(e, src, s, out.len() as int);
            block::lemma_decode_copy(src, s, out, dst_len);
        },
    }
}

/// Decompressing a list of well-formed elements appends what they say, and goes
/// on behind them.
pub proof fn lemma_decode_elements(
    elements: Seq<Element>,
    src: Seq<u8>,
    s: int,
    out: Seq<u8>,
    dst_len: int,
)
    requires
        0 <= s,
        s + wire(elements).len() <= src.len(),
        src.subrange(s, s + wire(elements).len()) == wire(elements),
        well_formed(elements, out),
        expand(elements, out).len() <= dst_len,
    ensures
        block::decode(src, s, out, dst_len) == block::decode(
            src,
            s + wire(elements).len(),
            expand(elements, out),
            dst_len,
        ),
    decreases elements.len(),
{
    if elements.len() > 0 {
        let e = elements[0];
        let rest = elements.skip(1);
        let after = out + e.appends(out);
        let w = e.wire();
        let all = wire(elements);
        let end = s + all.len();
        assert(all.len() == w.len() + wire(rest).len());
        assert(src.subrange(s, s + w.len()) =~= src.subrange(s, end).take(w.len() as int));
        assert(all.take(w.len() as int) =~= w);
        assert(src.subrange(s + w.len(), end) =~= src.subrange(s, end).skip(w.len() as int));
        assert(all.skip(w.len() as int) =~= wire(rest));
        lemma_expand_len(rest, after);
        lemma_wire_step(e, src, s, out, dst_len);
        lemma_decode_elements(rest, src, s + w.len(), after, dst_len);
    }
}

/// The literal whose tag byte stands at `s`, if it is not refused.
proof fn lemma_literal_at(src: Seq<u8>, s: int, d: int, dst_len: int) -> (e: Element)
    requires
        0 <= s < src.len(),
        tag::kind(src[s]) == 0,
        block::literal_step(src, s, d, dst_len) is Literal,
    ensures
        stands_at(e, src, s),
        e.valid(d),
        block::literal_step(src, s, d, dst_len) matches block::Step::Literal { start, len } ==> {
            &&& e matches Element::Literal { data, .. }
            &&& data == src.subrange(start, start + len)
            &&& start + len == s + e.wire().len()
        },
{
    let t = src[s];
    let short = t as int / 4 + 1;
    if short <= 60 {
        let data = src.subrange(s + 1, s + 1 + short);
        let e = Element::Literal { data, width: 0 };
        assert(t == 4 * (t / 4)) by (bit_vector)
            requires
                t % 4 == 0,
        ;
        assert(e.wire() =~= src.subrange(s, s + 1 + short));
        e
    } else {
        let width = (short - 60) as nat;
        let len = bytes::le_value(src, s + 1, width) + 1;
        bytes::lemma_le_value_unfold(src, s + 1, width);
        bytes::lemma_le_value(src, s + 1, width);
        let data = src.subrange(s + 1 + width, s + 1 + width + len);
        let e = Element::Literal { data, width };
        assert(t == 4 * (t / 4)) by (bit_vector)
            requires
                t % 4 == 0,
        ;
        assert(e.wire() =~= src.subrange(s, s + 1 + width + len));
        e
    }
}

/// The copy whose tag byte stands at `s`, if it is not refused.
proof fn lemma_copy_at(src: Seq<u8>, s: int, out: Seq<u8>, dst_len: int) -> (e: Element)
    requires
        0 <= s < src.len(),
        tag::kind(src[s]) != 0,
        block::copy_step(src, s, out.len() as int, dst_len) is Copy,
    ensures
        stands_at(e, src, s),
        e.valid(out.len() as int),
        !(e is Literal),
        block::copy_step(src, s, out.len() as int, dst_len) matches block::Step::Copy {
            next,
            offset,
            len,
        } ==> {
            &&& e.appends(out) == block::repeated(out, offset, len)
            &&& next == s + e.wire().len()
        },
{
    let t = src[s];
    let trailer = tag::trailer_len(t);
    let offset = tag::copy_offset(t, bytes::le_value(src, s + 1, trailer as nat));
    let len = tag::copy_len(t);
    bytes::lemma_le_value_unfold(src, s + 1, trailer as nat);
    if tag::kind(t) == 1 {
        let e = Element::Near { offset, len };
        assert(t == 1 + 4 * ((t / 4) % 8) + 32 * (t / 32)) by (bit_vector)
            requires
                t % 4 == 1,
        ;
        vstd::arithmetic::div_mod::lemma_fundamental_div_mod_converse(
            offset,
            256,
            t as int / 32,
            src[s + 1] as int,
        );
        assert(e.wire() =~= src.subrange(s, s + 2));
        e
    } else if tag::kind(t) == 2 {
        let e = Element::Far { offset, len };
        assert(t == 2 + 4 * (t / 4)) by (bit_vector)
            requires
                t % 4 == 2,
        ;
        bytes::lemma_le_value(src, s + 1, 2);
        assert(e.wire() =~= src.subrange(s, s + 3));
        e
    } else {
        let e = Element::Distant { offset, len };
        assert(t == 3 + 4 * (t / 4)) by (bit_vector)
            requires
                t % 4 == 3,
        ;
        bytes::lemma_le_value(src, s + 1, 4);
        assert(e.wire() =~= src.subrange(s, s + 5));
        e
    }
}

/// What decompresses without an error is a list of well-formed elements.
pub proof fn lemma_decode_is_elements(src: Seq<u8>, s: int, out: Seq<u8>, dst_len: int) -> (elements:
    Seq<Element>)
    requires
        0 <= s <= src.len(),
        block::decode(src, s, out, dst_len).error is None,
    ensures
        src.skip(s) == wire(elements),
        well_formed(elements, out),
        expand(elements, out) == block::decode(src, s, out, dst_len).bytes,
    decreases src.len() - s,
{
    if s == src.len() {
        assert(src.skip(s) =~= Seq::empty());
        Seq::empty()
    } else {
        let e = if tag::kind(src[s]) == 0 {
            block::lemma_decode_literal(src, s, out, dst_len);
            lemma_literal_at(src, s, out.len() as int, dst_len)
        } else {
            block::lemma_decode_copy(src, s, out, dst_len);
            lemma_copy_at(src, s, out, dst_len)
        };
        let next = s + e.wire().len();
        let rest = lemma_decode_is_elements(src, next, out + e.appends(out), dst_len);
        let elements = seq![e] + rest;
        assert(elements.skip(1) =~= rest);
        assert(src.skip(s) =~= e.wire() + src.skip(next));
        elements
    }
}

} // verus!
