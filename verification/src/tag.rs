//! Tag bytes: the byte that starts an element and what it says of the element.
//!
//! The two low bits of a tag byte give the kind of the element. A literal is
//! `00`; the copies are `01`, `10` and `11`, and the kind of a copy says how
//! many bytes of its offset follow the tag byte.
use vstd::prelude::*;

verus! {

/// What each tag byte says of its element, in the bit layout
/// `..aa abbb .ccc cccc`: `a` is the number of bytes that follow the tag byte
/// before the element's data, `b` the high bits of the offset of a copy of kind
/// `01`, and `c` the length of the element as far as the tag byte gives it.
pub const TAG_LOOKUP_TABLE: [u16; 256] = [
    0x0001, 0x0804, 0x1001, 0x2001, 0x0002, 0x0805, 0x1002, 0x2002,
    0x0003, 0x0806, 0x1003, 0x2003, 0x0004, 0x0807, 0x1004, 0x2004,
    0x0005, 0x0808, 0x1005, 0x2005, 0x0006, 0x0809, 0x1006, 0x2006,
    0x0007, 0x080a, 0x1007, 0x2007, 0x0008, 0x080b, 0x1008, 0x2008,
    0x0009, 0x0904, 0x1009, 0x2009, 0x000a, 0x0905, 0x100a, 0x200a,
    0x000b, 0x0906, 0x100b, 0x200b, 0x000c, 0x0907, 0x100c, 0x200c,
    0x000d, 0x0908, 0x100d, 0x200d, 0x000e, 0x0909, 0x100e, 0x200e,
    0x000f, 0x090a, 0x100f, 0x200f, 0x0010, 0x090b, 0x1010, 0x2010,
    0x0011, 0x0a04, 0x1011, 0x2011, 0x0012, 0x0a05, 0x1012, 0x2012,
    0x0013, 0x0a06, 0x1013, 0x2013, 0x0014, 0x0a07, 0x1014, 0x2014,
    0x0015, 0x0a08, 0x1015, 0x2015, 0x0016, 0x0a09, 0x1016, 0x2016,
    0x0017, 0x0a0a, 0x1017, 0x2017, 0x0018, 0x0a0b, 0x1018, 0x2018,
    0x0019, 0x0b04, 0x1019, 0x2019, 0x001a, 0x0b05, 0x101a, 0x201a,
    0x001b, 0x0b06, 0x101b, 0x201b, 0x001c, 0x0b07, 0x101c, 0x201c,
    0x001d, 0x0b08, 0x101d, 0x201d, 0x001e, 0x0b09, 0x101e, 0x201e,
    0x001f, 0x0b0a, 0x101f, 0x201f, 0x0020, 0x0b0b, 0x1020, 0x2020,
    0x0021, 0x0c04, 0x1021, 0x2021, 0x0022, 0x0c05, 0x1022, 0x2022,
    0x0023, 0x0c06, 0x1023, 0x2023, 0x0024, 0x0c07, 0x1024, 0x2024,
    0x0025, 0x0c08, 0x1025, 0x2025, 0x0026, 0x0c09, 0x1026, 0x2026,
    0x0027, 0x0c0a, 0x1027, 0x2027, 0x0028, 0x0c0b, 0x1028, 0x2028,
    0x0029, 0x0d04, 0x1029, 0x2029, 0x002a, 0x0d05, 0x102a, 0x202a,
    0x002b, 0x0d06, 0x102b, 0x202b, 0x002c, 0x0d07, 0x102c, 0x202c,
    0x002d, 0x0d08, 0x102d, 0x202d, 0x002e, 0x0d09, 0x102e, 0x202e,
    0x002f, 0x0d0a, 0x102f, 0x202f, 0x0030, 0x0d0b, 0x1030, 0x2030,
    0x0031, 0x0e04, 0x1031, 0x2031, 0x0032, 0x0e05, 0x1032, 0x2032,
    0x0033, 0x0e06, 0x1033, 0x2033, 0x0034, 0x0e07, 0x1034, 0x2034,
    0x0035, 0x0e08, 0x1035, 0x2035, 0x0036, 0x0e09, 0x1036, 0x2036,
    0x0037, 0x0e0a, 0x1037, 0x2037, 0x0038, 0x0e0b, 0x1038, 0x2038,
    0x0039, 0x0f04, 0x1039, 0x2039, 0x003a, 0x0f05, 0x103a, 0x203a,
    0x003b, 0x0f06, 0x103b, 0x203b, 0x003c, 0x0f07, 0x103c, 0x203c,
    0x0800, 0x0f08, 0x103d, 0x203d, 0x1000, 0x0f09, 0x103e, 0x203e,
    0x1800, 0x0f0a, 0x103f, 0x203f, 0x2000, 0x0f0b, 0x1040, 0x2040,
];

/// The bits of the bytes after a tag that belong to the offset of a copy of kind
/// `01` or `10`. The offset of a copy of kind `11` takes all of them, and no
/// mask.
const OFFSET_MASKS: [u32; 4] = [0, 0xff, 0xffff, 0];

/// The kind of the element that `tag` starts.
pub open spec fn kind(tag: u8) -> int {
    tag as int % 4
}

/// The number of bytes of an offset that follow the tag byte of a copy.
pub open spec fn trailer_len(tag: u8) -> int {
    if kind(tag) == 3 {
        4
    } else {
        kind(tag)
    }
}

/// The number of bytes that a copy appends.
pub open spec fn copy_len(tag: u8) -> int {
    if kind(tag) == 1 {
        4 + (tag as int / 4) % 8
    } else {
        tag as int / 4 + 1
    }
}

/// The offset of a copy, given its tag byte and the bytes that follow it as a
/// little-endian integer. A copy of kind `01` has three more bits of its offset
/// in the tag byte.
pub open spec fn copy_offset(tag: u8, trailer: nat) -> int {
    if kind(tag) == 1 {
        256 * (tag as int / 32) + trailer
    } else {
        trailer as int
    }
}

/// The entry of the table for `tag`.
pub open spec fn entry(tag: u8) -> int {
    if kind(tag) == 0 {
        if tag < 240 {
            tag as int / 4 + 1
        } else {
            2048 * (tag as int / 4 - 59)
        }
    } else if kind(tag) == 1 {
        2048 + 256 * (tag as int / 32) + copy_len(tag)
    } else {
        2048 * trailer_len(tag) + copy_len(tag)
    }
}

/// Every entry of the table is what its tag byte says.
pub proof fn lemma_table(tag: u8)
    ensures
        TAG_LOOKUP_TABLE@[tag as int] == entry(tag),
{
}

/// Looks up the entry of a tag byte.
pub fn lookup(tag: u8) -> (found: u16)
    ensures
        found == entry(tag),
{
    proof {
        lemma_table(tag);
    }
    TAG_LOOKUP_TABLE[tag as usize]
}

/// The mask of the offset bits in the bytes after the tag of a copy of kind
/// `tag_type`, for the kinds that have one; otherwise zero.
pub fn extract_offset_mask(tag_type: usize) -> (mask: u32)
    requires
        tag_type < 4,
    ensures
        tag_type == 1 ==> mask == 0xff,
        tag_type == 2 ==> mask == 0xffff,
        tag_type == 0 || tag_type == 3 ==> mask == 0,
{
    OFFSET_MASKS[tag_type]
}

/// The kind of the element that `tag` starts.
pub fn tag_type(tag: u8) -> (found: usize)
    ensures
        found == kind(tag),
{
    assert(tag & 3 == tag % 4) by (bit_vector);
    (tag & 3) as usize
}

/// The length of a copy whose tag byte has the entry `entry_val`.
pub fn entry_len(entry_val: u16) -> (len: usize)
    ensures
        len == entry_val % 256,
        forall|tag: u8|
            kind(tag) != 0 && entry_val == #[trigger] entry(tag) ==> len == copy_len(tag),
{
    assert(entry_val & 0xff == entry_val % 256) by (bit_vector);
    (entry_val & 0xff) as usize
}

/// The offset of a copy of kind `tag_type` whose tag byte has the entry
/// `entry_val`, where `loaded` is what follows the tag byte: at least the bytes
/// of the offset, least significant byte first.
pub fn entry_offset(entry_val: u16, tag_type: usize, loaded: u32) -> (offset: usize)
    requires
        1 <= tag_type < 4,
        tag_type != 1 ==> (entry_val / 256) % 8 == 0,
    ensures
        tag_type == 1 ==> offset == 256 * ((entry_val / 256) % 8) + loaded % 256,
        tag_type == 2 ==> offset == loaded % 65536,
        tag_type == 3 ==> offset == loaded,
{
    if tag_type == 3 {
        return loaded as usize;
    }
    let high = (entry_val & 0x700) as u32;
    let extracted = loaded & extract_offset_mask(tag_type);
    proof {
        assert((entry_val & 0x700) == 256 * ((entry_val / 256) % 8)) by (bit_vector);
        assert(loaded & 0xff == loaded % 256) by (bit_vector);
        assert(loaded & 0xffff == loaded % 65536) by (bit_vector);
        assert(high % 256 == 0 && extracted < 256 ==> high | extracted == high + extracted)
            by (bit_vector);
        assert(high == 0 ==> high | extracted == extracted) by (bit_vector);
    }
    (high | extracted) as usize
}

} // verus!
