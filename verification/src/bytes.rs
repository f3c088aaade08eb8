//! Integers as they stand in a block: little-endian and base-128.
use vstd::prelude::*;

verus! {

/// The value of the `n` bytes of `s` at position `at`, least significant byte
/// first.
pub open spec fn le_value(s: Seq<u8>, at: int, n: nat) -> nat
    decreases n,
{
    if n == 0 {
        0
    } else {
        s[at] as nat + 256 * le_value(s, at + 1, (n - 1) as nat)
    }
}

/// The `n` bytes of `value`, least significant byte first.
pub open spec fn le_bytes(value: nat, n: nat) -> Seq<u8>
    decreases n,
{
    if n == 0 {
        Seq::empty()
    } else {
        seq![(value % 256) as u8] + le_bytes(value / 256, (n - 1) as nat)
    }
}

/// The base-128 integer at the front of `s`: its value and the number of bytes
/// that it takes. The least significant digit comes first, and every digit but
/// the last has its high bit set. There is none if no byte of `s` ends it.
pub open spec fn varint(s: Seq<u8>) -> Option<(nat, nat)>
    decreases s.len(),
{
    if s.len() == 0 {
        None
    } else if s[0] < 128 {
        Some((s[0] as nat, 1))
    } else {
        match varint(s.skip(1)) {
            Some((value, len)) => Some(((s[0] - 128) as nat + 128 * value, len + 1)),
            None => None,
        }
    }
}

/// The shortest base-128 form of `value`.
pub open spec fn varint_bytes(value: nat) -> Seq<u8>
    decreases value,
{
    if value < 128 {
        seq![value as u8]
    } else {
        seq![(128 + value % 128) as u8] + varint_bytes(value / 128)
    }
}

/// The base-128 integer at the front of `s`, if it fits in 64 bits and takes no
/// more bytes than 64 bits can need.
pub open spec fn varu64(s: Seq<u8>) -> Option<(nat, nat)> {
    match varint(s) {
        Some((value, len)) => if value <= u64::MAX && len <= 10 {
            Some((value, len))
        } else {
            None
        },
        None => None,
    }
}

/// The value of some bytes does not depend on where they stand.
pub proof fn lemma_le_value_eq(a: Seq<u8>, i: int, b: Seq<u8>, j: int, n: nat)
    requires
        forall|k: int| 0 <= k < n ==> #[trigger] a[i + k] == b[j + k],
    ensures
        le_value(a, i, n) == le_value(b, j, n),
    decreases n,
{
    if n > 0 {
        assert(a[i + 0] == b[j + 0]);
        assert forall|k: int| 0 <= k < n - 1 implies #[trigger] a[i + 1 + k] == b[j + 1 + k] by {
            assert(a[i + (k + 1)] == b[j + (k + 1)]);
        }
        lemma_le_value_eq(a, i + 1, b, j + 1, (n - 1) as nat);
    }
}

/// A value that fits in `n` bytes can be read back from them.
pub proof fn lemma_le_bytes(value: nat, n: nat)
    requires
        n <= 4,
        n == 1 ==> value < 0x100,
        n == 2 ==> value < 0x1_0000,
        n == 3 ==> value < 0x100_0000,
        n == 4 ==> value < 0x1_0000_0000,
        n == 0 ==> value == 0,
    ensures
        le_bytes(value, n).len() == n,
        le_value(le_bytes(value, n), 0, n) == value,
    decreases n,
{
    if n > 0 {
        let all = le_bytes(value, n);
        let rest = le_bytes(value / 256, (n - 1) as nat);
        lemma_le_bytes(value / 256, (n - 1) as nat);
        assert forall|k: int| 0 <= k < n - 1 implies #[trigger] all[1 + k] == rest[0 + k] by {}
        lemma_le_value_eq(all, 1, rest, 0, (n - 1) as nat);
    }
}

/// Bytes can be written back from their value.
pub proof fn lemma_le_value(s: Seq<u8>, at: int, n: nat)
    requires
        0 <= at,
        at + n <= s.len(),
    ensures
        le_bytes(le_value(s, at, n), n) == s.subrange(at, at + n),
    decreases n,
{
    if n > 0 {
        lemma_le_value(s, at + 1, (n - 1) as nat);
        assert(s.subrange(at, at + n) =~= seq![s[at]] + s.subrange(at + 1, at + n));
    } else {
        assert(s.subrange(at, at) =~= Seq::empty());
    }
}

/// A base-128 integer takes at least one byte, and no more than there are.
pub proof fn lemma_varint_len(s: Seq<u8>)
    ensures
        varint(s) matches Some((_, len)) ==> 1 <= len <= s.len(),
    decreases s.len(),
{
    if s.len() > 0 && s[0] >= 128 {
        lemma_varint_len(s.skip(1));
    }
}

/// The last byte of a base-128 integer in its shortest form is not a zero, unless
/// it is the only one.
pub proof fn lemma_varint_bytes_last(value: nat)
    ensures
        varint_bytes(value).len() > 0,
        varint_bytes(value).last() == 0 ==> value == 0,
        value == 0 ==> varint_bytes(value).len() == 1,
    decreases value,
{
    if value >= 128 {
        lemma_varint_bytes_last(value / 128);
    }
}

/// The bytes of a base-128 integer are those with the high bit set and the first
/// one without it, and its value is less than `128` to the power of their number.
pub proof fn lemma_varint_shape(s: Seq<u8>)
    ensures
        varint(s) matches Some((value, len)) ==> {
            &&& 1 <= len <= s.len()
            &&& s[len - 1] < 128
            &&& forall|i: int| 0 <= i < len - 1 ==> #[trigger] s[i] >= 128
            &&& value < vstd::arithmetic::power2::pow2(7 * len)
        },
        varint(s) is None ==> forall|i: int| 0 <= i < s.len() ==> #[trigger] s[i] >= 128,
    decreases s.len(),
{
    vstd::arithmetic::power2::lemma2_to64();
    if s.len() > 0 && s[0] >= 128 {
        let rest = s.skip(1);
        lemma_varint_shape(rest);
        assert forall|i: int| 1 <= i < s.len() implies #[trigger] s[i] == rest[i - 1] by {}
        if let Some((value, len)) = varint(rest) {
            vstd::arithmetic::power2::lemma_pow2_adds(7, 7 * len);
            assert(7 + 7 * len == 7 * (len + 1));
        }
    }
}

/// What follows a base-128 integer does not change it.
pub proof fn lemma_varint_prefix(s: Seq<u8>, rest: Seq<u8>)
    requires
        varint(s) is Some,
    ensures
        varint(s + rest) == varint(s),
    decreases s.len(),
{
    assert((s + rest)[0] == s[0]);
    if s[0] >= 128 {
        assert((s + rest).skip(1) =~= s.skip(1) + rest);
        lemma_varint_prefix(s.skip(1), rest);
    }
}

/// The shortest base-128 form of a value can be read back.
pub proof fn lemma_varint_bytes(value: nat)
    ensures
        varint(varint_bytes(value)) == Some((value, varint_bytes(value).len())),
    decreases value,
{
    if value >= 128 {
        lemma_varint_bytes(value / 128);
        assert(varint_bytes(value).skip(1) =~= varint_bytes(value / 128));
    }
}

/// The shortest base-128 form of a value of 64 bits takes at most ten bytes.
pub proof fn lemma_varint_bytes_len(value: nat)
    requires
        value <= u64::MAX,
    ensures
        1 <= varint_bytes(value).len() <= 10,
{
    reveal_with_fuel(varint_bytes, 11);
}

/// The integers of up to four bytes, written out.
pub proof fn lemma_le_value_unfold(s: Seq<u8>, at: int, n: nat)
    ensures
        n == 1 ==> le_value(s, at, n) == s[at],
        n == 2 ==> le_value(s, at, n) == s[at] + 256 * s[at + 1],
        n == 3 ==> le_value(s, at, n) == s[at] + 256 * s[at + 1] + 65536 * s[at + 2],
        n == 4 ==> le_value(s, at, n) == s[at] + 256 * s[at + 1] + 65536 * s[at + 2] + 16777216
            * s[at + 3],
{
    reveal_with_fuel(le_value, 5);
}

/// Reads the four bytes of `src` at `at` as a little-endian integer.
pub fn loadu_u32_le(src: &[u8], at: usize) -> (value: u32)
    requires
        at + 4 <= src.len(),
    ensures
        value == le_value(src@, at as int, 4),
{
    proof {
        lemma_le_value_unfold(src@, at as int, 4);
    }
    src[at] as u32 + src[at + 1] as u32 * 0x100 + src[at + 2] as u32 * 0x1_0000 + src[at + 3] as u32
        * 0x100_0000
}

/// Reads the `n` bytes of `src` at `at` as a little-endian integer.
pub fn load_le(src: &[u8], at: usize, n: usize) -> (value: u32)
    requires
        n <= 4,
        at + n <= src.len(),
    ensures
        value == le_value(src@, at as int, n as nat),
{
    let mut value: u32 = 0;
    let mut i: usize = n;
    while i > 0
        invariant
            i <= n <= 4,
            at + n <= src.len(),
            value == le_value(src@, at + i, (n - i) as nat),
            n - i == 0 ==> value == 0,
            n - i <= 1 ==> value < 0x100,
            n - i <= 2 ==> value < 0x1_0000,
            n - i <= 3 ==> value < 0x100_0000,
        decreases i,
    {
        i = i - 1;
        value = value * 256 + src[at + i] as u32;
    }
    value
}

/// The weight of a digit that is shifted left by `shift` bits.
spec fn weight(shift: nat) -> nat {
    vstd::arithmetic::power2::pow2(shift)
}

/// The weight of a base-128 digit and that of the next one.
proof fn lemma_weight(shift: nat)
    requires
        shift <= 63,
        shift % 7 == 0,
    ensures
        0 < weight(shift),
        weight(shift + 7) == 128 * weight(shift),
        shift < 63 ==> 128 * weight(shift) <= 0x8000_0000_0000_0000,
        shift == 63 ==> weight(shift) == 0x8000_0000_0000_0000,
{
    vstd::arithmetic::power2::lemma2_to64();
    vstd::arithmetic::power2::lemma2_to64_rest();
    vstd::arithmetic::power2::lemma_pow2_adds(shift, 7);
}

/// Reads the base-128 integer at the front of `data`: its value and the number
/// of bytes that it takes, or twice zero if there is none that fits.
pub fn read_varu64(data: &[u8]) -> (read: (u64, usize))
    ensures
        match varu64(data@) {
            Some((value, len)) => read.0 == value && read.1 == len,
            None => read == (0u64, 0usize),
        },
{
    let mut value: u64 = 0;
    let mut shift: u64 = 0;
    let mut i: usize = 0;
    proof {
        vstd::arithmetic::power2::lemma2_to64();
        assert(data@.skip(0) =~= data@);
    }
    while i < data.len()
        invariant
            i <= data@.len(),
            i <= 9,
            shift == 7 * i,
            value < weight(shift as nat),
            varint(data@) == match varint(data@.skip(i as int)) {
                Some((rest, len)) => Some(
                    ((value + weight(shift as nat) * rest) as nat, len + i as nat),
                ),
                None => None::<(nat, nat)>,
            },
        decreases data@.len() - i,
    {
        let byte = data[i];
        let ghost tail = data@.skip(i as int);
        let ghost scale = weight(shift as nat);
        proof {
            assert(tail.skip(1) =~= data@.skip(i + 1));
            lemma_weight(shift as nat);
        }
        if i == 9 && byte >= 2 {
            proof {
                if byte < 128 {
                    assert(scale * byte >= 2 * scale) by (nonlinear_arith)
                        requires
                            byte >= 2,
                            scale >= 0,
                    ;
                }
            }
            return (0, 0);
        }
        let digit = (if byte < 128 { byte } else { byte - 128 }) as u64;
        proof {
            assert(0 <= digit * scale <= 127 * scale) by (nonlinear_arith)
                requires
                    digit <= 127,
                    scale >= 0,
            ;
            assert(i == 9 ==> digit * scale <= scale) by (nonlinear_arith)
                requires
                    i == 9 ==> digit <= 1,
                    scale >= 0,
            ;
            vstd::bits::lemma_u64_shl_is_mul(digit, shift);
            assert(digit * scale == scale * digit) by (nonlinear_arith);
        }
        value = value + (digit << shift);
        if byte < 128 {
            return (value, i + 1);
        }
        proof {
            if let Some((rest, len)) = varint(tail.skip(1)) {
                assert(scale * ((byte - 128) + 128 * rest) == scale * digit + (128 * scale) * rest)
                    by (nonlinear_arith)
                    requires
                        digit == byte - 128,
                ;
            }
        }
        shift = shift + 7;
        i = i + 1;
    }
    (0, 0)
}

} // verus!
