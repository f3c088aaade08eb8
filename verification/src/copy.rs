//! Moving bytes into and within the output.
//!
//! Most copies are short, so they move a fixed number of bytes that is at least
//! the length of the copy. What they write behind the end of the copy is
//! scratch: it is overwritten by the elements that follow.
use crate::block;
use vstd::prelude::*;

verus! {

/// The room that the longest copy needs in the output, together with the scratch
/// behind it.
pub(crate) const COPY_ROOM: usize = 88;

/// The byte of `s` at `j` is the one `offset` positions before it.
pub(crate) open spec fn echoes(s: Seq<u8>, j: int, offset: int) -> bool {
    s[j] == s[j - offset]
}

/// `after` is `before` with a copy of `len` bytes at `at` in it, of which each
/// byte equals the one `offset` positions before it. What stands before `at`, or
/// at `end` and behind it, has not changed.
pub(crate) open spec fn copied(
    before: Seq<u8>,
    after: Seq<u8>,
    at: int,
    offset: int,
    len: int,
    end: int,
) -> bool {
    &&& after.len() == before.len()
    &&& forall|j: int| 0 <= j < at ==> #[trigger] after[j] == before[j]
    &&& forall|j: int| at <= j < at + len ==> #[trigger] echoes(after, j, offset)
    &&& forall|j: int| end <= j < after.len() ==> #[trigger] after[j] == before[j]
}

/// `after` is `before` with the `n` bytes at `from` put at `to`.
pub(crate) open spec fn moved(before: Seq<u8>, after: Seq<u8>, from: int, to: int, n: int) -> bool {
    &&& after.len() == before.len()
    &&& forall|j: int|
        0 <= j < after.len() ==> #[trigger] after[j] == if to <= j < to + n {
            before[from + (j - to)]
        } else {
            before[j]
        }
}

/// `buf` with `data` in place of what stands at `at`.
pub(crate) open spec fn overwritten(buf: Seq<u8>, at: int, data: Seq<u8>) -> Seq<u8> {
    buf.take(at) + data + buf.skip(at + data.len())
}

/// Copies `n` bytes of `src` at `s` to `dst` at `d`.
pub(crate) fn copy_from(src: &[u8], s: usize, dst: &mut [u8], d: usize, n: usize)
    requires
        s + n <= src.len(),
        d + n <= old(dst).len(),
    ensures
        final(dst)@ == overwritten(old(dst)@, d as int, src@.subrange(s as int, s + n)),
{
    let ghost before = dst@;
    let mut i: usize = 0;
    while i < n
        invariant
            i <= n,
            s + n <= src.len(),
            d + n <= dst.len(),
            dst@.len() == before.len(),
            forall|j: int|
                0 <= j < before.len() ==> #[trigger] dst@[j] == if d <= j < d + i {
                    src@[s + (j - d)]
                } else {
                    before[j]
                },
        decreases n - i,
    {
        dst[d + i] = src[s + i];
        i = i + 1;
    }
    assert(dst@ =~= overwritten(before, d as int, src@.subrange(s as int, s + n)));
}

/// Moves the `n` bytes of `buf` at `from` to `to`, which is not before `from`.
/// The two ranges may overlap.
pub(crate) fn move_within(buf: &mut [u8], from: usize, to: usize, n: usize)
    requires
        from <= to,
        to + n <= old(buf).len(),
    ensures
        moved(old(buf)@, final(buf)@, from as int, to as int, n as int),
{
    let ghost before = buf@;
    let mut i: usize = n;
    while i > 0
        invariant
            i <= n,
            from <= to,
            to + n <= buf.len(),
            buf@.len() == before.len(),
            forall|j: int|
                0 <= j < before.len() ==> #[trigger] buf@[j] == if to + i <= j < to + n {
                    before[from + (j - to)]
                } else {
                    before[j]
                },
        decreases i,
    {
        i = i - 1;
        buf[to + i] = buf[from + i];
    }
}

/// A copy of `len` bytes grows by `n` bytes, if these are moved to its end from
/// `offset` positions before it.
proof fn lemma_chunk(
    before: Seq<u8>,
    mid: Seq<u8>,
    after: Seq<u8>,
    at: int,
    offset: int,
    len: int,
    n: int,
)
    requires
        copied(before, mid, at, offset, len, at + len),
        moved(mid, after, at + len - offset, at + len, n),
        0 <= n <= offset <= at,
        0 <= len,
        at + len + n <= before.len(),
    ensures
        copied(before, after, at, offset, len + n, at + len + n),
{
    assert forall|j: int| at <= j < at + len + n implies #[trigger] echoes(after, j, offset) by {
        if j < at + len {
            assert(echoes(mid, j, offset));
        }
    }
}

/// The number of bytes that [`wide_copy`] writes.
pub(crate) open spec fn wide_width(len: int) -> int {
    if len > 48 {
        64
    } else if len > 32 {
        48
    } else {
        32
    }
}

/// The number of bytes that [`wide_copy_long`] writes.
pub(crate) open spec fn wide_long_width(len: int) -> int {
    if len > 32 {
        64
    } else {
        32
    }
}

/// Copies up to 64 bytes in chunks of 16 bytes. The source is at least 16 bytes
/// before the destination, so that no chunk overlaps its source.
pub(crate) fn wide_copy(buf: &mut [u8], srcp: usize, dstp: usize, len: usize)
    requires
        len <= 64,
        srcp + 16 <= dstp,
        dstp + wide_width(len as int) <= old(buf).len(),
    ensures
        copied(
            old(buf)@,
            final(buf)@,
            dstp as int,
            dstp - srcp,
            wide_width(len as int),
            dstp + wide_width(len as int),
        ),
{
    let ghost before = buf@;
    let ghost offset = dstp - srcp;
    move_within(buf, srcp, dstp, 16);
    let ghost one = buf@;
    move_within(buf, srcp + 16, dstp + 16, 16);
    let ghost two = buf@;
    proof {
        lemma_chunk(before, before, one, dstp as int, offset, 0, 16);
        lemma_chunk(before, one, two, dstp as int, offset, 16, 16);
    }
    if len > 32 {
        move_within(buf, srcp + 32, dstp + 32, 16);
        let ghost three = buf@;
        proof {
            lemma_chunk(before, two, three, dstp as int, offset, 32, 16);
        }
        if len > 48 {
            move_within(buf, srcp + 48, dstp + 48, 16);
            proof {
                lemma_chunk(before, three, buf@, dstp as int, offset, 48, 16);
            }
        }
    }
}

/// Copies up to 64 bytes in chunks of 32 bytes. The source is at least 32 bytes
/// before the destination, so that no chunk overlaps its source.
pub(crate) fn wide_copy_long(buf: &mut [u8], srcp: usize, dstp: usize, len: usize)
    requires
        len <= 64,
        srcp + 32 <= dstp,
        dstp + wide_long_width(len as int) <= old(buf).len(),
    ensures
        copied(
            old(buf)@,
            final(buf)@,
            dstp as int,
            dstp - srcp,
            wide_long_width(len as int),
            dstp + wide_long_width(len as int),
        ),
{
    let ghost before = buf@;
    let ghost offset = dstp - srcp;
    move_within(buf, srcp, dstp, 32);
    let ghost one = buf@;
    proof {
        lemma_chunk(before, before, one, dstp as int, offset, 0, 32);
    }
    if len > 32 {
        move_within(buf, srcp + 32, dstp + 32, 32);
        proof {
            lemma_chunk(before, one, buf@, dstp as int, offset, 32, 32);
        }
    }
}

/// Copies up to 64 bytes of `src` at `s` to `dst` at `d`, in chunks of 32 bytes.
pub(crate) fn wide_copy_from(src: &[u8], s: usize, dst: &mut [u8], d: usize, len: usize)
    requires
        len <= 64,
        s + wide_long_width(len as int) <= src.len(),
        d + wide_long_width(len as int) <= old(dst).len(),
    ensures
        final(dst)@ == overwritten(
            old(dst)@,
            d as int,
            src@.subrange(s as int, s + wide_long_width(len as int)),
        ),
{
    let ghost before = dst@;
    copy_from(src, s, dst, d, 32);
    if len > 32 {
        copy_from(src, s + 32, dst, d + 32, 32);
        assert(dst@ =~= overwritten(before, d as int, src@.subrange(s as int, s + 64)));
    }
}

/// Bytes that echo those `offset` positions before them also equal those that
/// are any multiple of `offset` away.
proof fn lemma_periodic(s: Seq<u8>, at: int, offset: int, end: int, x: int, m: nat)
    requires
        0 < offset <= at,
        forall|j: int| at <= j < end ==> #[trigger] echoes(s, j, offset),
        at - offset <= x,
        x + m * offset < end,
    ensures
        s[x + m * offset] == s[x],
    decreases m,
{
    if m > 0 {
        let y = x + m * offset;
        assert((m - 1) * offset == m * offset - offset) by (nonlinear_arith);
        assert(0 <= (m - 1) * offset) by (nonlinear_arith)
            requires
                m > 0,
                offset > 0,
        ;
        lemma_periodic(s, at, offset, end, x, (m - 1) as nat);
        assert(echoes(s, y, offset));
    } else {
        assert(m * offset == 0) by (nonlinear_arith)
            requires
                m == 0,
        ;
    }
}

/// A copy grows by the first `keep` bytes of the `n` that are moved to its end
/// from a multiple `m` of `offset` before it. Of the rest it is only known that
/// nothing behind them changes.
proof fn lemma_periodic_chunk(
    before: Seq<u8>,
    mid: Seq<u8>,
    after: Seq<u8>,
    at: int,
    offset: int,
    len: int,
    end: int,
    m: nat,
    n: int,
    keep: int,
)
    requires
        copied(before, mid, at, offset, len, end),
        moved(mid, after, at + len - m * offset, at + len, n),
        0 < offset <= at,
        0 < m,
        0 <= len,
        m * offset <= len + offset,
        0 <= keep <= n,
        keep <= m * offset,
        at + len + n <= end <= before.len(),
    ensures
        copied(before, after, at, offset, len + keep, end),
{
    let to = at + len;
    let from = to - m * offset;
    assert forall|j: int| at <= j < at + len + keep implies #[trigger] echoes(
        after,
        j,
        offset,
    ) by {
        if j < to {
            assert(echoes(mid, j, offset));
        } else {
            let i = j - to;
            if i >= offset {
                assert(echoes(mid, from + i, offset));
            } else {
                assert((m - 1) * offset == m * offset - offset) by (nonlinear_arith);
                lemma_periodic(mid, at, offset, to, from + i, (m - 1) as nat);
            }
        }
    }
}

/// Copies `len` bytes to `dst` from `offset` bytes before it, where `offset` may
/// be less than `len`. The distance to the source is doubled by moving 16 bytes
/// at a time, which may overlap their source, until it is at least 16; then the
/// rest follows in chunks of 16 bytes.
pub(crate) fn overlapping_copy(buf: &mut [u8], dst: usize, offset: usize, len: usize)
    requires
        1 <= len,
        1 <= offset <= dst,
        dst + len + 24 <= old(buf).len(),
    ensures
        copied(
            old(buf)@,
            final(buf)@,
            dst as int,
            offset as int,
            len as int,
            dst + len + 24,
        ),
        final(buf)@.take(dst + len) == old(buf)@.take(dst as int) + block::repeated(
            old(buf)@.take(dst as int),
            offset as int,
            len as int,
        ),
{
    let ghost before = buf@;
    let end = dst + len;
    let mut dstp = dst;
    let mut srcp = dst - offset;
    let ghost mut m: nat = 1;
    loop
        invariant
            1 <= len,
            1 <= offset <= dst <= dstp,
            srcp == dst - offset,
            end == dst + len,
            dst + len + 24 <= buf.len(),
            m == 1 || m == 2 || m == 4 || m == 8 || m == 16,
            dstp - srcp == m * offset,
            m > 1 ==> (m / 2) * offset < 16,
            copied(before, buf@, dst as int, offset as int, dstp - dst, dst + len + 24),
        ensures
            dstp - srcp >= 16,
        decreases 32 - (dstp - srcp),
    {
        let diff = dstp - srcp;
        if diff >= 16 {
            break;
        }
        let ghost mid = buf@;
        move_within(buf, srcp, dstp, 16);
        proof {
            lemma_periodic_chunk(
                before,
                mid,
                buf@,
                dst as int,
                offset as int,
                dstp - dst,
                dst + len + 24,
                m,
                16,
                diff as int,
            );
            assert((2 * m) * offset == 2 * (m * offset)) by (nonlinear_arith);
            m = 2 * m;
        }
        dstp = dstp + diff;
    }
    while dstp < end
        invariant
            1 <= offset <= dst <= dstp,
            dst - offset <= srcp,
            end == dst + len,
            dst + len + 24 <= buf.len(),
            dstp - srcp == m * offset,
            dstp - srcp >= 16,
            m > 0,
            copied(before, buf@, dst as int, offset as int, dstp - dst, dst + len + 24),
        decreases end + 16 - dstp,
    {
        let ghost mid = buf@;
        move_within(buf, srcp, dstp, 16);
        proof {
            lemma_periodic_chunk(
                before,
                mid,
                buf@,
                dst as int,
                offset as int,
                dstp - dst,
                dst + len + 24,
                m,
                16,
                16,
            );
        }
        srcp = srcp + 16;
        dstp = dstp + 16;
    }
    proof {
        lemma_copied(before, buf@, dst as int, offset as int, len as int, dst + len + 24);
    }
}

/// Copies what [`copy_dispatch`] does not handle itself: more than 16 bytes, or
/// an offset of less than 8. For 33 to 39 bytes, two chunks of 32 would write
/// more scratch than there is room for.
pub(crate) fn copy_dispatch_cold(buf: &mut [u8], dst: usize, offset: usize, len: usize)
    requires
        1 <= len <= 64,
        len > 16 || offset < 8,
        1 <= offset <= dst,
        dst + len + 24 <= old(buf).len(),
    ensures
        copied(
            old(buf)@,
            final(buf)@,
            dst as int,
            offset as int,
            len as int,
            dst + len + 24,
        ),
        final(buf)@.take(dst + len) == old(buf)@.take(dst as int) + block::repeated(
            old(buf)@.take(dst as int),
            offset as int,
            len as int,
        ),
{
    let ghost before = buf@;
    let srcp = dst - offset;
    if offset >= 32 && (len <= 32 || len >= 40) {
        wide_copy_long(buf, srcp, dst, len);
    } else if offset >= 16 {
        wide_copy(buf, srcp, dst, len);
    } else {
        overlapping_copy(buf, dst, offset, len);
    }
    proof {
        lemma_copied(before, buf@, dst as int, offset as int, len as int, dst + len + 24);
    }
}

/// Copies `len` bytes to `dst` from `offset` bytes before it, in the widest
/// chunks that the offset allows. Behind the copy there is room for 24 bytes of
/// scratch.
pub(crate) fn copy_dispatch(buf: &mut [u8], dst: usize, offset: usize, len: usize)
    requires
        1 <= len <= 64,
        1 <= offset <= dst,
        dst + len + 24 <= old(buf).len(),
    ensures
        copied(
            old(buf)@,
            final(buf)@,
            dst as int,
            offset as int,
            len as int,
            dst + len + 24,
        ),
        final(buf)@.take(dst + len) == old(buf)@.take(dst as int) + block::repeated(
            old(buf)@.take(dst as int),
            offset as int,
            len as int,
        ),
{
    let ghost before = buf@;
    if len <= 16 && offset >= 8 {
        let srcp = dst - offset;
        move_within(buf, srcp, dst, 8);
        let ghost mid = buf@;
        move_within(buf, srcp + 8, dst + 8, 8);
        proof {
            lemma_chunk(before, before, mid, dst as int, offset as int, 0, 8);
            lemma_chunk(before, mid, buf@, dst as int, offset as int, 8, 8);
        }
    } else {
        copy_dispatch_cold(buf, dst, offset, len);
    }
    proof {
        lemma_copied(before, buf@, dst as int, offset as int, len as int, dst + len + 24);
    }
}

/// Copies `len` bytes to `dst` from `offset` bytes before it, one by one and
/// without scratch.
pub(crate) fn copy_exact(buf: &mut [u8], dst: usize, offset: usize, len: usize)
    requires
        1 <= offset <= dst,
        dst + len <= old(buf).len(),
    ensures
        copied(old(buf)@, final(buf)@, dst as int, offset as int, len as int, dst + len),
        final(buf)@.take(dst + len) == old(buf)@.take(dst as int) + block::repeated(
            old(buf)@.take(dst as int),
            offset as int,
            len as int,
        ),
{
    let ghost before = buf@;
    let mut i: usize = 0;
    while i < len
        invariant
            i <= len,
            1 <= offset <= dst,
            dst + len <= buf.len(),
            copied(before, buf@, dst as int, offset as int, i as int, dst + i),
        decreases len - i,
    {
        let ghost mid = buf@;
        buf[dst + i] = buf[dst + i - offset];
        proof {
            lemma_chunk(before, mid, buf@, dst as int, offset as int, i as int, 1);
        }
        i = i + 1;
    }
    proof {
        lemma_copied(before, buf@, dst as int, offset as int, len as int, dst + len);
    }
}

/// A copy appends what the format says.
proof fn lemma_copied(
    before: Seq<u8>,
    after: Seq<u8>,
    at: int,
    offset: int,
    len: int,
    end: int,
)
    requires
        copied(before, after, at, offset, len, end),
        1 <= offset <= at,
        0 <= len,
        at + len <= before.len(),
    ensures
        after.take(at + len) == before.take(at) + block::repeated(before.take(at), offset, len),
{
    let out = before.take(at);
    assert forall|i: int| 0 <= i < len implies after[at + i] == #[trigger] block::repeated(
        out,
        offset,
        len,
    )[i] by {
        lemma_copied_at(before, after, at, offset, len, end, i);
    }
    assert(after.take(at + len) =~= out + block::repeated(out, offset, len));
}

proof fn lemma_copied_at(
    before: Seq<u8>,
    after: Seq<u8>,
    at: int,
    offset: int,
    len: int,
    end: int,
    i: int,
)
    requires
        copied(before, after, at, offset, len, end),
        1 <= offset <= at,
        0 <= i < len,
        at + len <= before.len(),
    ensures
        after[at + i] == before[at - offset + i % offset],
    decreases i,
{
    assert(echoes(after, at + i, offset));
    if i >= offset {
        lemma_copied_at(before, after, at, offset, len, end, i - offset);
        vstd::arithmetic::div_mod::lemma_mod_sub_multiples_vanish(i, offset);
    } else {
        vstd::arithmetic::div_mod::lemma_small_mod(i as nat, offset as nat);
    }
}

} // verus!
