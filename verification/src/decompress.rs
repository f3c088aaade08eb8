//! Decompression of blocks.
use crate::block;
use crate::bytes;
use crate::copy;
use crate::error::Error;
use crate::tag;
use crate::MAX_INPUT_SIZE;
use vstd::prelude::*;

verus! {

/// The length, in bytes, of what `input` decompresses to.
///
/// Nothing but the header of `input` is read.
///
/// # Errors
///
/// * The header is not a variable-length integer of at most 64 bits.
/// * The header gives a length of more than `2^32 - 1`.
pub fn decompress_len(input: &[u8]) -> (r: Result<usize, Error>)
    ensures
        r == decompress_len_result(input@),
{
    if input.is_empty() {
        return Ok(0);
    }
    match Header::read(input) {
        Ok(header) => Ok(header.decompress_len),
        Err(error) => Err(error),
    }
}

/// A decoder for blocks in the raw Snappy format.
///
/// It keeps nothing from one block to the next.
#[derive(Debug)]
pub struct Decoder {
    // Room for fields to come.
    _dummy: (),
}

impl Clone for Decoder {
    fn clone(&self) -> (decoder: Decoder)
        ensures
            decoder == *self,
    {
        Decoder { _dummy: () }
    }
}

impl Default for Decoder {
    fn default() -> (decoder: Decoder)
        ensures
            decoder == Decoder::fresh(),
    {
        Decoder::new()
    }
}

impl Decoder {
    /// The decoder that has not decompressed anything yet.
    pub closed spec fn fresh() -> Decoder {
        Decoder { _dummy: () }
    }

    /// Returns a new decoder.
    pub fn new() -> (decoder: Decoder)
        ensures
            decoder == Decoder::fresh(),
    {
        Decoder { _dummy: () }
    }

    /// Decompresses all of `input` into `output`.
    ///
    /// `output` has to be as long as [`decompress_len`] says, or longer. On
    /// success, the number of bytes written to `output` is returned, and the rest
    /// of `output` is unchanged.
    ///
    /// # Errors
    ///
    /// * The input is empty, or its header is invalid or gives a length of more
    ///   than `2^32 - 1`. Then `output` is unchanged.
    /// * `output` is too short. Then it is unchanged.
    /// * An element is invalid, or the elements do not decompress to the length
    ///   that the header gives. Then `output` starts with what the elements before
    ///   the invalid one decompress to, and is unchanged from the length on that
    ///   the header gives; what stands between is scratch.
    pub fn decompress(&mut self, input: &[u8], output: &mut [u8]) -> (r: Result<usize, Error>)
        ensures
            *final(self) == *old(self),
            final(output)@.len() == old(output)@.len(),
            r == decompress_result(input@, old(output)@.len()),
            decompress_output(input@, old(output)@, final(output)@),
            r matches Ok(n) ==> block::decompressed(input@) == Ok::<Seq<u8>, Error>(
                final(output)@.take(n as int),
            ),
    {
        if input.is_empty() {
            return Err(Error::Empty);
        }
        let header = match Header::read(input) {
            Ok(header) => header,
            Err(error) => {
                return Err(error);
            },
        };
        if header.decompress_len > output.len() {
            return Err(
                Error::BufferTooSmall {
                    given: output.len() as u64,
                    min: header.decompress_len as u64,
                },
            );
        }
        let src = vstd::slice::slice_subrange(input, header.len, input.len());
        let (dst, _) = output.split_at_mut(header.decompress_len);
        let mut dec = Decompress { src, s: 0, dst, d: 0 };
        let ghost empty = dec.out();
        let ghost bytes = dec.outcome().bytes;
        let r = match dec.decompress() {
            Ok(()) => Ok(dec.dst.len()),
            Err(error) => Err(error),
        };
        let ghost written = dec.dst@;
        proof {
            let n = header.decompress_len as int;
            block::lemma_decode_len(src@, 0, Seq::empty(), n);
            assert(empty =~= Seq::empty());
            assert(src@ =~= input@.skip(header.len as int));
            assert(output@ =~= written + old(output)@.skip(n));
            assert(output@.take(bytes.len() as int) =~= bytes);
            assert(output@.skip(n) =~= old(output)@.skip(n));
        }
        r
    }

    /// Decompresses all of `input` into a new vector of the right length.
    ///
    /// # Errors
    ///
    /// Those of [`Decoder::decompress`], except that there is always room enough.
    pub fn decompress_vec(&mut self, input: &[u8]) -> (r: Result<Vec<u8>, Error>)
        ensures
            *final(self) == *old(self),
            match r {
                Ok(output) => block::decompressed(input@) == Ok::<Seq<u8>, Error>(output@),
                Err(error) => block::decompressed(input@) == Err::<Seq<u8>, Error>(error),
            },
    {
        let len = match decompress_len(input) {
            Ok(len) => len,
            Err(error) => {
                return Err(error);
            },
        };
        let mut buf: Vec<u8> = vec![0; len];
        match self.decompress(input, buf.as_mut_slice()) {
            Ok(n) => {
                buf.truncate(n);
                Ok(buf)
            },
            Err(error) => Err(error),
        }
    }
}

/// The header of a block.
#[derive(Debug)]
struct Header {
    /// The number of bytes that the header takes.
    len: usize,
    /// The length of the decompressed bytes.
    decompress_len: usize,
}

impl Header {
    /// Reads the header at the front of `input`.
    fn read(input: &[u8]) -> (r: Result<Header, Error>)
        ensures
            match block::header(input@) {
                Ok((len, decompress_len)) => {
                    &&& r matches Ok(header)
                    &&& header.len == len
                    &&& header.decompress_len == decompress_len
                    &&& len <= input@.len()
                },
                Err(error) => r == Err::<Header, Error>(error),
            },
    {
        let (decompress_len, header_len) = bytes::read_varu64(input);
        if header_len == 0 {
            return Err(Error::Header);
        }
        if decompress_len > MAX_INPUT_SIZE {
            return Err(Error::TooBig { given: decompress_len, max: MAX_INPUT_SIZE });
        }
        proof {
            bytes::lemma_varint_len(input@);
        }
        Ok(Header { len: header_len, decompress_len: decompress_len as usize })
    }
}

/// What [`decompress_len`] returns for `input`.
pub open spec fn decompress_len_result(input: Seq<u8>) -> Result<usize, Error> {
    if input.len() == 0 {
        Ok(0)
    } else {
        match block::header(input) {
            Ok((_, decompress_len)) => Ok(decompress_len as usize),
            Err(error) => Err(error),
        }
    }
}

/// What [`Decoder::decompress`] returns for `input` and an output buffer of
/// length `room`.
pub open spec fn decompress_result(input: Seq<u8>, room: nat) -> Result<usize, Error> {
    if input.len() == 0 {
        Err(Error::Empty)
    } else {
        match block::header(input) {
            Ok((len, decompress_len)) => if decompress_len > room {
                Err(Error::BufferTooSmall { given: room as u64, min: decompress_len as u64 })
            } else {
                match block::decode_block(input, len, decompress_len).error {
                    None => Ok(decompress_len as usize),
                    Some(error) => Err(error),
                }
            },
            Err(error) => Err(error),
        }
    }
}

/// [`Decoder::decompress`] may turn `before` into `after` for `input`: if it
/// comes to decompressing, `after` starts with the decompressed bytes and equals
/// `before` from the length on that the header gives, and otherwise nothing has
/// changed.
pub open spec fn decompress_output(input: Seq<u8>, before: Seq<u8>, after: Seq<u8>) -> bool {
    if input.len() == 0 {
        after == before
    } else {
        match block::header(input) {
            Ok((len, decompress_len)) => if decompress_len > before.len() {
                after == before
            } else {
                let bytes = block::decode_block(input, len, decompress_len).bytes;
                &&& after.len() == before.len()
                &&& bytes.len() <= decompress_len
                &&& after.take(bytes.len() as int) == bytes
                &&& after.skip(decompress_len as int) == before.skip(decompress_len as int)
            },
            Err(_) => after == before,
        }
    }
}

/// The state of the decompression of one block.
struct Decompress<'s, 'd> {
    /// The compressed bytes without the header.
    src: &'s [u8],
    /// The position of the next element in the compressed bytes.
    s: usize,
    /// The buffer for the decompressed bytes. It has the length that the header
    /// gives.
    dst: &'d mut [u8],
    /// The number of bytes that have been decompressed.
    d: usize,
}

impl<'s, 'd> Decompress<'s, 'd> {
    /// The positions are within the buffers.
    spec fn wf(self) -> bool {
        &&& self.s <= self.src@.len()
        &&& self.d <= self.dst@.len()
    }

    /// What has been decompressed.
    spec fn out(self) -> Seq<u8> {
        self.dst@.take(self.d as int)
    }

    /// What comes of the block, seen from this state.
    spec fn outcome(self) -> block::Decoded {
        block::decode(self.src@, self.s as int, self.out(), self.dst@.len() as int)
    }

    /// The step of a literal whose tag byte gives `len` and has just been read.
    spec fn literal_body(self, len: int) -> block::Step {
        block::literal_body(self.src@, self.s as int, len, self.d as int, self.dst@.len() as int)
    }

    /// Where decompressing without checks ends, seen from this state.
    spec fn fast_end(self) -> (int, Seq<u8>) {
        fast_end(self.src@, self.s as int, self.out(), self.dst@.len() as int)
    }

    /// There is room for copying 16 bytes to append a literal of `len` bytes.
    spec fn fits_16(self, len: int) -> bool {
        fits_16(self.src@, self.s as int, len, self.d as int, self.dst@.len() as int)
    }

    /// Where the two positions stand in the end.
    spec fn end(self) -> (int, int) {
        let (s, out) = self.fast_end();
        tail_end(self.src@, s, out, self.dst@.len() as int, (s, out.len() as int))
    }

    /// There is nothing to decompress without checks because a buffer is short,
    /// or there is room enough for it.
    spec fn short_or_roomy(self) -> bool {
        ||| self.src@.len() < 17
        ||| self.dst@.len() < copy::COPY_ROOM
        ||| roomy(self.src@, self.s as int, self.out(), self.dst@.len() as int)
    }

    /// What comes of the block, and where decompressing without checks ends.
    spec fn course(self) -> (block::Decoded, (int, Seq<u8>)) {
        course(self.src@, self.s as int, self.out(), self.dst@.len() as int)
    }

    /// This state has been reached, with the result `r`, on the way to `expected`.
    spec fn on_way_to(self, r: Result<(), Error>, expected: block::Decoded) -> bool {
        match r {
            Ok(()) => self.outcome() == expected,
            Err(error) => expected == (block::Decoded { bytes: self.out(), error: Some(error) }),
        }
    }

    /// Appends the next `len` bytes of the compressed bytes, by copying 16 bytes.
    fn append_short_literal(&mut self, len: usize)
        requires
            old(self).wf(),
            len <= 16,
            old(self).s + 16 <= old(self).src.len(),
            old(self).d + 16 <= old(self).dst.len(),
        ensures
            final(self).wf(),
            final(self).src == old(self).src,
            final(self).s == old(self).s + len,
            final(self).d == old(self).d + len,
            final(self).dst@ == copy::overwritten(
                old(self).dst@,
                old(self).d as int,
                old(self).src@.subrange(old(self).s as int, old(self).s + 16),
            ),
            final(self).out() == old(self).out() + old(self).src@.subrange(
                old(self).s as int,
                old(self).s + len,
            ),
            final(final(self).dst)@ == final(old(self).dst)@,
    {
        let ghost out = self.out();
        copy::copy_from(self.src, self.s, self.dst, self.d, 16);
        assert(self.dst@.take(self.d + len) =~= out + self.src@.subrange(
            self.s as int,
            self.s + len,
        ));
        self.s = self.s + len;
        self.d = self.d + len;
    }

    /// Appends the next `len` bytes of the compressed bytes, by copying up to 64
    /// bytes.
    fn append_wide_literal(&mut self, len: usize)
        requires
            old(self).wf(),
            len <= 64,
            old(self).s + 64 <= old(self).src.len(),
            old(self).d + 64 <= old(self).dst.len(),
        ensures
            final(self).wf(),
            final(self).src == old(self).src,
            final(self).s == old(self).s + len,
            final(self).d == old(self).d + len,
            final(self).dst@.len() == old(self).dst@.len(),
            final(self).out() == old(self).out() + old(self).src@.subrange(
                old(self).s as int,
                old(self).s + len,
            ),
            final(final(self).dst)@ == final(old(self).dst)@,
    {
        let ghost out = self.out();
        copy::wide_copy_from(self.src, self.s, self.dst, self.d, len);
        assert(self.dst@.take(self.d + len) =~= out + self.src@.subrange(
            self.s as int,
            self.s + len,
        ));
        self.s = self.s + len;
        self.d = self.d + len;
    }

    /// Appends a copy, for which there is room together with the scratch behind
    /// it.
    fn append_copy(&mut self, offset: usize, len: usize)
        requires
            old(self).wf(),
            1 <= len <= 64,
            1 <= offset <= old(self).d,
            old(self).d + len + 24 <= old(self).dst.len(),
        ensures
            final(self).wf(),
            final(self).src == old(self).src,
            final(self).s == old(self).s,
            final(self).d == old(self).d + len,
            final(self).dst@.len() == old(self).dst@.len(),
            final(self).out() == old(self).out() + block::repeated(
                old(self).out(),
                offset as int,
                len as int,
            ),
            final(final(self).dst)@ == final(old(self).dst)@,
    {
        copy::copy_dispatch(self.dst, self.d, offset, len);
        self.d = self.d + len;
    }

    /// Decompresses a literal like [`Decompress::read_literal`], where there is
    /// room enough for copying a short one without checks.
    fn fast_literal(&mut self, len: usize) -> (r: Result<(), Error>)
        requires
            old(self).wf(),
            len <= 64,
            old(self).s + 16 <= old(self).src.len(),
            old(self).d + copy::COPY_ROOM <= old(self).dst.len(),
        ensures
            final(self).wf(),
            final(self).src == old(self).src,
            final(self).dst@.len() == old(self).dst@.len(),
            match old(self).literal_body(len as int) {
                block::Step::Literal { start, len: n } => {
                    &&& r is Ok
                    &&& final(self).s == start + n
                    &&& final(self).out() == old(self).out() + old(self).src@.subrange(
                        start,
                        start + n,
                    )
                },
                block::Step::Refuse { error } => {
                    &&& r == Err::<(), Error>(error)
                    &&& final(self).s == old(self).s + length_read(
                        old(self).src@,
                        old(self).s as int,
                        len as int,
                    )
                    &&& final(self).out() == old(self).out()
                },
                block::Step::Copy { .. } => false,
            },
            final(final(self).dst)@ == final(old(self).dst)@,
    {
        if len <= 16 {
            self.append_short_literal(len);
            Ok(())
        } else if len <= 60 && self.src.len() - self.s >= 64 {
            self.append_wide_literal(len);
            Ok(())
        } else {
            self.read_literal(len)
        }
    }

    /// Decompresses elements while there is room enough in both buffers for the
    /// longest element that has no length of its own, so that no element needs to
    /// be checked against the ends of the buffers. The tag byte of the next
    /// element, its entry in the table and the bytes behind it are loaded before
    /// the current element is copied.
    #[verifier::rlimit(30)]
    fn decompress_fast(&mut self) -> (r: Result<(), Error>)
        requires
            old(self).wf(),
            old(self).short_or_roomy(),
        ensures
            final(self).wf(),
            final(self).src == old(self).src,
            final(self).dst@.len() == old(self).dst@.len(),
            final(self).on_way_to(r, old(self).outcome()),
            old(self).src@.len() < 17 || old(self).dst@.len() < 88 ==> {
                &&& r is Ok
                &&& final(self).s == old(self).s
                &&& final(self).d == old(self).d
                &&& final(self).dst@ == old(self).dst@
            },
            final(self).out() == old(self).fast_end().1,
            r is Ok ==> final(self).s == old(self).fast_end().0,
            r is Ok <==> !roomy(
                old(self).src@,
                old(self).fast_end().0,
                old(self).fast_end().1,
                old(self).dst@.len() as int,
            ),
            r matches Err(error) ==> {
                &&& final(self).s == refused_at(old(self).src@, old(self).fast_end().0)
                &&& block::step(
                    old(self).src@,
                    old(self).fast_end().0,
                    final(self).d as int,
                    old(self).dst@.len() as int,
                ) == (block::Step::Refuse { error })
            },
            final(final(self).dst)@ == final(old(self).dst)@,
    {
        let src_len = self.src.len();
        let dst_len = self.dst.len();
        if src_len < 17 || dst_len < 88 {
            return Ok(());
        }
        let src_limit = src_len - 17;
        let dst_limit = dst_len - 88;
        let mut preload = self.src[self.s] as u32;
        let mut next_entry = tag::lookup(self.src[self.s]);
        let mut next_loaded = bytes::loadu_u32_le(self.src, self.s + 1);
        loop
            invariant_except_break
                self.s <= src_limit,
                self.d <= dst_limit,
                preload % 256 == self.src@[self.s as int],
                next_entry == tag::entry(self.src@[self.s as int]),
                next_loaded == bytes::le_value(self.src@, self.s + 1, 4),
            invariant
                self.wf(),
                self.src == old(self).src,
                self.src.len() == src_len,
                self.dst.len() == dst_len == old(self).dst.len(),
                src_limit == src_len - 17,
                dst_limit == dst_len - 88,
                self.course() == old(self).course(),
                final(self.dst)@ == final(old(self).dst)@,
            ensures
                self.s > src_limit || self.d > dst_limit,
            decreases src_len - self.s,
        {
            let ghost out = self.out();
            assert(preload as u8 == preload % 256) by (bit_vector);
            let byte = #[verifier::truncate] (preload as u8);
            let tag_type = tag::tag_type(byte);
            if tag_type != 0 {
                let loaded = next_loaded;
                let num_tag_bytes = if tag_type == 3 { 4usize } else { tag_type };
                let len = tag::entry_len(next_entry);
                let offset = tag::entry_offset(next_entry, tag_type, loaded);
                proof {
                    lemma_offset(self.src@, self.s as int, next_entry, loaded, 4, offset);
                    lemma_preload(self.src@, self.s as int, loaded);
                    lemma_course_copy(self.src@, self.s as int, out, dst_len as int);
                }
                self.s = self.s + 1 + num_tag_bytes;
                if self.d <= offset.wrapping_sub(1) {
                    reveal(course);
                    return Err(Error::Offset { offset: offset as u64, dst_pos: self.d as u64 });
                }
                preload = loaded >> (tag_type as u32 * 8);
                if tag_type >= 3 {
                    preload = self.src[self.s] as u32;
                }
                next_entry = tag::lookup(self.src[self.s]);
                next_loaded = bytes::loadu_u32_le(self.src, self.s + 1);
                self.append_copy(offset, len);
                if self.s > src_limit || self.d > dst_limit {
                    break;
                }
            } else {
                assert(byte >> 2 == byte / 4) by (bit_vector);
                proof {
                    lemma_course_literal(self.src@, self.s as int, out, dst_len as int);
                }
                let len = (byte >> 2) as usize + 1;
                self.s = self.s + 1;
                match self.fast_literal(len) {
                    Ok(()) => {},
                    Err(error) => {
                        reveal(course);
                        return Err(error);
                    },
                }
                if self.s > src_limit || self.d > dst_limit {
                    break;
                }
                preload = self.src[self.s] as u32;
                next_entry = tag::lookup(self.src[self.s]);
                next_loaded = bytes::loadu_u32_le(self.src, self.s + 1);
            }
        }
        reveal(course);
        Ok(())
    }

    /// Decompresses the whole block. The last elements, for which there is not
    /// room enough to spare, are checked against the ends of the buffers.
    ///
    /// For these, the positions in the state are written only around a literal
    /// that is not copied by 16 bytes, and in the end. A copy whose offset is cut
    /// short leaves them as they were last written.
    #[verifier::rlimit(30)]
    fn decompress(&mut self) -> (r: Result<(), Error>)
        requires
            old(self).wf(),
            old(self).short_or_roomy(),
        ensures
            final(self).wf(),
            final(self).src == old(self).src,
            final(self).dst@.len() == old(self).dst@.len(),
            final(self).s == old(self).end().0,
            final(self).d == old(self).end().1,
            r is Ok ==> final(self).s == old(self).src@.len(),
            r is Ok ==> final(self).d == final(self).dst@.len(),
            match r {
                Ok(()) => old(self).outcome() == (block::Decoded {
                    bytes: final(self).dst@,
                    error: None,
                }),
                Err(error) => {
                    let bytes = old(self).outcome().bytes;
                    &&& old(self).outcome().error == Some(error)
                    &&& bytes.len() <= final(self).dst@.len()
                    &&& final(self).dst@.take(bytes.len() as int) == bytes
                },
            },
            final(final(self).dst)@ == final(old(self).dst)@,
    {
        let src_len = self.src.len();
        let dst_len = self.dst.len();
        match self.decompress_fast() {
            Ok(()) => {},
            Err(error) => {
                return Err(error);
            },
        }
        let mut ip = self.s;
        let mut d = self.d;
        proof {
            reveal(tail_course);
        }
        while ip < src_len
            invariant
                self.wf(),
                ip <= src_len,
                d <= dst_len,
                self.src == old(self).src,
                self.src.len() == src_len,
                self.dst.len() == dst_len == old(self).dst.len(),
                tail_course(
                    self.src@,
                    ip as int,
                    self.dst@.take(d as int),
                    dst_len as int,
                    (self.s as int, self.d as int),
                ) == (old(self).outcome(), old(self).end()),
                final(self.dst)@ == final(old(self).dst)@,
            decreases src_len - ip,
        {
            let ghost out = self.dst@.take(d as int);
            let ghost saved = (self.s as int, self.d as int);
            let byte = self.src[ip];
            let tag_type = tag::tag_type(byte);
            if tag_type == 0 {
                assert(byte >> 2 == byte / 4) by (bit_vector);
                let len = (byte >> 2) as usize + 1;
                proof {
                    lemma_tail_literal(self.src@, ip as int, out, dst_len as int, saved);
                }
                ip = ip + 1;
                if len <= 16 && src_len - ip >= 16 && dst_len - d >= 16 {
                    copy::copy_from(self.src, ip, self.dst, d, 16);
                    assert(self.dst@.take(d + len) =~= out + self.src@.subrange(
                        ip as int,
                        ip + len,
                    ));
                    ip = ip + len;
                    d = d + len;
                } else {
                    self.s = ip;
                    self.d = d;
                    match self.read_literal(len) {
                        Ok(()) => {},
                        Err(error) => {
                            reveal(tail_course);
                            return Err(error);
                        },
                    }
                    ip = self.s;
                    d = self.d;
                }
            } else {
                let entry_val = tag::lookup(byte);
                let num_tag_bytes = if tag_type == 3 { 4usize } else { tag_type };
                let len = tag::entry_len(entry_val);
                proof {
                    lemma_tail_copy(self.src@, ip as int, out, dst_len as int, saved);
                }
                let ghost s = ip as int;
                ip = ip + 1;
                if src_len - ip < num_tag_bytes {
                    reveal(tail_course);
                    return Err(
                        Error::CopyRead {
                            len: num_tag_bytes as u64,
                            src_len: (src_len - ip) as u64,
                        },
                    );
                }
                let loaded = if src_len - ip >= 4 {
                    bytes::loadu_u32_le(self.src, ip)
                } else {
                    bytes::load_le(self.src, ip, num_tag_bytes)
                };
                let offset = tag::entry_offset(entry_val, tag_type, loaded);
                proof {
                    let n = if src_len - ip >= 4 {
                        4nat
                    } else {
                        num_tag_bytes as nat
                    };
                    lemma_offset(self.src@, s, entry_val, loaded, n, offset);
                }
                ip = ip + num_tag_bytes;
                if d <= offset.wrapping_sub(1) {
                    self.s = ip;
                    self.d = d;
                    reveal(tail_course);
                    return Err(Error::Offset { offset: offset as u64, dst_pos: d as u64 });
                }
                if dst_len - d < len {
                    self.s = ip;
                    self.d = d;
                    reveal(tail_course);
                    return Err(
                        Error::CopyWrite { len: len as u64, dst_len: (dst_len - d) as u64 },
                    );
                }
                if dst_len - d >= copy::COPY_ROOM {
                    copy::copy_dispatch(self.dst, d, offset, len);
                } else {
                    copy::copy_exact(self.dst, d, offset, len);
                }
                d = d + len;
            }
        }
        proof {
            reveal(tail_course);
        }
        self.s = ip;
        self.d = d;
        if self.d != dst_len {
            return Err(
                Error::HeaderMismatch { expected_len: dst_len as u64, got_len: self.d as u64 },
            );
        }
        assert(self.out() =~= self.dst@);
        Ok(())
    }

    /// Decompresses a literal. The next byte is the one behind its tag byte.
    ///
    /// `len` is the length of the literal if it is at most 60. Otherwise it
    /// gives the number of bytes that hold the length: one for 61, up to four
    /// for 64.
    fn read_literal(&mut self, len: usize) -> (r: Result<(), Error>)
        requires
            old(self).wf(),
            len <= 64,
        ensures
            final(self).wf(),
            final(self).src == old(self).src,
            match old(self).literal_body(len as int) {
                block::Step::Literal { start, len: n } => {
                    &&& r is Ok
                    &&& final(self).s == start + n
                    &&& final(self).d == old(self).d + n
                    &&& final(self).out() == old(self).out() + old(self).src@.subrange(
                        start,
                        start + n,
                    )
                    &&& final(self).dst@ == copy::overwritten(
                        old(self).dst@,
                        old(self).d as int,
                        old(self).src@.subrange(
                            start,
                            start + if old(self).fits_16(len as int) {
                                16
                            } else {
                                n
                            },
                        ),
                    )
                },
                block::Step::Refuse { error } => {
                    &&& r == Err::<(), Error>(error)
                    &&& final(self).s == old(self).s + length_read(
                        old(self).src@,
                        old(self).s as int,
                        len as int,
                    )
                    &&& final(self).d == old(self).d
                    &&& final(self).dst@ == old(self).dst@
                },
                block::Step::Copy { .. } => false,
            },
            final(final(self).dst)@ == final(old(self).dst)@,
    {
        let src_len = self.src.len();
        let dst_len = self.dst.len();
        if len <= 16 && src_len - self.s >= 16 && dst_len - self.d >= 16 {
            self.append_short_literal(len);
            return Ok(());
        }
        let mut len = len as u64;
        if len >= 61 {
            let byte_count = (len - 60) as usize;
            if src_len - self.s < byte_count {
                return Err(
                    Error::Literal {
                        len: 4,
                        src_len: (src_len - self.s) as u64,
                        dst_len: (dst_len - self.d) as u64,
                    },
                );
            }
            len = bytes::load_le(self.src, self.s, byte_count) as u64 + 1;
            self.s = self.s + byte_count;
        }
        if ((src_len - self.s) as u64) < len || ((dst_len - self.d) as u64) < len {
            return Err(
                Error::Literal {
                    len,
                    src_len: (src_len - self.s) as u64,
                    dst_len: (dst_len - self.d) as u64,
                },
            );
        }
        let ghost out = self.out();
        copy::copy_from(self.src, self.s, self.dst, self.d, len as usize);
        assert(self.dst@.take(self.d + len) =~= out + self.src@.subrange(
            self.s as int,
            self.s + len,
        ));
        self.s = self.s + len as usize;
        self.d = self.d + len as usize;
        Ok(())
    }
}

/// There is room enough in both buffers for the longest element that has no
/// length of its own, together with what is read and written behind it.
spec fn roomy(src: Seq<u8>, s: int, out: Seq<u8>, dst_len: int) -> bool {
    src.len() - s >= 17 && dst_len - out.len() >= copy::COPY_ROOM
}

/// The position in `src`, and what has been decompressed there, at which
/// elements are no longer decompressed without checks: the first at which there
/// is not room enough, or the element that is refused.
spec fn fast_end(src: Seq<u8>, s: int, out: Seq<u8>, dst_len: int) -> (int, Seq<u8>)
    decreases src.len() - s,
{
    if !roomy(src, s, out, dst_len) {
        (s, out)
    } else {
        match block::step(src, s, out.len() as int, dst_len) {
            block::Step::Literal { start, len } => fast_end(
                src,
                start + len,
                out + src.subrange(start, start + len),
                dst_len,
            ),
            block::Step::Copy { next, offset, len } => fast_end(
                src,
                next,
                out + block::repeated(out, offset, len),
                dst_len,
            ),
            block::Step::Refuse { .. } => (s, out),
        }
    }
}

/// There is room in both buffers for copying 16 bytes, which is done for a
/// literal of up to 16 bytes that stand at `s`.
spec fn fits_16(src: Seq<u8>, s: int, len: int, d: int, dst_len: int) -> bool {
    len <= 16 && src.len() - s >= 16 && dst_len - d >= 16
}

/// The number of bytes at `s` that are read for the length of a literal whose
/// tag byte gives `len`: none if they are not all there.
spec fn length_read(src: Seq<u8>, s: int, len: int) -> int {
    if src.len() - s < block::literal_width(len) {
        0
    } else {
        block::literal_width(len)
    }
}

/// The position behind what is read of the element at `s` that is refused, if
/// all of its offset is there.
spec fn refused_at(src: Seq<u8>, s: int) -> int {
    if tag::kind(src[s]) == 0 {
        s + 1 + length_read(src, s + 1, src[s] as int / 4 + 1)
    } else {
        s + 1 + tag::trailer_len(src[s])
    }
}

/// Where the positions in the two buffers stand after the elements from `s` on
/// have been decompressed with checks, or one has been refused. `saved` is where
/// they were last written.
spec fn tail_end(src: Seq<u8>, s: int, out: Seq<u8>, dst_len: int, saved: (int, int)) -> (int, int)
    decreases src.len() - s,
{
    let d = out.len() as int;
    if s >= src.len() {
        (s, d)
    } else {
        match block::step(src, s, d, dst_len) {
            block::Step::Literal { start, len } => tail_end(
                src,
                start + len,
                out + src.subrange(start, start + len),
                dst_len,
                if fits_16(src, s + 1, src[s] as int / 4 + 1, d, dst_len) {
                    saved
                } else {
                    (start + len, d + len)
                },
            ),
            block::Step::Copy { next, offset, len } => tail_end(
                src,
                next,
                out + block::repeated(out, offset, len),
                dst_len,
                saved,
            ),
            block::Step::Refuse { error } => if error is CopyRead {
                saved
            } else {
                (refused_at(src, s), d)
            },
        }
    }
}

/// What comes of the block, and where the positions stand in the end.
#[verifier::opaque]
spec fn tail_course(
    src: Seq<u8>,
    s: int,
    out: Seq<u8>,
    dst_len: int,
    saved: (int, int),
) -> (block::Decoded, (int, int)) {
    (block::decode(src, s, out, dst_len), tail_end(src, s, out, dst_len, saved))
}

/// The course stays the same over a copy.
proof fn lemma_tail_copy(src: Seq<u8>, s: int, out: Seq<u8>, dst_len: int, saved: (int, int))
    requires
        0 <= s < src.len(),
        tag::kind(src[s]) != 0,
    ensures
        match block::copy_step(src, s, out.len() as int, dst_len) {
            block::Step::Copy { next, offset, len } => tail_course(src, s, out, dst_len, saved)
                == tail_course(
                src,
                next,
                out + block::repeated(out, offset, len),
                dst_len,
                saved,
            ),
            block::Step::Refuse { error } => tail_course(src, s, out, dst_len, saved) == (
                (block::Decoded { bytes: out, error: Some(error) }),
                if error is CopyRead {
                    saved
                } else {
                    (refused_at(src, s), out.len() as int)
                },
            ),
            block::Step::Literal { .. } => false,
        },
{
    reveal(tail_course);
}

/// The course stays the same over a literal.
proof fn lemma_tail_literal(src: Seq<u8>, s: int, out: Seq<u8>, dst_len: int, saved: (int, int))
    requires
        0 <= s < src.len(),
        tag::kind(src[s]) == 0,
    ensures
        match block::literal_step(src, s, out.len() as int, dst_len) {
            block::Step::Literal { start, len } => tail_course(src, s, out, dst_len, saved)
                == tail_course(
                src,
                start + len,
                out + src.subrange(start, start + len),
                dst_len,
                if fits_16(src, s + 1, src[s] as int / 4 + 1, out.len() as int, dst_len) {
                    saved
                } else {
                    (start + len, out.len() + len)
                },
            ),
            block::Step::Refuse { error } => tail_course(src, s, out, dst_len, saved) == (
                (block::Decoded { bytes: out, error: Some(error) }),
                (refused_at(src, s), out.len() as int),
            ),
            block::Step::Copy { .. } => false,
        },
{
    reveal(tail_course);
}

/// What comes of the block, and where decompressing without checks ends.
#[verifier::opaque]
spec fn course(src: Seq<u8>, s: int, out: Seq<u8>, dst_len: int) -> (
    block::Decoded,
    (int, Seq<u8>),
) {
    (block::decode(src, s, out, dst_len), fast_end(src, s, out, dst_len))
}

/// The course stays the same over a copy for which there is room enough.
proof fn lemma_course_copy(src: Seq<u8>, s: int, out: Seq<u8>, dst_len: int)
    requires
        0 <= s,
        roomy(src, s, out, dst_len),
        tag::kind(src[s]) != 0,
    ensures
        match block::copy_step(src, s, out.len() as int, dst_len) {
            block::Step::Copy { next, offset, len } => course(src, s, out, dst_len) == course(
                src,
                next,
                out + block::repeated(out, offset, len),
                dst_len,
            ),
            block::Step::Refuse { error } => course(src, s, out, dst_len) == (
                (block::Decoded { bytes: out, error: Some(error) }),
                (s, out),
            ),
            block::Step::Literal { .. } => false,
        },
{
    reveal(course);
}

/// The course stays the same over a literal for which there is room enough.
proof fn lemma_course_literal(src: Seq<u8>, s: int, out: Seq<u8>, dst_len: int)
    requires
        0 <= s,
        roomy(src, s, out, dst_len),
        tag::kind(src[s]) == 0,
    ensures
        match block::literal_step(src, s, out.len() as int, dst_len) {
            block::Step::Literal { start, len } => course(src, s, out, dst_len) == course(
                src,
                start + len,
                out + src.subrange(start, start + len),
                dst_len,
            ),
            block::Step::Refuse { error } => course(src, s, out, dst_len) == (
                (block::Decoded { bytes: out, error: Some(error) }),
                (s, out),
            ),
            block::Step::Copy { .. } => false,
        },
{
    reveal(course);
}

/// The offset of the copy at `s`, from the entry of its tag byte and the `n`
/// bytes behind it.
proof fn lemma_offset(
    src: Seq<u8>,
    s: int,
    entry_val: u16,
    loaded: u32,
    n: nat,
    offset: usize,
)
    requires
        tag::kind(src[s]) != 0,
        entry_val == tag::entry(src[s]),
        n == 4 || n == tag::trailer_len(src[s]),
        loaded == bytes::le_value(src, s + 1, n),
        tag::kind(src[s]) == 1 ==> offset == 256 * ((entry_val / 256) % 8) + loaded % 256,
        tag::kind(src[s]) == 2 ==> offset == loaded % 65536,
        tag::kind(src[s]) == 3 ==> offset == loaded,
    ensures
        offset == tag::copy_offset(
            src[s],
            bytes::le_value(src, s + 1, tag::trailer_len(src[s]) as nat),
        ),
{
    let trailer = tag::trailer_len(src[s]) as nat;
    bytes::lemma_le_value_unfold(src, s + 1, n);
    bytes::lemma_le_value_unfold(src, s + 1, trailer);
    if n == 4 && trailer != 4 {
        let (b0, b1, b2, b3) = (
            src[s + 1] as int,
            src[s + 2] as int,
            src[s + 3] as int,
            src[s + 4] as int,
        );
        vstd::arithmetic::div_mod::lemma_fundamental_div_mod_converse(
            loaded as int,
            256,
            b1 + 256 * b2 + 65536 * b3,
            b0,
        );
        vstd::arithmetic::div_mod::lemma_fundamental_div_mod_converse(
            loaded as int,
            65536,
            b2 + 256 * b3,
            b0 + 256 * b1,
        );
    }
    if tag::kind(src[s]) == 1 {
        let high = src[s] as int / 32;
        vstd::arithmetic::div_mod::lemma_fundamental_div_mod_converse(
            entry_val as int,
            256,
            8 + high,
            tag::copy_len(src[s]),
        );
    }
}

/// The bytes behind a tag byte hold the tag byte of the next element, if it is
/// one or two bytes further.
proof fn lemma_preload(src: Seq<u8>, s: int, loaded: u32)
    requires
        loaded == bytes::le_value(src, s + 1, 4),
    ensures
        (loaded >> 8) % 256 == src[s + 2],
        (loaded >> 16) % 256 == src[s + 3],
{
    bytes::lemma_le_value_unfold(src, s + 1, 4);
    let (b0, b1, b2, b3) = (
        src[s + 1] as int,
        src[s + 2] as int,
        src[s + 3] as int,
        src[s + 4] as int,
    );
    assert(loaded >> 8 == loaded / 0x100) by (bit_vector);
    assert(loaded >> 16 == loaded / 0x1_0000) by (bit_vector);
    vstd::arithmetic::div_mod::lemma_fundamental_div_mod_converse(
        loaded as int,
        0x100,
        b1 + 0x100 * b2 + 0x1_0000 * b3,
        b0,
    );
    vstd::arithmetic::div_mod::lemma_fundamental_div_mod_converse(
        loaded as int,
        0x1_0000,
        b2 + 0x100 * b3,
        b0 + 0x100 * b1,
    );
}

} // verus!
