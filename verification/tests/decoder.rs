//! Blocks written out by hand: what they decompress to and how they fail.
use snap::{decompress_len, Decoder, Error};

fn vec_of(input: &[u8]) -> Result<Vec<u8>, Error> {
    Decoder::new().decompress_vec(input)
}

/// Decompresses into a longer buffer, and checks what lies behind the block.
fn buffer_of(input: &[u8], room: usize) -> Result<Vec<u8>, Error> {
    let mut output = vec![0xa5u8; room];
    let n = Decoder::new().decompress(input, &mut output)?;
    assert!(output[n..].iter().all(|&b| b == 0xa5));
    output.truncate(n);
    Ok(output)
}

fn refused(input: &[u8], error: Error) {
    assert_eq!(vec_of(input), Err(error));
    assert_eq!(buffer_of(input, 1000), Err(error));
}

fn accepted(input: &[u8], output: &[u8]) {
    assert_eq!(decompress_len(input), Ok(output.len()));
    assert_eq!(vec_of(input), Ok(output.to_vec()));
    assert_eq!(buffer_of(input, output.len()), Ok(output.to_vec()));
    assert_eq!(buffer_of(input, output.len() + 7), Ok(output.to_vec()));
}

#[test]
fn empty_input() {
    assert_eq!(decompress_len(b""), Ok(0));
    refused(b"", Error::Empty);
}

#[test]
fn empty_block() {
    accepted(b"\x00", b"");
    accepted(b"\x80\x00", b"");
    accepted(b"\x80\x80\x80\x80\x80\x80\x80\x80\x80\x00", b"");
}

#[test]
fn one_literal() {
    accepted(b"\x01\x00a", b"a");
    accepted(b"\x05\x10hello", b"hello");
    accepted(b"\x85\x00\x10hello", b"hello");
    accepted(b"\x01\xf0\x00A", b"A");
    accepted(b"\x01\xf4\x00\x00A", b"A");
    accepted(b"\x01\xfc\x00\x00\x00\x00A", b"A");
}

#[test]
fn literals_with_long_lengths() {
    for (width, len) in [(1usize, 61usize), (1, 256), (2, 300), (3, 70000), (4, 70000), (1, 3)] {
        let data: Vec<u8> = (0..len).map(|i| (i * 7 % 251) as u8).collect();
        let mut block = Vec::new();
        let mut n = len;
        while n >= 128 {
            block.push((n % 128) as u8 + 128);
            n /= 128;
        }
        block.push(n as u8);
        block.push(((59 + width) * 4) as u8);
        for i in 0..width {
            block.push(((len - 1) >> (8 * i)) as u8);
        }
        block.extend_from_slice(&data);
        accepted(&block, &data);
    }
}

#[test]
fn copies() {
    accepted(b"\x05\x00a\x01\x01", b"aaaaa");
    accepted(b"\x0c\x0cabcd\x11\x04", b"abcdabcdabcd");
    accepted(b"\x06\x04ab\x0e\x02\x00", b"ababab");
    accepted(b"\x05\x0cabcd\x02\x03\x00", b"abcdb");
    accepted(b"\x42\x04xy\xfe\x01\x00", &[&b"x"[..], &[b'y'; 65][..]].concat());
}

#[test]
fn near_copy_with_high_offset_bits() {
    let data: Vec<u8> = (0..2047u32).map(|i| (i % 256) as u8 ^ (i / 256) as u8).collect();
    let mut block = vec![0x83, 0x10, 0xf4, 0xfe, 0x07];
    block.extend_from_slice(&data);
    block.extend_from_slice(&[0xe1, 0xff]);
    let mut output = data.clone();
    output.extend_from_slice(&data[..4]);
    accepted(&block, &output);
}

#[test]
fn header_errors() {
    assert_eq!(decompress_len(b"\xff"), Err(Error::Header));
    refused(b"\xff", Error::Header);
    refused(b"\xff\xff\xff\xff\xff\xff\xff\xff\xff\xff\x00", Error::Header);
    refused(b"\x80\x80\x80\x80\x80\x80\x80\x80\x80\x02", Error::Header);
    let too_big = Error::TooBig { given: 4294967296, max: 4294967295 };
    assert_eq!(decompress_len(b"\x80\x80\x80\x80\x10"), Err(too_big));
    refused(b"\x80\x80\x80\x80\x10", too_big);
    refused(
        b"\xff\xff\xff\xff\xff\xff\xff\xff\xff\x01",
        Error::TooBig { given: u64::MAX, max: 4294967295 },
    );
    assert_eq!(decompress_len(b"\xff\xff\xff\xff\x0f"), Ok(4294967295));
}

#[test]
fn header_mismatch() {
    refused(b"\x05\x00a", Error::HeaderMismatch { expected_len: 5, got_len: 1 });
    refused(b"\x05", Error::HeaderMismatch { expected_len: 5, got_len: 0 });
}

#[test]
fn buffer_too_small() {
    let mut output = [9u8; 4];
    assert_eq!(
        Decoder::new().decompress(b"\x05\x10hello", &mut output),
        Err(Error::BufferTooSmall { given: 4, min: 5 })
    );
    assert_eq!(output, [9u8; 4]);
}

#[test]
fn literal_errors() {
    refused(b"\x05\x10hell", Error::Literal { len: 5, src_len: 4, dst_len: 5 });
    refused(b"\x04\x10hello", Error::Literal { len: 5, src_len: 5, dst_len: 4 });
    refused(b"\x00\x00a", Error::Literal { len: 1, src_len: 1, dst_len: 0 });
    refused(b"\x11\x00\x00\xfc\xfe\xff\xff\xff", Error::Literal {
        len: 4294967295,
        src_len: 0,
        dst_len: 16,
    });
    refused(b"\x11\x00\x00\xfc\xff\xff\xff\xff", Error::Literal {
        len: 4294967296,
        src_len: 0,
        dst_len: 16,
    });
    refused(b"\x02\xf0\x68i\0\0\0", Error::Literal { len: 105, src_len: 4, dst_len: 2 });
    refused(b"\x02\xf0\x01a", Error::Literal { len: 2, src_len: 1, dst_len: 2 });
    refused(b"\x02\xf4\x01", Error::Literal { len: 4, src_len: 1, dst_len: 2 });
    refused(b"\x02\xfc\x01\0\0", Error::Literal { len: 4, src_len: 3, dst_len: 2 });
    refused(b"\x02\xf0", Error::Literal { len: 4, src_len: 0, dst_len: 2 });
}

#[test]
fn copy_read_errors() {
    refused(b"\x11\x00a\x01", Error::CopyRead { len: 1, src_len: 0 });
    refused(b"\x11\x00a\x3e", Error::CopyRead { len: 2, src_len: 0 });
    refused(b"\x11\x00a\x3e\x01", Error::CopyRead { len: 2, src_len: 1 });
    refused(b"\x11\x00a\x3f", Error::CopyRead { len: 4, src_len: 0 });
    refused(b"\x11\x00a\x3f\x00", Error::CopyRead { len: 4, src_len: 1 });
    refused(b"\x11\x00a\x3f\x00\x00", Error::CopyRead { len: 4, src_len: 2 });
    refused(b"\x11\x00a\x3f\x00\x00\x00", Error::CopyRead { len: 4, src_len: 3 });
}

#[test]
fn copy_offset_errors() {
    refused(b"\x11\x00a\x01\x00", Error::Offset { offset: 0, dst_pos: 1 });
    refused(b"\x11\x00a\x01\xff", Error::Offset { offset: 255, dst_pos: 1 });
    refused(b"\x11\x00a\xe1\xff", Error::Offset { offset: 2047, dst_pos: 1 });
    refused(b"\x11\x00a\x02\x02\x01", Error::Offset { offset: 258, dst_pos: 1 });
    refused(b"\x04\x01\x01", Error::Offset { offset: 1, dst_pos: 0 });
}

#[test]
fn copy_with_four_byte_offset() {
    accepted(b"\x05\x00a\x0f\x01\x00\x00\x00", b"aaaaa");
    refused(b"\x05\x00a\x0f\x00\x00\x00\x00", Error::Offset { offset: 0, dst_pos: 1 });
    refused(b"\x05\x00a\x0f\x01\x00\x00\x80", Error::Offset {
        offset: 0x8000_0001,
        dst_pos: 1,
    });
    refused(b"\x04\x00a\x0f\x01\x00\x00\x00", Error::CopyWrite { len: 4, dst_len: 3 });

    let data: Vec<u8> = (0..70000u32).map(|i| (i % 251) as u8).collect();
    let mut block = vec![0xf8, 0x6f, 0x11, 0x01];
    block.extend_from_slice(&data);
    block.extend_from_slice(&[0xff, 0x70, 0x11, 0x01, 0x00]);
    block.extend_from_slice(&[0xf0, 0x7f]);
    block.extend_from_slice(&[9u8; 128]);
    let mut output = data.clone();
    output.extend_from_slice(&data[..64]);
    output.extend_from_slice(&[9u8; 128]);
    let mut header = vec![];
    let mut n = output.len();
    while n >= 128 {
        header.push((n % 128) as u8 + 128);
        n /= 128;
    }
    header.push(n as u8);
    header.extend_from_slice(&block);
    accepted(&header, &output);
}

#[test]
fn copy_write_error() {
    refused(b"\x05\x00a\x1d\x01", Error::CopyWrite { len: 11, dst_len: 4 });
}

#[test]
fn offset_error_comes_before_copy_write() {
    refused(b"\x02\x00a\x1d\x02", Error::Offset { offset: 2, dst_pos: 1 });
}

#[test]
fn failure_keeps_what_was_decompressed() {
    let mut output = [0xa5u8; 40];
    let error = Error::Offset { offset: 9, dst_pos: 8 };
    assert_eq!(
        Decoder::new().decompress(b"\x1e\x0cabcd\x01\x04\x01\x09", &mut output),
        Err(error)
    );
    assert_eq!(&output[..8], b"abcdabcd");
    assert!(output[30..].iter().all(|&b| b == 0xa5));
}

#[test]
fn decoder_is_reusable() {
    let mut decoder = Decoder::default();
    assert_eq!(decoder.decompress_vec(b"\x05\x10hello"), Ok(b"hello".to_vec()));
    assert_eq!(decoder.decompress_vec(b"\xff"), Err(Error::Header));
    let mut copy = decoder.clone();
    assert_eq!(copy.decompress_vec(b"\x05\x10hello"), Ok(b"hello".to_vec()));
    assert_eq!(format!("{:?}", decoder), "Decoder { _dummy: () }");
}

#[test]
fn trailing_bytes_are_refused() {
    let block = b"\x0c\x0cabcd\x11\x04";
    accepted(block, b"abcdabcdabcd");
    for extra in 0..=255u8 {
        let mut longer = block.to_vec();
        longer.push(extra);
        assert!(vec_of(&longer).is_err());
        longer.extend_from_slice(&[1, 0, 0, 0, 0, 0]);
        assert!(vec_of(&longer).is_err());
    }
}

#[test]
fn truncated_blocks_are_refused() {
    let block = b"\x0c\x0cabcd\x11\x04";
    for n in 0..block.len() {
        assert!(vec_of(&block[..n]).is_err());
    }
}
