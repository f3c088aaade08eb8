//! Long blocks, compared with a decompressor that works byte by byte.
use snap::{decompress_len, Decoder, Error};

struct Numbers(u64);

impl Numbers {
    fn next(&mut self, below: usize) -> usize {
        self.0 = self.0.wrapping_mul(6364136223846793005).wrapping_add(1442695040888963407);
        ((self.0 >> 33) as usize) % below
    }
}

fn header(len: usize) -> Vec<u8> {
    let mut bytes = Vec::new();
    let mut n = len;
    while n >= 128 {
        bytes.push((n % 128) as u8 + 128);
        n /= 128;
    }
    bytes.push(n as u8);
    bytes
}

/// A block of random elements and what it decompresses to.
fn random_block(seed: u64, elements: usize) -> (Vec<u8>, Vec<u8>) {
    let mut numbers = Numbers(seed);
    let mut wire = Vec::new();
    let mut out: Vec<u8> = Vec::new();
    for _ in 0..elements {
        let kind = numbers.next(4);
        if kind == 0 || out.is_empty() {
            let len = match numbers.next(3) {
                0 => 1 + numbers.next(16),
                1 => 1 + numbers.next(60),
                _ => 61 + numbers.next(400),
            };
            if len <= 60 && numbers.next(8) != 0 {
                wire.push(((len - 1) * 4) as u8);
            } else if len <= 256 {
                wire.push(0xf0);
                wire.push((len - 1) as u8);
            } else {
                wire.push(0xf4);
                wire.push((len - 1) as u8);
                wire.push(((len - 1) >> 8) as u8);
            }
            for _ in 0..len {
                let byte = numbers.next(256) as u8;
                wire.push(byte);
                out.push(byte);
            }
        } else {
            let reach = if numbers.next(2) == 0 { 40 } else { 2047 };
            let offset = 1 + numbers.next(out.len().min(reach));
            let len = if kind == 1 {
                let len = 4 + numbers.next(8);
                wire.push((1 + 4 * (len - 4) + 32 * (offset / 256)) as u8);
                wire.push(offset as u8);
                len
            } else {
                let len = 1 + numbers.next(64);
                wire.push((kind + 4 * (len - 1)) as u8);
                wire.push(offset as u8);
                wire.push((offset >> 8) as u8);
                if kind == 3 {
                    wire.push(0);
                    wire.push(0);
                }
                len
            };
            for _ in 0..len {
                out.push(out[out.len() - offset]);
            }
        }
    }
    let mut block = header(out.len());
    block.extend_from_slice(&wire);
    (block, out)
}

#[test]
fn random_blocks() {
    for seed in 0..300u64 {
        let (block, out) = random_block(seed, 1 + (seed as usize * 7) % 90);
        assert_eq!(decompress_len(&block), Ok(out.len()));
        assert_eq!(Decoder::new().decompress_vec(&block), Ok(out.clone()));
        let mut buffer = vec![0x5au8; out.len() + 100];
        assert_eq!(Decoder::new().decompress(&block, &mut buffer), Ok(out.len()));
        assert_eq!(&buffer[..out.len()], &out[..]);
        assert!(buffer[out.len()..].iter().all(|&b| b == 0x5a));
    }
}

#[test]
fn random_blocks_cut_short() {
    for seed in 0..40u64 {
        let (block, _) = random_block(seed, 20);
        for n in 0..block.len() {
            assert!(Decoder::new().decompress_vec(&block[..n]).is_err());
        }
    }
}

#[test]
fn every_copy_length_and_offset() {
    let literal: Vec<u8> = (0..100u32).map(|i| (i * 37 % 256) as u8).collect();
    for offset in 1..=70usize {
        for len in 1..=64usize {
            for tail in [0usize, 200] {
                let mut out = literal.clone();
                for _ in 0..len {
                    out.push(out[out.len() - offset]);
                }
                let rest = vec![3u8; tail];
                out.extend_from_slice(&rest);
                let mut block = header(out.len());
                block.extend_from_slice(&[0xf0, 99]);
                block.extend_from_slice(&literal);
                block.extend_from_slice(&[(2 + 4 * (len - 1)) as u8, offset as u8, 0]);
                if tail > 0 {
                    block.extend_from_slice(&[0xf0, (tail - 1) as u8]);
                    block.extend_from_slice(&rest);
                }
                assert_eq!(Decoder::new().decompress_vec(&block), Ok(out));
            }
        }
    }
}

#[test]
fn errors_in_the_middle_of_a_long_block() {
    let mut block = header(500);
    block.extend_from_slice(&[0xf0, 199]);
    block.extend_from_slice(&[1u8; 200]);
    let start = block.clone();
    block.extend_from_slice(&[0x02, 0xc9, 0x00]);
    block.extend_from_slice(&[0u8; 100]);
    assert_eq!(
        Decoder::new().decompress_vec(&block),
        Err(Error::Offset { offset: 201, dst_pos: 200 })
    );
    let mut block = start;
    block.extend_from_slice(&[0xf4, 0xff, 0x00]);
    block.extend_from_slice(&[0u8; 100]);
    assert_eq!(
        Decoder::new().decompress_vec(&block),
        Err(Error::Literal { len: 256, src_len: 100, dst_len: 300 })
    );
}
