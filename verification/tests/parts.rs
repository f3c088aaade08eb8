//! The parts that the decoder is made of.
use snap::bytes::{load_le, loadu_u32_le, read_varu64};
use snap::tag::{entry_len, entry_offset, extract_offset_mask, lookup, tag_type};

#[test]
fn integers() {
    let data = [0x01, 0x02, 0x03, 0x84, 0x05];
    assert_eq!(loadu_u32_le(&data, 0), 0x8403_0201);
    assert_eq!(loadu_u32_le(&data, 1), 0x0584_0302);
    assert_eq!(load_le(&data, 1, 0), 0);
    assert_eq!(load_le(&data, 1, 1), 0x02);
    assert_eq!(load_le(&data, 2, 2), 0x8403);
    assert_eq!(load_le(&data, 1, 3), 0x84_0302);
    assert_eq!(load_le(&data, 1, 4), 0x0584_0302);
}

#[test]
fn varints() {
    assert_eq!(read_varu64(&[]), (0, 0));
    assert_eq!(read_varu64(&[0x00]), (0, 1));
    assert_eq!(read_varu64(&[0x7f, 0x01]), (127, 1));
    assert_eq!(read_varu64(&[0x80, 0x01]), (128, 2));
    assert_eq!(read_varu64(&[0xac, 0x02, 0xff]), (300, 2));
    assert_eq!(read_varu64(&[0xff, 0xff]), (0, 0));
    let mut longest = [0xffu8; 10];
    longest[9] = 0x01;
    assert_eq!(read_varu64(&longest), (u64::MAX, 10));
    longest[9] = 0x02;
    assert_eq!(read_varu64(&longest), (0, 0));
}

#[test]
fn tags() {
    assert_eq!(lookup(0x00), 0x0001);
    assert_eq!(lookup(0xf0), 0x0800);
    assert_eq!(lookup(0xfc), 0x2000);
    assert_eq!(lookup(0x01), 0x0804);
    assert_eq!(lookup(0xfd), 0x0f0b);
    assert_eq!(lookup(0xfe), 0x1040);
    assert_eq!(lookup(0xff), 0x2040);
    for tag in 0..=255u8 {
        assert_eq!(tag_type(tag), (tag % 4) as usize);
    }
    assert_eq!(entry_len(0x0f0b), 11);
    assert_eq!(extract_offset_mask(0), 0);
    assert_eq!(extract_offset_mask(1), 0xff);
    assert_eq!(extract_offset_mask(2), 0xffff);
    assert_eq!(extract_offset_mask(3), 0);
    assert_eq!(entry_offset(0x0f0b, 1, 0xddcc_bbaa), 0x7aa);
    assert_eq!(entry_offset(0x1040, 2, 0xddcc_bbaa), 0xbbaa);
    assert_eq!(entry_offset(0x2040, 3, 0xddcc_bbaa), 0xddcc_bbaa);
}
