use lsm_block::coding::{
    crc_mask, crc_unmask, decode_fixed_uint16, decode_fixed_uint32, decode_fixed_uint64,
    difference_offset, encode_var_uint32, encode_var_uint64, get_length_prefixed_slice,
    get_next_key, get_var_uint32, get_var_uint64, next_key, put_length_prefixed_slice,
    put_var_uint32, put_var_uint64, put_varint32varint32, put_varint32varint32varint64,
    put_varint32varint64, put_varint64varint64, varint_length,
};

#[test]
fn varint32_encodings() {
    let mut buf = Vec::new();
    put_var_uint32(&mut buf, 0);
    assert_eq!(buf, vec![0]);
    buf.clear();
    put_var_uint32(&mut buf, 127);
    assert_eq!(buf, vec![127]);
    buf.clear();
    put_var_uint32(&mut buf, 300);
    assert_eq!(buf, vec![0xac, 0x02]);
    buf.clear();
    put_var_uint32(&mut buf, u32::MAX);
    assert_eq!(buf, vec![0xff, 0xff, 0xff, 0xff, 0x0f]);
}

#[test]
fn varint64_encodings() {
    let mut buf = vec![9u8];
    put_var_uint64(&mut buf, u64::MAX);
    assert_eq!(buf.len(), 11);
    assert_eq!(buf[0], 9);
    assert_eq!(buf[10], 0x01);
    assert!(buf[1..10].iter().all(|&b| b == 0xff));
}

#[test]
fn encode_into_slice_leaves_rest() {
    let mut data = [7u8; 8];
    let n = encode_var_uint32(&mut data, 16384);
    assert_eq!(n, 3);
    assert_eq!(data, [0x80, 0x80, 0x01, 7, 7, 7, 7, 7]);
    let mut data = [7u8; 12];
    let n = encode_var_uint64(&mut data, 1 << 35);
    assert_eq!(n, 6);
    assert_eq!(&data[..6], &[0x80, 0x80, 0x80, 0x80, 0x80, 0x01]);
    assert_eq!(data[6], 7);
}

#[test]
fn varint_pairs_and_triples() {
    let mut buf = Vec::new();
    put_varint32varint32(&mut buf, 1, 200);
    assert_eq!(buf, vec![1, 0xc8, 0x01]);
    buf.clear();
    put_varint32varint64(&mut buf, 2, 128);
    assert_eq!(buf, vec![2, 0x80, 0x01]);
    buf.clear();
    put_varint64varint64(&mut buf, 3, 4);
    assert_eq!(buf, vec![3, 4]);
    buf.clear();
    put_varint32varint32varint64(&mut buf, 5, 6, 300);
    assert_eq!(buf, vec![5, 6, 0xac, 0x02]);
}

#[test]
fn varint32_decoding() {
    let mut off = 10usize;
    assert_eq!(get_var_uint32(&[0xac, 0x02, 0x55], &mut off), Some(300));
    assert_eq!(off, 12);
    let mut off = 0usize;
    assert_eq!(get_var_uint32(&[0xff, 0xff, 0xff, 0xff, 0x0f], &mut off), Some(u32::MAX));
    assert_eq!(off, 5);
}

#[test]
fn varint32_decoding_failures() {
    let mut off = 3usize;
    assert_eq!(get_var_uint32(&[], &mut off), None);
    assert_eq!(get_var_uint32(&[0x80], &mut off), None);
    assert_eq!(get_var_uint32(&[0xff, 0xff, 0xff, 0xff, 0x1f], &mut off), None);
    assert_eq!(get_var_uint32(&[0x80, 0x80, 0x80, 0x80, 0x80, 0x00], &mut off), None);
    assert_eq!(off, 3);
}

#[test]
fn varint64_round_trip() {
    for v in [0u64, 1, 127, 128, 1 << 40, u64::MAX] {
        let mut buf = Vec::new();
        put_var_uint64(&mut buf, v);
        buf.push(0x99);
        let mut off = 0usize;
        assert_eq!(get_var_uint64(&buf, &mut off), Some(v));
        assert_eq!(off, buf.len() - 1);
        assert_eq!(varint_length(v as usize), buf.len() - 1);
    }
    let mut off = 0usize;
    assert_eq!(get_var_uint64(&[0x80; 10], &mut off), None);
    assert_eq!(off, 0);
}

#[test]
fn length_prefixed_slices() {
    let mut buf = Vec::new();
    put_length_prefixed_slice(&mut buf, b"abc");
    assert_eq!(buf, vec![3, b'a', b'b', b'c']);
    buf.push(b'x');
    let mut off = 0usize;
    assert_eq!(get_length_prefixed_slice(&buf, &mut off), Some(&b"abc"[..]));
    assert_eq!(off, 4);
    let mut off = 0usize;
    assert_eq!(get_length_prefixed_slice(&[5, 1, 2], &mut off), None);
    assert_eq!(off, 0);
}

#[test]
fn varint_lengths() {
    assert_eq!(varint_length(0), 1);
    assert_eq!(varint_length(127), 1);
    assert_eq!(varint_length(128), 2);
    assert_eq!(varint_length(usize::MAX), 10);
}

#[test]
fn common_prefix_lengths() {
    assert_eq!(difference_offset(b"abcd", b"abxy"), 2);
    assert_eq!(difference_offset(b"", b"a"), 0);
    assert_eq!(difference_offset(b"abc", b"abc"), 3);
    assert_eq!(difference_offset(b"abc", b"abcdef"), 3);
}

#[test]
fn successor_keys() {
    let mut k = vec![1u8, 2];
    next_key(&mut k);
    assert_eq!(k, vec![1, 3]);
    let mut k = vec![255u8];
    next_key(&mut k);
    assert_eq!(k, vec![255, 0]);
    assert_eq!(get_next_key(b"ab"), b"ac".to_vec());
    assert_eq!(get_next_key(&[7, 255]), vec![7, 255, 0]);
}

#[test]
fn fixed_width_reads() {
    assert_eq!(decode_fixed_uint32(&[1, 2, 3, 4, 9]), 0x0403_0201);
    assert_eq!(decode_fixed_uint16(&[0x34, 0x12]), 0x1234);
    assert_eq!(decode_fixed_uint64(&0x0102_0304_0506_0708u64.to_le_bytes()), 0x0102_0304_0506_0708);
}

#[test]
fn checksum_mask() {
    assert_eq!(crc_mask(0), 0xa282_ead8);
    assert_eq!(crc_mask(1), 0xa284_ead8);
    for crc in [0u32, 1, 0xdead_beef, u32::MAX, 0x1234_5678] {
        assert_ne!(crc_mask(crc), crc);
        assert_eq!(crc_unmask(crc_mask(crc)), crc);
    }
}
