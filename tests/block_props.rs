use lsm_block::block::{apply_global_seqno, Block};
use lsm_block::block_builder::{
    pack_index_type_and_num_restarts, unpack_index_type_and_num_restarts, BlockBuilder,
    DataBlockIndexType, DEFAULT_HASH_TABLE_UTIL_RATIO,
};
use lsm_block::format::{
    extract_user_key, pack_sequence_and_type, KeyComparator, ValueType,
    DISABLE_GLOBAL_SEQUENCE_NUMBER,
};
use std::cmp::Ordering;

fn internal_key(user: &[u8], seq: u64) -> Vec<u8> {
    let mut k = user.to_vec();
    k.extend_from_slice(&pack_sequence_and_type(seq, ValueType::TypeValue as u8).to_le_bytes());
    k
}

fn sample_entries() -> Vec<(Vec<u8>, Vec<u8>)> {
    let mut out = Vec::new();
    for i in 0..60u32 {
        let user = format!("key{:03}", i * 2);
        out.push((internal_key(user.as_bytes(), 9), format!("v{}", i).into_bytes()));
    }
    out
}

fn build(entries: &[(Vec<u8>, Vec<u8>)], interval: usize, delta: bool, t: DataBlockIndexType) -> Vec<u8> {
    let mut b = BlockBuilder::new(interval, delta, t, DEFAULT_HASH_TABLE_UTIL_RATIO);
    for (k, v) in entries {
        b.add(k, v);
    }
    b.finish().to_vec()
}

fn footer(block: &[u8]) -> u32 {
    u32::from_le_bytes(block[block.len() - 4..].try_into().unwrap())
}

fn read_all(data: Vec<u8>, cmp: KeyComparator) -> Vec<(Vec<u8>, Vec<u8>)> {
    let block = Block::new(data, DISABLE_GLOBAL_SEQUENCE_NUMBER);
    let mut it = block.new_data_iterator(cmp);
    let mut out = Vec::new();
    it.seek_to_first();
    while it.valid() {
        out.push((it.key().to_vec(), it.value().to_vec()));
        it.next();
    }
    out
}

#[test]
fn round_trip_all_intervals() {
    let entries = sample_entries();
    for interval in [1usize, 2, 3, 16, 100] {
        for delta in [true, false] {
            let data = build(&entries, interval, delta, DataBlockIndexType::DataBlockBinarySearch);
            assert_eq!(read_all(data, KeyComparator::Internal), entries);
        }
    }
}

#[test]
fn round_trip_empty_key_and_value() {
    let entries = vec![(Vec::new(), Vec::new()), (b"a".to_vec(), Vec::new()), (b"ab".to_vec(), b"x".to_vec())];
    let data = build(&entries, 2, true, DataBlockIndexType::DataBlockBinarySearch);
    assert_eq!(read_all(data, KeyComparator::Bytewise), entries);
}

#[test]
fn single_entry_block_layout() {
    let data = build(&[(b"k".to_vec(), b"v".to_vec())], 16, true, DataBlockIndexType::DataBlockBinarySearch);
    assert_eq!(data, vec![0, 1, 1, b'k', b'v', 0, 0, 0, 0, 1, 0, 0, 0]);
}

#[test]
fn delta_encoding_shares_prefix() {
    let entries = vec![(b"abc".to_vec(), b"1".to_vec()), (b"abd".to_vec(), b"2".to_vec())];
    let data = build(&entries, 16, true, DataBlockIndexType::DataBlockBinarySearch);
    assert_eq!(&data[..12], &[0, 3, 1, b'a', b'b', b'c', b'1', 2, 1, 1, b'd', b'2']);
    let plain = build(&entries, 16, false, DataBlockIndexType::DataBlockBinarySearch);
    assert_eq!(&plain[7..14], &[0, 3, 1, b'a', b'b', b'd', b'2']);
}

#[test]
fn restart_entries_store_whole_keys() {
    let entries = sample_entries();
    for delta in [true, false] {
        let data = build(&entries, 4, delta, DataBlockIndexType::DataBlockBinarySearch);
        let n = footer(&data) as usize;
        assert_eq!(n, 15);
        let start = data.len() - 4 - 4 * n;
        for j in 0..n {
            let off = u32::from_le_bytes(data[start + 4 * j..start + 4 * j + 4].try_into().unwrap()) as usize;
            assert_eq!(data[off], 0);
        }
        assert_eq!(&data[start..start + 4], &[0, 0, 0, 0]);
    }
}

#[test]
fn seek_lands_on_first_not_smaller() {
    let entries = sample_entries();
    let data = build(&entries, 3, true, DataBlockIndexType::DataBlockBinarySearch);
    let block = Block::new(data, DISABLE_GLOBAL_SEQUENCE_NUMBER);
    let mut it = block.new_data_iterator(KeyComparator::Internal);
    it.seek(&internal_key(b"key000", 9));
    assert_eq!(it.key(), entries[0].0.as_slice());
    it.seek(&internal_key(b"key001", 9));
    assert_eq!(it.key(), entries[1].0.as_slice());
    it.seek(&internal_key(b"a", 9));
    assert_eq!(it.key(), entries[0].0.as_slice());
    it.seek(&internal_key(b"key118", 9));
    assert_eq!(it.key(), entries[59].0.as_slice());
    it.seek(&internal_key(b"key118", 3));
    assert!(!it.valid());
    it.seek(&internal_key(b"key200", 9));
    assert!(!it.valid());
}

#[test]
fn hash_index_keeps_seek_results() {
    let entries = sample_entries();
    let hashed = build(&entries, 2, true, DataBlockIndexType::DataBlockBinaryAndHash);
    let plain = build(&entries, 2, true, DataBlockIndexType::DataBlockBinarySearch);
    assert_eq!(footer(&hashed) >> 31, 1);
    assert_eq!(footer(&plain) >> 31, 0);
    assert_eq!(read_all(hashed.clone(), KeyComparator::Internal), entries);
    let hb = Block::new(hashed, DISABLE_GLOBAL_SEQUENCE_NUMBER);
    let pb = Block::new(plain, DISABLE_GLOBAL_SEQUENCE_NUMBER);
    let mut hi = hb.new_data_iterator(KeyComparator::Internal);
    let mut pi = pb.new_data_iterator(KeyComparator::Internal);
    for i in 0..125u32 {
        for seq in [20u64, 9, 1] {
            let target = internal_key(format!("key{:03}", i).as_bytes(), seq);
            hi.seek(&target);
            pi.seek(&target);
            assert_eq!(hi.valid(), pi.valid());
            if pi.valid() {
                assert_eq!(hi.key(), pi.key());
                assert_eq!(hi.value(), pi.value());
            }
        }
    }
}

#[test]
fn hash_index_dropped_past_restart_limit() {
    let mut entries = Vec::new();
    for i in 0..300u32 {
        entries.push((internal_key(format!("k{:05}", i).as_bytes(), 1), b"v".to_vec()));
    }
    let data = build(&entries, 1, true, DataBlockIndexType::DataBlockBinaryAndHash);
    assert_eq!(footer(&data), 300);
    assert_eq!(read_all(data, KeyComparator::Internal), entries);
}

#[test]
fn clear_then_replay_is_identical() {
    let entries = sample_entries();
    for t in [DataBlockIndexType::DataBlockBinarySearch, DataBlockIndexType::DataBlockBinaryAndHash] {
        let fresh = build(&entries, 3, true, t);
        let mut b = BlockBuilder::new(3, true, t, DEFAULT_HASH_TABLE_UTIL_RATIO);
        b.add(b"zzz", b"other");
        b.finish();
        b.clear();
        assert!(b.is_empty());
        assert_eq!(b.current_size_estimate(), if t == DataBlockIndexType::DataBlockBinaryAndHash { 11 } else { 8 });
        for (k, v) in &entries {
            b.add(k, v);
        }
        assert_eq!(b.finish().to_vec(), fresh);
    }
}

#[test]
fn size_estimate_tracks_bytes() {
    let mut b = BlockBuilder::new(2, true, DataBlockIndexType::DataBlockBinarySearch, 0);
    assert!(b.is_empty());
    assert_eq!(b.current_size_estimate(), 8);
    b.add(b"a", b"b");
    assert!(!b.is_empty());
    assert_eq!(b.current_size_estimate(), 13);
    b.add(b"ab", b"c");
    assert_eq!(b.current_size_estimate(), 18);
    b.add(b"b", b"d");
    assert_eq!(b.current_size_estimate(), 27);
    let len = b.finish().len();
    assert_eq!(len, 27);
}

#[test]
fn empty_block_reads_nothing() {
    let mut b = BlockBuilder::new(16, true, DataBlockIndexType::DataBlockBinarySearch, 0);
    let data = b.finish().to_vec();
    assert_eq!(data, vec![0, 0, 0, 0, 1, 0, 0, 0]);
    let block = Block::new(data, DISABLE_GLOBAL_SEQUENCE_NUMBER);
    let mut it = block.new_data_iterator(KeyComparator::Bytewise);
    it.seek_to_first();
    assert!(!it.valid());
    it.seek(b"a");
    assert!(!it.valid());
}

#[test]
fn malformed_buffers_read_nothing() {
    for data in [vec![], vec![1, 2], vec![0xff, 0xff, 0xff, 0x7f], vec![0, 0, 0, 0x80]] {
        let block = Block::new(data, DISABLE_GLOBAL_SEQUENCE_NUMBER);
        let mut it = block.new_data_iterator(KeyComparator::Bytewise);
        it.seek_to_first();
        assert!(!it.valid());
    }
}

#[test]
fn global_seqno_overrides_every_key() {
    let entries = sample_entries();
    let data = build(&entries, 4, true, DataBlockIndexType::DataBlockBinarySearch);
    let block = Block::new(data, 77);
    let mut it = block.new_data_iterator(KeyComparator::Internal);
    it.seek_to_first();
    for (k, _) in &entries {
        assert!(it.valid());
        let key = it.key();
        assert_eq!(extract_user_key(key), extract_user_key(k));
        let trailer = u64::from_le_bytes(key[key.len() - 8..].try_into().unwrap());
        assert_eq!(trailer >> 8, 77);
        assert_eq!(trailer & 0xff, ValueType::TypeValue as u64);
        it.next();
    }
    assert!(!it.valid());
    assert_eq!(apply_global_seqno(b"short", 5), b"short".to_vec());
    let k = internal_key(b"u", 3);
    assert_eq!(apply_global_seqno(&k, DISABLE_GLOBAL_SEQUENCE_NUMBER), k);
}

#[test]
fn footer_packing() {
    assert_eq!(pack_index_type_and_num_restarts(DataBlockIndexType::DataBlockBinarySearch, 7), 7);
    assert_eq!(pack_index_type_and_num_restarts(DataBlockIndexType::DataBlockBinaryAndHash, 7), 0x8000_0007);
    assert_eq!(unpack_index_type_and_num_restarts(0x8000_0007), (DataBlockIndexType::DataBlockBinaryAndHash, 7));
    assert_eq!(unpack_index_type_and_num_restarts(3), (DataBlockIndexType::DataBlockBinarySearch, 3));
}

#[test]
fn internal_key_order() {
    let c = KeyComparator::Internal;
    assert_eq!(c.compare_key(&internal_key(b"a", 5), &internal_key(b"a", 4)), Ordering::Less);
    assert_eq!(c.compare_key(&internal_key(b"a", 5), &internal_key(b"b", 9)), Ordering::Less);
    assert_eq!(c.compare_key(&internal_key(b"a", 5), &internal_key(b"a", 5)), Ordering::Equal);
    assert_eq!(KeyComparator::Bytewise.compare_key(b"ab", b"a"), Ordering::Greater);
    assert_eq!(pack_sequence_and_type(1, 1), 257);
    assert_eq!(extract_user_key(&internal_key(b"user", 1)), b"user");
}

#[test]
fn size_estimate_never_shrinks_when_hash_index_given_up() {
    let mut b = BlockBuilder::new(1, true, DataBlockIndexType::DataBlockBinaryAndHash, 75);
    let mut last = b.current_size_estimate();
    for i in 0..300u32 {
        let k = internal_key(format!("k{:05}", i).as_bytes(), 1);
        b.add(&k, b"v");
        let now = b.current_size_estimate();
        assert!(now >= last, "estimate fell from {} to {} at entry {}", last, now, i);
        last = now;
    }
    b.clear();
    assert_eq!(b.current_size_estimate(), 11);
}

#[test]
fn corrupt_footer_is_reported() {
    let good = build(&sample_entries(), 4, true, DataBlockIndexType::DataBlockBinarySearch);
    assert!(Block::new(good, DISABLE_GLOBAL_SEQUENCE_NUMBER).footer_parsed());
    let mut empty = BlockBuilder::new(4, true, DataBlockIndexType::DataBlockBinarySearch, 0);
    let e = empty.finish().to_vec();
    assert!(Block::new(e, DISABLE_GLOBAL_SEQUENCE_NUMBER).footer_parsed());
    for bad in [vec![], vec![1, 2], vec![0xff, 0xff, 0xff, 0x7f], vec![0, 0, 0, 0x80]] {
        assert!(!Block::new(bad, DISABLE_GLOBAL_SEQUENCE_NUMBER).footer_parsed());
    }
}

#[test]
fn seek_lands_on_value_and_continues() {
    let entries = sample_entries();
    let data = build(&entries, 3, true, DataBlockIndexType::DataBlockBinaryAndHash);
    let block = Block::new(data, DISABLE_GLOBAL_SEQUENCE_NUMBER);
    let mut it = block.new_data_iterator(KeyComparator::Internal);
    it.seek(&internal_key(b"key041", 9));
    assert_eq!(it.key(), entries[21].0.as_slice());
    assert_eq!(it.value(), entries[21].1.as_slice());
    it.next();
    assert_eq!(it.key(), entries[22].0.as_slice());
    assert_eq!(it.value(), entries[22].1.as_slice());
}
