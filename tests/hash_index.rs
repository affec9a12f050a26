use lsm_block::coding::get_var_uint64;
use lsm_block::format::hash_key;
use lsm_block::hash_index::{DataBlockHashIndexBuilder, COLLISION, NO_ENTRY};

#[test]
fn fnv_hash_vectors() {
    assert_eq!(hash_key(b""), 0x811c_9dc5);
    assert_eq!(hash_key(b"a"), 0xe40c_292c);
    assert_eq!(hash_key(b"foobar"), 0xbf9c_f968);
}

#[test]
fn inactive_until_initialized() {
    let mut h = DataBlockHashIndexBuilder::new();
    assert!(!h.valid());
    h.add(b"a", 0);
    assert!(!h.valid());
    h.init(0);
    assert!(!h.valid());
}

#[test]
fn serialized_buckets() {
    let mut h = DataBlockHashIndexBuilder::new();
    h.init(100);
    assert!(h.valid());
    assert_eq!(h.estimate_size(), 3);
    h.add(b"a", 0);
    h.add(b"b", 1);
    assert_eq!(h.estimate_size(), 5);
    let mut buf = vec![42u8];
    h.finish(&mut buf);
    assert_eq!(buf.len(), 6);
    assert_eq!(buf[0], 42);
    assert_eq!(&buf[4..], &[3, 0]);
    let ia = (hash_key(b"a") % 3) as usize;
    let ib = (hash_key(b"b") % 3) as usize;
    for i in 0..3 {
        let expected = if ia == ib && i == ia {
            COLLISION
        } else if i == ia {
            0
        } else if i == ib {
            1
        } else {
            NO_ENTRY
        };
        assert_eq!(buf[1 + i], expected);
    }
    h.clear();
    assert!(h.valid());
    assert_eq!(h.estimate_size(), 3);
}

#[test]
fn gives_up_past_restart_limit() {
    let mut h = DataBlockHashIndexBuilder::new();
    h.init(75);
    h.add(b"a", 253);
    assert!(h.valid());
    h.add(b"b", 254);
    assert!(!h.valid());
    h.clear();
    assert!(h.valid());
}

#[test]
fn varint64_overflow_rejected() {
    let mut off = 0usize;
    let data = [0xff, 0xff, 0xff, 0xff, 0xff, 0xff, 0xff, 0xff, 0xff, 0x02];
    assert_eq!(get_var_uint64(&data, &mut off), None);
    assert_eq!(off, 0);
}
