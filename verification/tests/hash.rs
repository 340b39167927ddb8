use goetia::hash::{fnv1a64, key64, Fnv64Hasher, StateHasher, FNV_OFFSET};

#[test]
fn fnv_known_values() {
    assert_eq!(fnv1a64(b""), FNV_OFFSET);
    assert_eq!(fnv1a64(b"a"), 0xaf63dc4c8601ec8c);
    assert_eq!(fnv1a64(b"foobar"), 0x85944171f73967e8);
    assert_eq!(key64("foobar"), 0x85944171f73967e8);
}

#[test]
fn incremental_matches_oneshot() {
    let mut h = StateHasher::new();
    h.write_bytes(b"foo");
    h.write_bytes(b"bar");
    assert_eq!(h.finish(), fnv1a64(b"foobar"));
}

#[test]
fn integer_writes_are_little_endian_bytes() {
    let mut a = StateHasher::new();
    a.write_u32(0x0403_0201);
    a.write_u64(0x0807_0605_0403_0201);
    a.write_i32(-2);
    let mut b = StateHasher::new();
    b.write_bytes(&0x0403_0201u32.to_le_bytes());
    b.write_bytes(&0x0807_0605_0403_0201u64.to_le_bytes());
    b.write_bytes(&(-2i32).to_le_bytes());
    assert_eq!(a.finish(), b.finish());
}

#[test]
fn order_matters() {
    let mut a = StateHasher::new();
    a.write_u32(1);
    a.write_u32(2);
    let mut b = StateHasher::new();
    b.write_u32(2);
    b.write_u32(1);
    assert_ne!(a.finish(), b.finish());
}

#[test]
fn fnv_hasher_starts_from_offset() {
    let mut h = Fnv64Hasher::new();
    assert_eq!(h.finish(), FNV_OFFSET);
    h.write(b"foo");
    h.write(b"bar");
    assert_eq!(h.finish(), fnv1a64(b"foobar"));
}
