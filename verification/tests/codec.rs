use vprogs::codec::{concat_be, u64_from_be_bytes, u64_from_be_bytes_at, u64_to_be_bytes};

#[test]
fn test_u64_to_be_bytes_exact() {
    assert_eq!(u64_to_be_bytes(0x0102_0304_0506_0708), vec![1, 2, 3, 4, 5, 6, 7, 8]);
    assert_eq!(u64_to_be_bytes(0), vec![0; 8]);
    assert_eq!(u64_to_be_bytes(u64::MAX), vec![0xff; 8]);
}

#[test]
fn test_u64_be_roundtrip() {
    for v in [0u64, 1, 255, 256, 0xdead_beef, u64::MAX - 1, u64::MAX] {
        let bytes = u64_to_be_bytes(v);
        assert_eq!(u64_from_be_bytes(&bytes), v);
    }
    assert_eq!(u64_from_be_bytes(&[0, 0, 0, 0, 0, 0, 1, 0, 9, 9]), 256);
}

#[test]
fn test_concat_be_pair_key() {
    let key = concat_be(1, 2);
    assert_eq!(key, vec![0, 0, 0, 0, 0, 0, 0, 1, 0, 0, 0, 0, 0, 0, 0, 2]);
    assert_eq!(u64_from_be_bytes_at(&key, 0), 1);
    assert_eq!(u64_from_be_bytes_at(&key, 8), 2);
    assert_ne!(concat_be(1, 2), concat_be(2, 1));
}
