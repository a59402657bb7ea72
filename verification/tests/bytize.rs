use pathmap::bytize::{from_prefix_key, prefix_key, prefix_key_be};

#[test]
fn prefix_key_keeps_significant_bytes() {
    assert_eq!(prefix_key(&0), vec![0]);
    assert_eq!(prefix_key(&0x0102), vec![2, 1]);
    assert_eq!(prefix_key(&0xff), vec![0xff]);
    assert_eq!(prefix_key(&u64::MAX), vec![0xff; 8]);
}

#[test]
fn from_prefix_key_reads_little_endian() {
    assert_eq!(from_prefix_key(vec![2, 1]), 0x0102);
    assert_eq!(from_prefix_key(vec![0]), 0);
    assert_eq!(from_prefix_key(vec![1, 2, 3, 4, 5, 6, 7, 8, 9]), 0x0807_0605_0403_0201);
}

#[test]
fn prefix_key_roundtrip() {
    for k in [0u64, 1, 255, 256, 0x1234_5678, u64::MAX, 1u64 << 63] {
        assert_eq!(from_prefix_key(prefix_key(&k)), k);
    }
}

#[test]
fn prefix_key_be_drops_low_zero_bytes() {
    assert_eq!(prefix_key_be(&0), vec![0]);
    assert_eq!(prefix_key_be(&0x0100), vec![1, 0, 0, 0, 0, 0, 0]);
    assert_eq!(prefix_key_be(&1), vec![1, 0, 0, 0, 0, 0, 0, 0]);
    assert_eq!(prefix_key_be(&(0xabu64 << 56)), vec![0xab]);
}
