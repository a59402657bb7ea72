use pathmap::utils::{
    byte_mask_clear, byte_mask_contains, byte_mask_from_iter, byte_mask_join, byte_mask_left,
    byte_mask_meet, byte_mask_set, byte_mask_subtract, ByteMaskIter, IntoByteMaskIter,
};

fn mask_of(bytes: &[u8]) -> [u64; 4] {
    byte_mask_from_iter(bytes)
}

#[test]
fn byte_mask_set_algebra() {
    let x = mask_of(&[1, 64, 200]);
    let y = mask_of(&[64, 65, 255]);
    assert_eq!(byte_mask_meet(x, y), mask_of(&[64]));
    assert_eq!(byte_mask_join(x, y), mask_of(&[1, 64, 65, 200, 255]));
    assert_eq!(byte_mask_subtract(x, y), mask_of(&[1, 200]));
}

#[test]
fn byte_mask_membership_and_edits() {
    let mut m = [0u64; 4];
    byte_mask_set(&mut m, 0);
    byte_mask_set(&mut m, 127);
    byte_mask_set(&mut m, 255);
    assert!(byte_mask_contains(m, 127));
    assert!(!byte_mask_contains(m, 128));
    assert_eq!(m, [1, 1u64 << 63, 0, 1u64 << 63]);
    byte_mask_clear(&mut m, 127);
    assert!(!byte_mask_contains(m, 127));
    assert_eq!(m, [1, 0, 0, 1u64 << 63]);
}

#[test]
fn byte_mask_left_counts_smaller_bytes() {
    let m = mask_of(&[3, 10, 64, 130, 255]);
    assert_eq!(byte_mask_left(m, 0), 0);
    assert_eq!(byte_mask_left(m, 3), 0);
    assert_eq!(byte_mask_left(m, 4), 1);
    assert_eq!(byte_mask_left(m, 64), 2);
    assert_eq!(byte_mask_left(m, 65), 3);
    assert_eq!(byte_mask_left(m, 200), 4);
    assert_eq!(byte_mask_left(m, 255), 4);
}

#[test]
fn byte_mask_iter_visits_in_order() {
    let m = mask_of(&[200, 3, 64, 63, 255]);
    let mut it = ByteMaskIter::new(m);
    let mut seen = Vec::new();
    while let Some(b) = it.next() {
        seen.push(b);
    }
    assert_eq!(seen, vec![3, 63, 64, 200, 255]);
    assert_eq!(it.next(), None);

    let mut it2 = (&m).byte_mask_iter();
    assert_eq!(it2.next(), Some(3));
    let mut it3 = ByteMaskIter::from([0u64; 4]);
    assert_eq!(it3.next(), None);
}

#[test]
fn masks_with_the_same_bytes_are_equal() {
    let a = byte_mask_from_iter(&[3, 200, 64, 3]);
    let mut b = [0u64; 4];
    byte_mask_set(&mut b, 64);
    byte_mask_set(&mut b, 200);
    byte_mask_set(&mut b, 3);
    assert_eq!(a, b);
}

#[test]
fn mask_walk_returns_bytes_in_order_then_none() {
    let m = [0b101u64, 0, 0, 1u64 << 63];
    let mut it = ByteMaskIter::new(m);
    let mut seen = Vec::new();
    while let Some(b) = it.next() {
        seen.push(b);
    }
    assert_eq!(seen, vec![0, 2, 255]);
    assert_eq!(it.next(), None);
    assert_eq!(it.next(), None);
    assert_eq!(byte_mask_from_iter(&seen), m);
}
