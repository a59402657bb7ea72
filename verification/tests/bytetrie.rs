use pathmap::bytetrie::{ByteTrieNodeIter, ByteTrieNodePtr, BytesTrieMapIter, Utils};

#[test]
fn byte_trie_insert_get_contains() {
    let mut t: ByteTrieNodePtr<u32> = ByteTrieNodePtr::new();
    assert!(!t.insert(b"abc", 1));
    assert!(!t.insert(b"abd", 2));
    assert!(!t.insert(b"a", 3));
    assert!(t.insert(b"abc", 10));
    assert_eq!(t.get(b"abc"), Some(&1));
    assert_eq!(t.get(b"abd"), Some(&2));
    assert_eq!(t.get(b"a"), Some(&3));
    assert_eq!(t.get(b"ab"), None);
    assert_eq!(t.get(b"abcd"), None);
    assert!(t.contains(b"abd"));
    assert!(!t.contains(b"b"));
}

#[test]
fn byte_trie_update_fills_or_returns() {
    let mut t: ByteTrieNodePtr<u32> = ByteTrieNodePtr::new();
    *t.update(b"xy", || 5) += 1;
    assert_eq!(t.get(b"xy"), Some(&6));
    *t.update(b"xy", || 100) += 1;
    assert_eq!(t.get(b"xy"), Some(&7));
}

#[test]
fn byte_trie_len_counts_values() {
    let mut t: ByteTrieNodePtr<u8> = ByteTrieNodePtr::new();
    assert_eq!(t.len(), 0);
    t.insert(b"a", 1);
    t.insert(b"b", 2);
    assert_eq!(t.len(), 2);
    t.insert(b"ab", 3);
    assert_eq!(t.len(), 3);
    t.insert(b"\x00c", 4);
    assert_eq!(t.len(), 4);
    t.insert(b"ab", 5);
    assert_eq!(t.len(), 4);
}

#[test]
fn utils_slot_table() {
    let mut mask = [0u64; 4];
    let mut values: Vec<Option<&str>> = vec![None; 256];
    assert!(!Utils::insert(&mut mask, &mut values, 7, "seven"));
    assert!(Utils::insert(&mut mask, &mut values, 7, "other"));
    assert!(!Utils::insert(&mut mask, &mut values, 200, "two hundred"));
    assert_eq!(Utils::get(&mask, &values, 7), Some(&"seven"));
    assert_eq!(Utils::get(&mask, &values, 8), None);
    assert_eq!(Utils::len(&mask), 2);
    assert_eq!(Utils::left(&mask, 200), 1);
    assert!(Utils::contains(&mask, 200));
    let mut it = ByteTrieNodeIter::new(&mask, &values);
    assert_eq!(it.next(), Some((7, &"seven")));
    assert_eq!(it.next(), Some((200, &"two hundred")));
    assert_eq!(it.next(), None);
    Utils::clear(&mut mask, 7);
    assert!(!Utils::contains(&mask, 7));
    assert!(!Utils::contains_set(&mut mask, 9));
    assert!(Utils::contains(&mask, 9));
}

#[test]
fn bytes_trie_map_iter_starts_at_root() {
    let mut t: ByteTrieNodePtr<u8> = ByteTrieNodePtr::new();
    t.insert(b"q", 1);
    let _walk = BytesTrieMapIter::new(&t);
}
