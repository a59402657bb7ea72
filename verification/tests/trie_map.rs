use pathmap::dense_byte_node::{DenseByteNode, TrieNodeODRc};
use pathmap::trie_map::BytesTrieMap;

#[test]
fn dense_node_slots() {
    let mut n: DenseByteNode<&str> = DenseByteNode::new();
    assert!(n.node_is_empty());
    n.set_val(3, "three");
    assert!(!n.node_is_empty());
    assert_eq!(n.get(3).unwrap().value, Some("three"));
    assert!(n.get(3).unwrap().rec.is_none());
    assert!(n.get(4).is_none());
    let mut child: DenseByteNode<&str> = DenseByteNode::with_capacity(1);
    child.set_val(9, "nine");
    n.set_child(3, TrieNodeODRc::new(child));
    let slot = n.get(3).unwrap();
    assert_eq!(slot.value, Some("three"));
    assert_eq!(slot.rec.as_ref().unwrap().as_dense().get(9).unwrap().value, Some("nine"));
    n.set_val(3, "drei");
    assert_eq!(n.get(3).unwrap().value, Some("drei"));
    assert!(n.get(3).unwrap().rec.is_some());
}

#[test]
fn bytes_trie_map_iterates_in_key_order() {
    let mut leaf: DenseByteNode<u32> = DenseByteNode::new();
    leaf.set_val(7, 70);
    leaf.set_val(1, 10);
    let shared = TrieNodeODRc::new(leaf);
    let mut root: DenseByteNode<u32> = DenseByteNode::new();
    root.set_val(5, 5);
    root.set_child(5, shared.share());
    root.set_child(2, shared.share());
    root.set_val(200, 2000);
    let map = BytesTrieMap::new_with_root(TrieNodeODRc::new(root));
    let entries: Vec<(Vec<u8>, u32)> = map.iter().into_iter().map(|(k, v)| (k, *v)).collect();
    assert_eq!(
        entries,
        vec![
            (vec![2, 1], 10),
            (vec![2, 7], 70),
            (vec![5], 5),
            (vec![5, 1], 10),
            (vec![5, 7], 70),
            (vec![200], 2000),
        ]
    );
    assert!(map.root().as_dense().get(2).is_some());
}
