use pathmap::ptr_upgrade::{
    NodeBlock, NodeRef, PayloadRef, StraightPath, Trie, CHUNKS_PER_BLOCK, LOUDS_CHUNK, STRAIGHT_PATH,
};
use pathmap::ptr_upgrade::LoudsChunk;

#[test]
fn insert_node_hands_out_distinct_chunks() {
    let mut t = Trie::new();
    let mut seen = Vec::new();
    for _ in 0..(2 * CHUNKS_PER_BLOCK + 5) {
        let p = t.insert_node().tagged_ptr;
        assert!(p.chunk < CHUNKS_PER_BLOCK);
        assert!(!seen.contains(&(p.block, p.chunk)));
        seen.push((p.block, p.chunk));
    }
    assert_eq!(seen[0], (0, 0));
    assert_eq!(seen[1], (0, 1));
    assert_eq!(seen[CHUNKS_PER_BLOCK - 1], (0, CHUNKS_PER_BLOCK - 1));
    assert_eq!(seen[CHUNKS_PER_BLOCK], (1, 0));
    assert_eq!(seen[2 * CHUNKS_PER_BLOCK], (2, 0));
}

#[test]
fn node_block_list_links() {
    let mut arena = vec![NodeBlock { prev: 0, next: 0, occupancy: 0 }; 3];
    NodeBlock::init(&mut arena, 0);
    NodeBlock::insert_after(&mut arena, 0, 1);
    assert_eq!((arena[1].prev, arena[1].next, arena[0].next), (0, 0, 1));
    NodeBlock::insert_after(&mut arena, 1, 2);
    assert_eq!((arena[2].prev, arena[2].next, arena[1].next), (1, 0, 2));
    assert!(NodeBlock::remove(&mut arena, 1));
    assert_eq!((arena[0].next, arena[2].prev), (2, 0));
    NodeBlock::init(&mut arena, 1);
    assert!(!NodeBlock::remove(&mut arena, 1));
    let n = NodeBlock::nth_node(7, 83);
    assert_eq!((n.block, n.chunk), (7, 83));
}

#[test]
fn node_ptr_write_then_get() {
    let mut t = Trie::new();
    let a = t.insert_node();
    let b = t.insert_node();
    assert_eq!(a.tag, 0);
    let path = StraightPath { common_header: 7, payload: PayloadRef(3), data: [9u8; 30] };
    let a = a.write(&mut t, NodeRef::StraightPath(path));
    assert_eq!(a.tag, STRAIGHT_PATH);
    let louds = LoudsChunk { common_header: 1, endpoints_table: [PayloadRef(0); 8], louds_bit_string: 0b1011, path_bytes: [2u8; 19] };
    let b = b.write(&mut t, NodeRef::LoudsChunk(louds));
    assert_eq!(b.tag, LOUDS_CHUNK);
    match a.get(&t) {
        NodeRef::StraightPath(p) => {
            assert_eq!(p.common_header, 7);
            assert_eq!(p.payload.0, 3);
            assert_eq!(p.data, [9u8; 30]);
        }
        _ => panic!("the chunk holds the straight path written to it"),
    }
    match b.get(&t) {
        NodeRef::LoudsChunk(l) => assert_eq!(l.louds_bit_string, 0b1011),
        _ => panic!("the chunk holds the louds chunk written to it"),
    }
}
