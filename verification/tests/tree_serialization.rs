use pathmap::tree_serialization::{read_node_record, write_node_record};
use pathmap::utils::byte_mask_from_iter;

#[test]
fn node_record_roundtrip() {
    let mut buf = vec![9u8, 9, 9];
    let mask = byte_mask_from_iter(&[1, 77, 200]);
    let ws = [100u64, 0x0102_0304, u64::MAX];
    let l = write_node_record(&mut buf, b"jump", mask, &ws);
    assert_eq!(l, 8 + 4 + 32 + 24);
    assert_eq!(buf.len(), 3 + l);
    assert_eq!(&buf[3..11], &[4, 0, 0, 0, 0, 0, 0, 0]);
    assert_eq!(&buf[11..15], b"jump");
    let (jump, m, children) = read_node_record(&buf, 3).unwrap();
    assert_eq!(jump, b"jump".to_vec());
    assert_eq!(m, mask);
    assert_eq!(children, ws.to_vec());
}

#[test]
fn node_record_truncated() {
    let mut buf = Vec::new();
    let mask = byte_mask_from_iter(&[5]);
    write_node_record(&mut buf, b"", mask, &[42]);
    assert!(read_node_record(&buf, 0).is_some());
    assert!(read_node_record(&buf[..buf.len() - 1], 0).is_none());
    assert!(read_node_record(&buf, 1).is_none());
    assert!(read_node_record(&buf, buf.len() + 5).is_none());
}
