use pathmap::experimental::FullZipper;
use pathmap::overlay::find_prefix_overlap;
use pathmap::track_path::TrackPath;
use pathmap::zipper::{Zipper, ZipperAbsolutePath, ZipperMoving, ZipperPath};

#[test]
fn full_zipper_moves() {
    let mut z = FullZipper::new();
    assert!(z.at_root());
    assert!(z.descend_to(b"ab"));
    assert_eq!(z.path(), b"ab");
    assert_eq!(z.child_count(), 256);
    assert_eq!(z.to_next_sibling_byte(), Some(b'c'));
    assert_eq!(z.path(), b"ac");
    assert_eq!(z.to_prev_sibling_byte(), Some(b'b'));
    assert!(z.ascend_byte());
    assert_eq!(z.path(), b"a");
    assert_eq!(z.descend_indexed_byte(5), Some(5));
    assert_eq!(z.descend_indexed_byte(256), None);
    assert_eq!(z.ascend(10), Err(8));
    assert!(z.at_root());
    assert_eq!(z.val_count(), usize::MAX / 2);
}

#[test]
fn track_path_records_moves() {
    let mut t = TrackPath::with_origin(FullZipper::new(), b"root/");
    assert!(t.descend_to(b"xy"));
    assert_eq!(t.path(), b"xy");
    assert_eq!(t.origin_path(), b"root/xy");
    assert_eq!(t.root_prefix_path(), b"root/");
    assert!(t.ascend_byte());
    assert_eq!(t.path(), b"x");
    t.reset();
    assert!(t.at_root());
    assert_eq!(t.origin_path(), b"root/");
}

#[test]
fn prefix_overlap_lengths() {
    assert_eq!(find_prefix_overlap(b"abcd", b"abxy"), 2);
    assert_eq!(find_prefix_overlap(b"", b"abc"), 0);
    assert_eq!(find_prefix_overlap(b"same", b"same"), 4);
    assert_eq!(find_prefix_overlap(b"ab", b"abc"), 2);
}

#[test]
fn ascend_undoes_descend() {
    let mut z = FullZipper::new();
    assert!(z.descend_to(b"pq"));
    let before = z.path().to_vec();
    assert!(z.descend_to(b"xyz"));
    assert_eq!(z.ascend(3), Ok(()));
    assert_eq!(z.path(), &before[..]);
    assert!(z.descend_to_byte(7));
    assert!(z.ascend_byte());
    assert_eq!(z.path(), &before[..]);

    let mut t = TrackPath::new(FullZipper::new());
    assert!(t.descend_to(b"ab"));
    assert!(t.descend_to_byte(b'c'));
    assert!(t.ascend_byte());
    assert_eq!(t.path(), b"ab");
}
