use czkawka::brass::{Brass, BrassError, Segment, SegmentIter};

fn segment(bytes: &[u8]) -> Segment {
    Segment::load(bytes.to_vec(), bytes.len()).unwrap()
}

#[test]
fn test_leaf_iterator_empty() {
    let segment = segment(&[b'\0', b'\n', 0, 0, 0]);
    match segment.iter() {
        SegmentIter::Leaf(mut iter) => {
            assert!(iter.next().is_none());
        }
        _ => {
            panic!()
        }
    }
}

#[test]
fn test_leaf_iterator_one_value() {
    let segment = segment(b"\0AB\0CD\0\n");
    let seg_iter = segment.iter();
    match seg_iter {
        SegmentIter::Leaf(mut iter) => {
            let item = iter.next().unwrap();
            assert_eq!((item.key, item.value, item.index), (&b"AB"[..], &b"CD"[..], 0));
            assert!(iter.next().is_none());
        }
        _ => {
            panic!()
        }
    }
}

#[test]
fn test_leaf_iterator_no_tombstone() {
    let segment = segment(b"\0AB\0CD\0");
    match segment.iter() {
        SegmentIter::Leaf(mut iter) => {
            let item = iter.next().unwrap();
            assert_eq!((item.key, item.value, item.index), (&b"AB"[..], &b"CD"[..], 0));
            assert!(iter.next().is_none());
        }
        _ => {
            panic!()
        }
    }
}

#[test]
fn a_new_store_is_an_empty_leaf() {
    let brass = Brass::create("brass", 8).unwrap();
    let root = brass.root();
    assert_eq!(root, vec![0, b'\n', 0, 0, 0, 0, 0, 0]);
    let segment = Segment::load(root, 8).unwrap();
    assert_eq!(brass.read(&segment, "any"), None);
    assert_eq!(segment.buf(), &[b'\n', 0, 0, 0, 0, 0, 0]);
    assert!(Segment::load(vec![0, 1], 3).is_none());
    assert!(Segment::load(vec![], 0).is_none());
    assert_eq!(Brass::create("brass", 1).unwrap().root(), vec![0, b'\n']);
    assert_eq!(BrassError::IO, BrassError::IO);
}

#[test]
fn write_puts_the_record_behind_the_others() {
    let brass = Brass::create("brass", 32).unwrap();
    let mut root = Segment::load(brass.root(), 32).unwrap();
    assert_eq!(brass.write(&mut root, "AB", "CD"), Some(4));
    // The key, a zero byte, the value, the byte that was there, a zero byte, the end mark.
    assert_eq!(&root.bytes()[..10], b"\0AB\0CD\0\0\n\0");
    assert_eq!(brass.read(&root, "AB"), Some("CD".to_string()));
    assert_eq!(brass.read(&root, "CD"), None);
}

#[test]
fn try_insert_says_when_the_record_does_not_go_in() {
    // No end mark.
    let mut full = segment(b"\0AB\0CD\0");
    assert!(!full.try_insert("E", "F"));
    assert_eq!(full.bytes(), &b"\0AB\0CD\0".to_vec());

    // The record and what is written behind it must fit: 1 + 1 + 4 bytes here.
    let mut small = segment(&[0, b'\n', 0, 0, 0, 0]);
    assert!(!small.try_insert("k", "v"));
    let mut fits = segment(&[0, b'\n', 0, 0, 0, 0, 0]);
    assert!(fits.try_insert("k", "v"));
    assert_eq!(fits.bytes(), &b"\0k\0v\0\0\n".to_vec());

    // A record with a greater key stands in the way.
    let mut leaf = segment(b"\0M\0v\0\n\0\0\0\0\0\0\0\0\0\0");
    assert!(!leaf.try_insert("A", "v"));
    assert!(leaf.try_insert("Z", "v"));
    assert_eq!(&leaf.bytes()[..11], b"\0M\0v\0Z\0v\0\0\n");
}

#[test]
fn a_node_has_no_records() {
    let node = segment(&[1, b'A', 0, b'B', 0]);
    assert!(matches!(node.iter(), SegmentIter::Node(_)));
}
