use packvault::useg::{UPath, USeg, bytes_eq, bytes_lt, clone_bytes, upath_lt};

fn path_of(segs: &[&[u8]]) -> UPath {
    let v: Vec<Vec<u8>> = segs.iter().map(|s| s.to_vec()).collect();
    UPath::from_path(&v)
}

#[test]
fn path_round_trip_non_text_bytes() {
    let p = path_of(&[b"root", &[0xff, 0xfe, 0x00], b"a.txt"]);
    assert_eq!(p.num_segments(), 3);
    assert_eq!(p.last_segment().as_slice(), b"a.txt");
    assert_eq!(p.segment(1).as_slice(), &[0xff, 0xfe, 0x00]);
}

#[test]
fn parent_drops_last_segment() {
    let p = path_of(&[b"root", b"sub", b"file"]);
    let q = p.parent();
    assert_eq!(q.num_segments(), 2);
    assert_eq!(q.last_segment().as_slice(), b"sub");
    let r = q.parent();
    assert_eq!(r.num_segments(), 1);
    assert_eq!(r.last_segment().as_slice(), b"root");
}

#[test]
fn segment_from_bytes_is_exact() {
    let s = USeg::from_segment_bytes(&[1, 2, 3]);
    assert_eq!(s.as_bytes().as_slice(), &[1, 2, 3]);
}

#[test]
fn byte_order_is_lexicographic() {
    assert!(bytes_lt(&b"abc".to_vec(), &b"abd".to_vec()));
    assert!(bytes_lt(&b"ab".to_vec(), &b"abc".to_vec()));
    assert!(!bytes_lt(&b"abc".to_vec(), &b"abc".to_vec()));
    assert!(!bytes_lt(&b"b".to_vec(), &b"abc".to_vec()));
    assert!(bytes_eq(&b"abc".to_vec(), &b"abc".to_vec()));
    assert!(!bytes_eq(&b"abc".to_vec(), &b"abd".to_vec()));
    assert!(!bytes_eq(&b"ab".to_vec(), &b"abc".to_vec()));
}

#[test]
fn clone_bytes_copies() {
    let v = vec![9u8, 8, 7];
    assert_eq!(clone_bytes(&v), v);
}

#[test]
fn path_order_is_segmentwise_lexicographic() {
    let a = path_of(&[b"root", b"a"]);
    let b = path_of(&[b"root", b"b"]);
    let root = path_of(&[b"root"]);
    assert!(upath_lt(&a, &b));
    assert!(!upath_lt(&b, &a));
    assert!(!upath_lt(&a, &a));
    // a proper prefix sorts before its extensions
    assert!(upath_lt(&root, &a));
    assert!(!upath_lt(&a, &root));
    // segment boundaries matter: ["ab"] vs ["a", "b"]
    let joined = path_of(&[b"ab"]);
    let split_path = path_of(&[b"a", b"b"]);
    assert!(upath_lt(&split_path, &joined));
}
