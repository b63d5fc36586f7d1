use packvault::encode::{index_bytes, tree_bytes, push_bytes_enc, push_i64_le};
use packvault::hash::{hash_eq, hex_bytes};
use packvault::pack::{push_u32_le, push_u64_le};
use packvault::types::{BlobKind, Index, IndexBlobInfo, IndexPackInfo, Node, NodeKind, Tree};
use packvault::useg::USeg;

#[test]
fn little_endian_words_have_exact_bytes() {
    let mut out = Vec::new();
    push_u32_le(&mut out, 0x0403_0201);
    assert_eq!(out, vec![1, 2, 3, 4]);
    out.clear();
    push_u64_le(&mut out, 0x0807_0605_0403_0201);
    assert_eq!(out, vec![1, 2, 3, 4, 5, 6, 7, 8]);
    out.clear();
    push_i64_le(&mut out, -1);
    assert_eq!(out, vec![0xFF; 8]);
    out.clear();
    push_bytes_enc(&mut out, b"ab");
    assert_eq!(out, vec![2, 0, 0, 0, 0, 0, 0, 0, b'a', b'b']);
}

#[test]
fn empty_tree_encodes_to_a_zero_count() {
    let t = Tree { nodes: Vec::new() };
    assert_eq!(tree_bytes(&t), vec![0u8; 8]);
}

#[test]
fn tree_bytes_are_deterministic_and_content_sensitive() {
    let node = Node {
        name: USeg::from_segment_bytes(b"f"),
        mode: 0o644,
        mtime: 10,
        atime: 20,
        ctime: 30,
        uid: 1,
        gid: 2,
        user: "me".to_string(),
        inode: 9,
        kind: NodeKind::File { content: vec![packvault::hash::Hash { bytes: [7; 32] }] },
    };
    let t1 = Tree { nodes: vec![node.clone()] };
    let t2 = Tree { nodes: vec![node.clone()] };
    assert_eq!(tree_bytes(&t1), tree_bytes(&t2));
    let mut other = node.clone();
    other.mtime = 11;
    let t3 = Tree { nodes: vec![other] };
    assert_ne!(tree_bytes(&t1), tree_bytes(&t3));
}

#[test]
fn index_bytes_cover_supersedes_and_packs() {
    let idx = Index {
        supersedes: vec![packvault::hash::Hash { bytes: [1; 32] }],
        packs: vec![IndexPackInfo {
            id: packvault::hash::Hash { bytes: [2; 32] },
            blobs: vec![IndexBlobInfo {
                id: packvault::hash::Hash { bytes: [3; 32] },
                kind: BlobKind::DataZstd3,
                offset: 0,
                length: 40,
                length_uncompressed: Some(100),
            }],
        }],
    };
    let bytes = index_bytes(&idx);
    // supersedes count, one hash, pack count, pack id, blob count, blob record
    assert_eq!(bytes.len(), 8 + 32 + 8 + 32 + 8 + (32 + 1 + 8 + 8 + 1 + 8));
    assert_eq!(&bytes[..8], &[1, 0, 0, 0, 0, 0, 0, 0]);
    assert_eq!(&bytes[8..40], &[1u8; 32]);
    let empty = Index { supersedes: Vec::new(), packs: Vec::new() };
    assert_eq!(index_bytes(&empty), vec![0u8; 16]);
}

#[test]
fn hex_rendering_matches_the_reference() {
    let h = packvault::hash::Hash { bytes: *blake3::hash(b"abc").as_bytes() };
    assert_eq!(h.to_hex(), hex::encode(h.bytes));
    assert_eq!(hex_bytes(&[0x00, 0xFF, 0x1a]), b"00ff1a".to_vec());
}

#[test]
fn hash_equality_is_bytewise() {
    let a = packvault::hash::Hash { bytes: [9; 32] };
    let mut b = a;
    assert!(hash_eq(&a, &b));
    b.bytes[31] ^= 1;
    assert!(!hash_eq(&a, &b));
}
