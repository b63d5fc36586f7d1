use packvault::backup::BackupRun;
use packvault::encode::tree_bytes;
use packvault::types::{BlobKind, Key, Node, NodeKind, Tree};
use packvault::useg::{UPath, USeg};

fn path_of(segs: &[&[u8]]) -> UPath {
    let v: Vec<Vec<u8>> = segs.iter().map(|s| s.to_vec()).collect();
    UPath::from_path(&v)
}

fn bare_node(name: &[u8], kind: NodeKind) -> Node {
    Node {
        name: USeg::from_segment_bytes(name),
        mode: 0,
        mtime: 0,
        atime: 0,
        ctime: 0,
        uid: 0,
        gid: 0,
        user: String::new(),
        inode: 0,
        kind,
    }
}

fn key() -> Key {
    Key { bytes: [5u8; 32] }
}

fn run_hello_backup() -> (Vec<packvault::types::IndexPackInfo>, packvault::hash::Hash) {
    let mut run = BackupRun::new(key());
    run.on_dir_open(&path_of(&[b"root"])).unwrap();
    run.on_file(&path_of(&[b"root", b"a.txt"]), &b"hello".to_vec()).unwrap();
    run.on_dir_open(&path_of(&[b"root", b"sub"])).unwrap();
    let (mid, sub_tree_id) = run.on_dir_close(&path_of(&[b"root", b"sub"])).unwrap();
    assert_eq!(sub_tree_id.bytes, *blake3::hash(&tree_bytes(&Tree { nodes: Vec::new() })).as_bytes());
    assert!(mid.is_empty(), "small trees should not force a pack out early");
    run.on_dir_close(&path_of(&[b"root"])).unwrap();
    let (packs, index_id, index_bytes) = run.finish().unwrap();
    assert_eq!(packs.len(), 2);
    assert_eq!(index_id.bytes, *blake3::hash(&index_bytes).as_bytes());
    (run.index().packs.clone(), index_id)
}

#[test]
fn hello_backup_produces_the_expected_blobs() {
    let (packs, _) = run_hello_backup();
    // one data pack, one tree pack
    assert_eq!(packs.len(), 2);
    let data_pack = &packs[0];
    let tree_pack = &packs[1];

    // the data pack holds one raw blob: the bytes of a.txt
    assert_eq!(data_pack.blobs.len(), 1);
    let hello_id = *blake3::hash(b"hello").as_bytes();
    assert_eq!(data_pack.blobs[0].id.bytes, hello_id);
    assert!(matches!(data_pack.blobs[0].kind, BlobKind::Data));
    assert_eq!(data_pack.blobs[0].length, 5);

    // the tree pack holds the empty tree for sub, then the root tree
    assert_eq!(tree_pack.blobs.len(), 2);
    let empty_tree = Tree { nodes: Vec::new() };
    let empty_tree_id = *blake3::hash(&tree_bytes(&empty_tree)).as_bytes();
    assert_eq!(tree_pack.blobs[0].id.bytes, empty_tree_id);
    assert!(matches!(tree_pack.blobs[0].kind, BlobKind::Tree));

    // the root tree holds a file node for a.txt and a dir node for sub,
    // in name order, the dir node pointing at the empty tree's hash
    let expected_root = Tree {
        nodes: vec![
            bare_node(b"a.txt", NodeKind::File {
                content: vec![packvault::hash::Hash { bytes: hello_id }],
            }),
            bare_node(b"sub", NodeKind::Dir {
                subtree: packvault::hash::Hash { bytes: empty_tree_id },
            }),
        ],
    };
    let expected_root_id = *blake3::hash(&tree_bytes(&expected_root)).as_bytes();
    assert_eq!(tree_pack.blobs[1].id.bytes, expected_root_id);
}

#[test]
fn a_second_run_reproduces_every_blob_hash() {
    let (a, _) = run_hello_backup();
    let (b, _) = run_hello_backup();
    assert_eq!(a.len(), b.len());
    for (pa, pb) in a.iter().zip(b.iter()) {
        assert_eq!(pa.blobs.len(), pb.blobs.len());
        for (ba, bb) in pa.blobs.iter().zip(pb.blobs.iter()) {
            // content addressing: blob identities agree across runs
            assert_eq!(ba.id, bb.id);
            assert_eq!(ba.offset, bb.offset);
            assert_eq!(ba.length, bb.length);
        }
    }
}

#[test]
fn out_of_order_walks_are_refused() {
    let mut run = BackupRun::new(key());
    // closing a directory that was never opened
    assert!(run.on_dir_close(&path_of(&[b"root"])).is_err());
    // a file under a directory that is not open
    assert!(run.on_file(&path_of(&[b"root", b"a"]), &b"x".to_vec()).is_err());
    // leaving a directory open fails the final check
    run.on_dir_open(&path_of(&[b"root"])).unwrap();
    assert!(run.finish().is_err());
}

#[test]
fn identical_directory_contents_share_one_tree_hash() {
    let mut run = BackupRun::new(key());
    run.on_dir_open(&path_of(&[b"top"])).unwrap();
    run.on_dir_open(&path_of(&[b"top", b"one"])).unwrap();
    run.on_file(&path_of(&[b"top", b"one", b"f"]), &b"abc".to_vec()).unwrap();
    run.on_dir_close(&path_of(&[b"top", b"one"])).unwrap();
    run.on_dir_open(&path_of(&[b"top", b"two"])).unwrap();
    run.on_file(&path_of(&[b"top", b"two", b"f"]), &b"abc".to_vec()).unwrap();
    run.on_dir_close(&path_of(&[b"top", b"two"])).unwrap();
    run.on_dir_close(&path_of(&[b"top"])).unwrap();
    run.finish().unwrap();
    let packs = run.index().packs.clone();
    // the tree pack: one/two serialize identically, so their ids agree
    let tree_pack = &packs[1];
    assert_eq!(tree_pack.blobs.len(), 3);
    assert_eq!(tree_pack.blobs[0].id, tree_pack.blobs[1].id);
}

#[test]
fn file_events_get_the_exact_refusal() {
    let mut run = BackupRun::new(key());
    run.on_dir_open(&path_of(&[b"d"])).unwrap();
    run.on_file(&path_of(&[b"d", b"twice"]), &b"a".to_vec()).unwrap();
    // the same name again is a duplicate, not an unknown path
    assert_eq!(
        run.on_file(&path_of(&[b"d", b"twice"]), &b"b".to_vec()).unwrap_err(),
        packvault::VaultError::DuplicateName
    );
    // closing twice: the second close finds the path unknown
    run.on_dir_close(&path_of(&[b"d"])).unwrap();
    assert_eq!(
        run.on_dir_close(&path_of(&[b"d"])).unwrap_err(),
        packvault::VaultError::UnknownPath
    );
}
