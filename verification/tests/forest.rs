use packvault::forest::Forest;
use packvault::types::{Node, NodeKind};
use packvault::useg::{UPath, USeg};
use packvault::VaultError;

fn path_of(segs: &[&[u8]]) -> UPath {
    let v: Vec<Vec<u8>> = segs.iter().map(|s| s.to_vec()).collect();
    UPath::from_path(&v)
}

fn file_node(name: &[u8]) -> Node {
    Node {
        name: USeg::from_segment_bytes(name),
        mode: 0o644,
        mtime: 1,
        atime: 2,
        ctime: 3,
        uid: 1000,
        gid: 1000,
        user: String::new(),
        inode: 7,
        kind: NodeKind::File { content: Vec::new() },
    }
}

#[test]
fn post_order_walk_finishes_cleanly() {
    let mut f = Forest::new();
    assert!(f.assert_finished().is_ok());
    f.open_tree(&path_of(&[b"root"])).unwrap();
    f.open_tree(&path_of(&[b"root", b"sub"])).unwrap();
    f.add_node(&path_of(&[b"root", b"sub"]), file_node(b"inner.txt")).unwrap();
    assert_eq!(f.assert_finished(), Err(VaultError::Unfinished));
    let sub = f.finish_tree(&path_of(&[b"root", b"sub"])).unwrap();
    assert_eq!(sub.nodes.len(), 1);
    f.add_node(&path_of(&[b"root"]), Node {
        kind: NodeKind::Dir { subtree: packvault::hash::Hash { bytes: [0; 32] } },
        ..file_node(b"sub")
    }).unwrap();
    assert_eq!(f.assert_finished(), Err(VaultError::Unfinished));
    let root = f.finish_tree(&path_of(&[b"root"])).unwrap();
    assert_eq!(root.nodes.len(), 1);
    assert!(f.assert_finished().is_ok());
}

#[test]
fn finishing_the_same_path_twice_is_an_error() {
    let mut f = Forest::new();
    f.open_tree(&path_of(&[b"d"])).unwrap();
    f.finish_tree(&path_of(&[b"d"])).unwrap();
    assert_eq!(f.finish_tree(&path_of(&[b"d"])).unwrap_err(), VaultError::UnknownPath);
}

#[test]
fn opening_twice_is_an_error() {
    let mut f = Forest::new();
    f.open_tree(&path_of(&[b"d"])).unwrap();
    assert_eq!(f.open_tree(&path_of(&[b"d"])), Err(VaultError::AlreadyOpen));
}

#[test]
fn opening_under_an_unknown_parent_is_an_error() {
    let mut f = Forest::new();
    assert_eq!(f.open_tree(&path_of(&[b"no", b"such"])), Err(VaultError::UnknownPath));
}

#[test]
fn adding_to_an_unknown_path_is_an_error() {
    let mut f = Forest::new();
    assert_eq!(
        f.add_node(&path_of(&[b"ghost"]), file_node(b"x")),
        Err(VaultError::UnknownPath)
    );
}

#[test]
fn adding_to_a_closed_root_branch_is_refused() {
    let mut f = Forest::new();
    // the root branch has no node set of its own
    assert_eq!(
        f.add_node(&path_of(&[]), file_node(b"x")),
        Err(VaultError::AlreadyFinalized)
    );
}

#[test]
fn duplicate_names_are_rejected() {
    let mut f = Forest::new();
    f.open_tree(&path_of(&[b"d"])).unwrap();
    f.add_node(&path_of(&[b"d"]), file_node(b"same")).unwrap();
    assert_eq!(
        f.add_node(&path_of(&[b"d"]), file_node(b"same")),
        Err(VaultError::DuplicateName)
    );
}

#[test]
fn finished_trees_come_out_sorted_by_name() {
    let mut f = Forest::new();
    f.open_tree(&path_of(&[b"d"])).unwrap();
    f.add_node(&path_of(&[b"d"]), file_node(b"zeta")).unwrap();
    f.add_node(&path_of(&[b"d"]), file_node(b"alpha")).unwrap();
    f.add_node(&path_of(&[b"d"]), file_node(b"mid")).unwrap();
    let t = f.finish_tree(&path_of(&[b"d"])).unwrap();
    let names: Vec<&[u8]> = t.nodes.iter().map(|n| n.name.as_bytes().as_slice()).collect();
    assert_eq!(names, vec![b"alpha".as_slice(), b"mid".as_slice(), b"zeta".as_slice()]);
}

#[test]
fn finishing_prunes_so_reopening_works() {
    let mut f = Forest::new();
    f.open_tree(&path_of(&[b"d"])).unwrap();
    f.finish_tree(&path_of(&[b"d"])).unwrap();
    // the segment is free again: a new snapshot of the same directory
    f.open_tree(&path_of(&[b"d"])).unwrap();
    f.finish_tree(&path_of(&[b"d"])).unwrap();
    assert!(f.assert_finished().is_ok());
}
