use vstd::prelude::*;
use crate::chunk::{ChunkerParams, cuts, cut_offset};
use crate::encode::tree_bytes;
use crate::forest::{Forest, node_added, nodes_contain_name, resolve_from, seg_absent, tree_taken};
use crate::hash::{blake3_of, hash_bytes};
use crate::pack::{Packer, split_to_data_blobs, BLOB_COMPRESSION_THRESHOLD, PACK_HEADER_MAX_ENTRIES, PACK_SIZE_MAX, PACK_SIZE_TARGET};
use crate::types::{BlobKind, Index, IndexPackInfo, Key, Node, NodeKind, PackInfoEntry, Tree};
use crate::useg::{USeg, UPath};
use crate::VaultError;

verus! {

/// One finished, immutable pack: its content hash and its bytes, ready to
/// be written under a name derived from the hash.
#[derive(Debug)]
pub struct Pack {
    pub id: crate::hash::Hash,
    pub bytes: Vec<u8>,
}

/// Drives one backup run: walk events in, finished packs and an index out.
/// Data blobs and tree blobs accumulate in separate packers; every
/// finished pack's record is appended to the run's index.
pub struct BackupRun {
    forest: Forest,
    file_packer: Packer,
    tree_packer: Packer,
    index: Index,
    key: Key,
    params: ChunkerParams,
}

/// The run's index grew by exactly the records of the packs handed out:
/// the old records stand untouched as a prefix, and each appended record
/// names the pack it describes, which is the hash of that pack's bytes.
pub open spec fn index_extended(old_packs: Seq<IndexPackInfo>, new_packs: Seq<IndexPackInfo>, out: Seq<Pack>) -> bool {
    &&& new_packs.len() == old_packs.len() + out.len()
    &&& new_packs.subrange(0, old_packs.len() as int) == old_packs
    &&& forall|i: int| 0 <= i < out.len()
        ==> (#[trigger] new_packs[old_packs.len() + i]).id == out[i].id
            && out[i].id@ == blake3_of(out[i].bytes@)
}

/// What a successful directory-close did to the forest: some open subtree
/// at `path` was finalized into the tree whose encoding hashes to `id`,
/// and — below the top level — the parent gained a directory node named
/// by the last segment, pointing at `id`.
pub open spec fn dir_closed(oc: Map<int, crate::forest::Branch>, root: int,
    mfinal: Map<int, crate::forest::Branch>, path: Seq<Seq<u8>>, id: crate::hash::Hash) -> bool {
    exists|t: Tree, mx: Map<int, crate::forest::Branch>| {
        &&& #[trigger] tree_taken(oc, mx, root, path, t)
        &&& id@ == blake3_of(crate::encode::tree_enc(t))
        &&& (path.len() == 1 ==> mfinal == mx)
        &&& (path.len() > 1 ==> (exists|nd: Node, ns2: Vec<Node>, p: int| {
            &&& #[trigger] node_added(mx, mfinal,
                resolve_from(mx, root, path.subrange(0, path.len() - 1), 0).unwrap(),
                nd, ns2, p)
            &&& nd.name@ == path.last()
            &&& nd.kind == (NodeKind::Dir { subtree: id })
        }))
    }
}

/// A directory entry with the walk's metadata left at defaults.
fn make_node(name: USeg, kind: NodeKind) -> (r: Node)
    ensures
        r.name == name,
        r.kind == kind,
{
    Node {
        name,
        mode: 0,
        mtime: 0,
        atime: 0,
        ctime: 0,
        uid: 0,
        gid: 0,
        user: String::new(),
        inode: 0,
        kind,
    }
}

impl BackupRun {
    pub closed spec fn wf(&self) -> bool {
        &&& self.forest.wf()
        &&& self.file_packer.wf()
        &&& self.tree_packer.wf()
        &&& self.params.wf()
        &&& self.file_packer.size_spec() < PACK_SIZE_TARGET + self.params.max_size
        &&& PACK_SIZE_TARGET + 2 * self.params.max_size <= PACK_SIZE_MAX
        &&& self.file_packer.entries_view().len() <= self.file_packer.size_spec()
        &&& self.tree_packer.entries_view().len() <= self.tree_packer.size_spec()
    }

    pub closed spec fn key_spec(&self) -> Seq<u8> {
        self.key@
    }

    /// The run's forest of open subtrees.
    pub closed spec fn forest_spec(&self) -> Forest {
        self.forest
    }

    /// The chunker sizing the run splits files with.
    pub closed spec fn params_spec(&self) -> ChunkerParams {
        self.params
    }

    /// The run's accumulated index.
    pub closed spec fn index_spec(&self) -> Index {
        self.index
    }

    /// The run's tree-blob packer.
    pub closed spec fn tree_packer_spec(&self) -> Packer {
        self.tree_packer
    }

    /// A file node with the path's last segment as name can be recorded:
    /// the parent directory is open and the name is free.
    pub open spec fn can_add_file(&self, path: Seq<Seq<u8>>) -> bool {
        &&& path.len() >= 1
        &&& (self.forest_spec().resolve(path.subrange(0, path.len() - 1)) matches Some(k)
            && self.forest_spec().contents().dom().contains(k)
            && (self.forest_spec().contents()[k].nodes matches Some(ns)
                && !nodes_contain_name(ns@, path.last())))
    }

    /// The error a file event gets when `can_add_file` fails.
    pub open spec fn file_refusal(&self, path: Seq<Seq<u8>>) -> VaultError {
        if path.len() == 0 {
            VaultError::UnknownPath
        } else {
            let parent = path.subrange(0, path.len() - 1);
            if self.forest_spec().resolve(parent) is None {
                VaultError::UnknownPath
            } else if self.forest_spec().contents().dom().contains(
                    self.forest_spec().resolve(parent).unwrap())
                && self.forest_spec().contents()[
                    self.forest_spec().resolve(parent).unwrap()].nodes is None {
                VaultError::AlreadyFinalized
            } else {
                VaultError::DuplicateName
            }
        }
    }

    /// The error a directory-close event gets when `can_close_dir` fails:
    /// a path that still resolves was already finalized; one that does not
    /// resolve is unknown (closed twice, or never opened).
    pub open spec fn close_refusal(&self, path: Seq<Seq<u8>>) -> VaultError {
        if path.len() >= 1 && (self.forest_spec().resolve(path) matches Some(k)
            && self.forest_spec().contents().dom().contains(k)) {
            VaultError::AlreadyFinalized
        } else {
            VaultError::UnknownPath
        }
    }

    /// The subtree at `path` is open and can be finalized.
    pub open spec fn can_close_dir(&self, path: Seq<Seq<u8>>) -> bool {
        &&& path.len() >= 1
        &&& (self.forest_spec().resolve(path) matches Some(k)
            && self.forest_spec().contents().dom().contains(k)
            && self.forest_spec().contents()[k].nodes is Some)
    }

    pub fn new(key: Key) -> (r: BackupRun)
        ensures
            r.wf(),
            r.key_spec() == key@,
    {
        BackupRun {
            forest: Forest::new(),
            file_packer: Packer::new(),
            tree_packer: Packer::new(),
            index: Index { supersedes: Vec::new(), packs: Vec::new() },
            key,
            params: ChunkerParams::standard(),
        }
    }

    /// Handles a directory-open event: opens the path's subtree in the
    /// forest. Fails when the walk is out of order (parent not open) or
    /// the directory was opened twice.
    pub fn on_dir_open(&mut self, path: &UPath) -> (r: Result<(), VaultError>)
        requires
            old(self).wf(),
        ensures
            final(self).wf(),
            final(self).key_spec() == old(self).key_spec(),
            r is Ok <==> (path@.len() >= 1
                && (resolve_from(old(self).forest_spec().contents(), old(self).forest_spec().root(),
                    path@.subrange(0, path@.len() - 1), 0) matches Some(pk)
                    && old(self).forest_spec().contents().dom().contains(pk)
                    && seg_absent(old(self).forest_spec().contents()[pk].children@, path@.last()))),
            final(self).index_spec() == old(self).index_spec(),
            r matches Err(e) ==> final(self).forest_spec() == old(self).forest_spec()
                && (e == VaultError::UnknownPath || e == VaultError::AlreadyOpen),
            r is Ok ==> !final(self).forest_spec().all_finished(),
            r is Ok ==> (exists|pk: int, nk: int, p2: crate::forest::Branch, nb: crate::forest::Branch|
                {
                    &&& resolve_from(old(self).forest_spec().contents(), old(self).forest_spec().root(),
                        path@.subrange(0, path@.len() - 1), 0) == Some(pk)
                    &&& !old(self).forest_spec().contents().dom().contains(nk)
                    &&& nk != pk
                    &&& #[trigger] final(self).forest_spec().contents()
                        == old(self).forest_spec().contents().insert(nk, nb).insert(pk, p2)
                    &&& (nb.nodes matches Some(v) && v@.len() == 0)
                    &&& nb.children@.len() == 0
                    &&& p2.nodes == old(self).forest_spec().contents()[pk].nodes
                    &&& p2.children@.len()
                        == old(self).forest_spec().contents()[pk].children@.len() + 1
                    &&& p2.children@.subrange(0, p2.children@.len() - 1)
                        == old(self).forest_spec().contents()[pk].children@
                    &&& p2.children@.last().0@ == path@.last()
                    &&& p2.children@.last().1 == nk
                }),
    {
        self.forest.open_tree(path)
    }

    /// Handles a file event: chunks the bytes, assigns each chunk its
    /// content identity and stored form, stages the blobs in the data
    /// packer (finalizing a pack whenever the soft target is reached), and
    /// records a file node under the path's parent whose content is the
    /// chunk hash list, in stream order.
    pub fn on_file(&mut self, path: &UPath, data: &Vec<u8>) -> (r: Result<Vec<Pack>, VaultError>)
        requires
            old(self).wf(),
        ensures
            final(self).wf(),
            final(self).key_spec() == old(self).key_spec(),
            r is Ok ==> path@.len() >= 1,
            r matches Err(e) ==> (e == VaultError::UnknownPath
                || e == VaultError::AlreadyFinalized || e == VaultError::DuplicateName
                || e == VaultError::Random),
            old(self).can_add_file(path@) ==> (r matches Err(e) ==> e == VaultError::Random),
            !old(self).can_add_file(path@) ==> (r matches Err(e)
                && e == old(self).file_refusal(path@)
                && final(self).forest_spec() == old(self).forest_spec()
                && final(self).index_spec() == old(self).index_spec()),
            final(self).index_spec().supersedes@ == old(self).index_spec().supersedes@,
            final(self).index_spec().packs@.len() >= old(self).index_spec().packs@.len(),
            final(self).index_spec().packs@.subrange(0, old(self).index_spec().packs@.len() as int)
                == old(self).index_spec().packs@,
            r matches Ok(out) ==> index_extended(
                old(self).index_spec().packs@, final(self).index_spec().packs@, out@),
            r is Ok ==> exists|nd: Node, ns2: Vec<Node>, p: int| {
                let c = cuts(data@, old(self).params_spec().min_size as int,
                    old(self).params_spec().max_size as int, old(self).params_spec().mask);
                &&& #[trigger] node_added(
                    old(self).forest_spec().contents(), final(self).forest_spec().contents(),
                    old(self).forest_spec().resolve(path@.subrange(0, path@.len() - 1)).unwrap(),
                    nd, ns2, p)
                &&& nd.name@ == path@.last()
                &&& (nd.kind matches NodeKind::File { content }
                    && content@.len() == c.len()
                    && forall|j: int| 0 <= j < c.len() ==> (#[trigger] content@[j])@
                        == crate::hash::blake3_of(
                            data@.subrange(cut_offset(c, j), cut_offset(c, j) + c[j])))
            },
    {
        let nsegs = path.num_segments();
        if nsegs == 0 {
            return Err(VaultError::UnknownPath);
        }
        let parent = path.parent();
        proof {
            assert(parent@ =~= path@.subrange(0, path@.len() - 1));
        }
        match self.forest.can_insert(&parent, path.last_segment()) {
            Ok(()) => {}
            Err(e) => {
                proof {
                    let f = old(self).forest_spec();
                    let par = path@.subrange(0, path@.len() - 1);
                    assert(parent@ == par);
                    if f.resolve(par) is None {
                        assert(e == VaultError::UnknownPath);
                        assert(old(self).file_refusal(path@) == VaultError::UnknownPath);
                    } else if f.contents().dom().contains(f.resolve(par).unwrap())
                        && f.contents()[f.resolve(par).unwrap()].nodes is None {
                        assert(e == VaultError::AlreadyFinalized);
                        assert(old(self).file_refusal(path@) == VaultError::AlreadyFinalized);
                    } else {
                        assert(e == VaultError::DuplicateName);
                        assert(old(self).file_refusal(path@) == VaultError::DuplicateName);
                    }
                }
                return Err(e);
            }
        }
        proof {
            assert(path@.last() == path@[path@.len() - 1]);
            assert(old(self).can_add_file(path@));
        }
        let ghost c = cuts(data@, self.params.min_size as int,
            self.params.max_size as int, self.params.mask);
        proof {
            crate::chunk::lemma_cuts_sizes(data@, self.params.min_size as int,
                self.params.max_size as int, self.params.mask);
        }
        let blobs = split_to_data_blobs(
            data.as_slice(), &self.params, BLOB_COMPRESSION_THRESHOLD);
        proof {
            crate::chunk::lemma_partial_sums(c);
            assert forall|j: int| 0 <= j < blobs@.len()
                implies (#[trigger] blobs@[j]).0.stored_len() <= self.params.max_size by {
                let piece = data@.subrange(cut_offset(c, j), cut_offset(c, j) + c[j]);
                assert(crate::pack::data_blob_ok(piece, blobs@[j].0, blobs@[j].1@,
                    BLOB_COMPRESSION_THRESHOLD as int));
                assert(piece.len() == c[j]);
            }
        }
        let mut packs: Vec<Pack> = Vec::new();
        let mut content: Vec<crate::hash::Hash> = Vec::new();
        let n = blobs.len();
        let mut i: usize = 0;
        while i < n
            invariant
                self.wf(),
                self.key_spec() == old(self).key_spec(),
                self.forest == old(self).forest,
                self.params == old(self).params,
                c == cuts(data@, self.params.min_size as int,
                    self.params.max_size as int, self.params.mask),
                old(self).can_add_file(path@),
                path@.len() >= 1,
                n == blobs@.len(),
                n == c.len(),
                i <= n,
                forall|j: int| 0 <= j < n ==> (#[trigger] blobs@[j]).0.wf()
                    && blobs@[j].1@.len() == blobs@[j].0.stored_len(),
                forall|j: int| 0 <= j < n ==> (#[trigger] blobs@[j]).0.stored_len() >= 1,
                forall|j: int| 0 <= j < n
                    ==> (#[trigger] blobs@[j]).0.stored_len() <= self.params.max_size,
                forall|j: int| 0 <= j < n ==> (#[trigger] blobs@[j]).0.id@
                    == crate::hash::blake3_of(
                        data@.subrange(cut_offset(c, j), cut_offset(c, j) + c[j])),
                content@.len() == i,
                forall|j: int| 0 <= j < i ==> #[trigger] content@[j] == blobs@[j].0.id,
                self.index.supersedes@ == old(self).index_spec().supersedes@,
                self.index.packs@.len()
                    == old(self).index_spec().packs@.len() + packs@.len(),
                self.index.packs@.subrange(0, old(self).index_spec().packs@.len() as int)
                    == old(self).index_spec().packs@,
                forall|j: int| 0 <= j < packs@.len()
                    ==> (#[trigger] self.index.packs@[
                            old(self).index_spec().packs@.len() + j]).id == packs@[j].id
                        && packs@[j].id@ == blake3_of(packs@[j].bytes@),
            decreases n - i,
        {
            if self.file_packer.should_pack() {
                match self.file_packer.finish(&self.key) {
                    Ok((info, bytes)) => {
                        let ghost old_ix = self.index.packs@;
                        packs.push(Pack { id: info.id, bytes });
                        self.index.packs.push(info);
                        proof {
                            assert(self.index.packs@.subrange(
                                0, old(self).index_spec().packs@.len() as int)
                                =~= old(self).index_spec().packs@);
                        }
                    }
                    Err(e) => {
                        proof {
                            assert(self.file_packer.entries_view().len()
                                <= PACK_HEADER_MAX_ENTRIES);
                        }
                        return Err(e);
                    }
                }
            }
            let (entry, stored) = &blobs[i];
            content.push(entry.id);
            match self.file_packer.add_blob(*entry, stored.as_slice()) {
                Ok(()) => {}
                Err(_) => {
                    proof {
                        assert(false);
                    }
                    return Err(VaultError::Capacity);
                }
            }
            i += 1;
        }
        let name = USeg::from_segment_bytes(path.last_segment().as_slice());
        let node = make_node(name, NodeKind::File { content });
        let ghost nodev = node;
        let parent = path.parent();
        proof {
            assert(parent@ =~= path@.subrange(0, path@.len() - 1));
        }
        match self.forest.add_node(&parent, node) {
            Ok(()) => {
                proof {
                    let m0 = old(self).forest_spec().contents();
                    let mf = self.forest_spec().contents();
                    let rk = old(self).forest_spec().resolve(path@.subrange(0, path@.len() - 1)).unwrap();
                    let (ns2w, pw) = choose|ns2: Vec<Node>, p: int|
                        node_added(m0, mf, rk, nodev, ns2, p);
                    assert(node_added(m0, mf, rk, nodev, ns2w, pw));
                    assert(nodev.kind matches NodeKind::File { content: cv }
                        && cv@.len() == c.len()
                        && forall|j: int| 0 <= j < c.len() ==> (#[trigger] cv@[j])@
                            == crate::hash::blake3_of(
                                data@.subrange(cut_offset(c, j), cut_offset(c, j) + c[j])));
                }
                Ok(packs)
            }
            Err(e) => {
                proof {
                    assert(false);
                }
                Err(e)
            }
        }
    }

    /// Handles a directory-close event: finalizes the path's subtree into
    /// a tree blob (hashed over its deterministic serialization, stored
    /// raw), stages it in the tree packer, and — below the top level —
    /// records a directory node under the parent pointing at the tree's
    /// hash, which is also returned. Requires post-order closing: the
    /// subtree's children must already be closed.
    pub fn on_dir_close(&mut self, path: &UPath) -> (r: Result<(Vec<Pack>, crate::hash::Hash), VaultError>)
        requires
            old(self).wf(),
        ensures
            final(self).wf(),
            final(self).key_spec() == old(self).key_spec(),
            r is Ok ==> path@.len() >= 1
                && (old(self).forest_spec().resolve(path@) matches Some(k)
                    && old(self).forest_spec().contents().dom().contains(k)
                    && old(self).forest_spec().contents()[k].nodes is Some),
            r matches Ok(out) ==> exists|t: Tree| {
                &&& t.wf()
                &&& out.1@ == #[trigger] blake3_of(crate::encode::tree_enc(t))
                &&& (old(self).forest_spec().resolve(path@) matches Some(k)
                    && (old(self).forest_spec().contents()[k].nodes matches Some(ns)
                        && t.nodes@ == ns@))
            },
            !old(self).can_close_dir(path@) ==> (r matches Err(e)
                && e == old(self).close_refusal(path@)
                && final(self).forest_spec() == old(self).forest_spec()
                && final(self).index_spec() == old(self).index_spec()),
            r matches Err(e) ==> (e == VaultError::UnknownPath
                || e == VaultError::AlreadyFinalized || e == VaultError::DuplicateName
                || e == VaultError::Capacity || e == VaultError::Random),
            final(self).index_spec().supersedes@ == old(self).index_spec().supersedes@,
            final(self).index_spec().packs@.len() >= old(self).index_spec().packs@.len(),
            final(self).index_spec().packs@.subrange(0, old(self).index_spec().packs@.len() as int)
                == old(self).index_spec().packs@,
            r matches Ok(out) ==> out.0@.len() <= 1
                && index_extended(old(self).index_spec().packs@,
                    final(self).index_spec().packs@, out.0@),
            r matches Ok(out) ==> (out.0@.len() == 0
                ==> final(self).tree_packer_spec().entries_view().len() >= 1
                    && final(self).tree_packer_spec().entries_view().last().kind == BlobKind::Tree
                    && final(self).tree_packer_spec().entries_view().last().id == out.1),
            r matches Ok(out) ==> (out.0@.len() == 1
                ==> final(self).index_spec().packs@.last().blobs@.len() >= 1
                    && final(self).index_spec().packs@.last().blobs@.last().kind == BlobKind::Tree
                    && final(self).index_spec().packs@.last().blobs@.last().id == out.1),
            r matches Ok(out) ==> dir_closed(old(self).forest_spec().contents(),
                old(self).forest_spec().root(), final(self).forest_spec().contents(),
                path@, out.1),
    {
        let nsegs = path.num_segments();
        if nsegs == 0 {
            return Err(VaultError::UnknownPath);
        }
        let tree = match self.forest.finish_tree(path) {
            Ok(t) => t,
            Err(e) => {
                return Err(e);
            }
        };
        let ghost tv = tree;
        let ghost m1 = self.forest.contents();
        let bytes = tree_bytes(&tree);
        let id = hash_bytes(bytes.as_slice());
        let entry = PackInfoEntry {
            id,
            kind: BlobKind::Tree,
            size_uncompressed: bytes.len(),
            size_compressed: None,
        };
        let mut packs: Vec<Pack> = Vec::new();
        let ghost entry_v = entry;
        match self.tree_packer.add_blob(entry, bytes.as_slice()) {
            Ok(()) => {}
            Err(e) => {
                return Err(e);
            }
        }
        proof {
            assert(self.tree_packer.entries_view().last() == entry_v);
        }
        if self.tree_packer.should_pack() {
            match self.tree_packer.finish(&self.key) {
                Ok((info, pb)) => {
                    packs.push(Pack { id: info.id, bytes: pb });
                    self.index.packs.push(info);
                    proof {
                        assert(self.index.packs@.subrange(
                            0, old(self).index_spec().packs@.len() as int)
                            =~= old(self).index_spec().packs@);
                        assert(self.index.packs@.last() == info);
                        let es = info.blobs@;
                        assert(es.len() >= 1);
                        assert(es.last().id == entry_v.id && es.last().kind == entry_v.kind);
                    }
                }
                Err(e) => {
                    return Err(e);
                }
            }
        }
        if nsegs > 1 {
            let name = USeg::from_segment_bytes(path.last_segment().as_slice());
            let node = make_node(name, NodeKind::Dir { subtree: id });
            let ghost nodev = node;
            let parent = path.parent();
            proof {
                assert(parent@ =~= path@.subrange(0, path@.len() - 1));
            }
            match self.forest.add_node(&parent, node) {
                Ok(()) => {
                    proof {
                        let mf = self.forest.contents();
                        let rk = resolve_from(m1, old(self).forest_spec().root(),
                            path@.subrange(0, path@.len() - 1), 0).unwrap();
                        let (ns2w, pw) = choose|ns2: Vec<Node>, p: int|
                            node_added(m1, mf, rk, nodev, ns2, p);
                        assert(exists|nd: Node, ns2: Vec<Node>, p: int| {
                            &&& #[trigger] node_added(m1, mf, rk, nd, ns2, p)
                            &&& nd.name@ == path@.last()
                            &&& nd.kind == (NodeKind::Dir { subtree: id })
                        }) by {
                            assert(node_added(m1, mf, rk, nodev, ns2w, pw)
                                && nodev.name@ == path@.last()
                                && nodev.kind == (NodeKind::Dir { subtree: id }));
                        }
                    }
                }
                Err(e) => {
                    return Err(e);
                }
            }
        }
        proof {
            let t = tree;
            assert(t.wf() && id@ == blake3_of(crate::encode::tree_enc(t))
                && (old(self).forest_spec().resolve(path@) matches Some(k)
                    && (old(self).forest_spec().contents()[k].nodes matches Some(ns)
                        && t.nodes@ == ns@)));
            let old_packs = old(self).index_spec().packs@;
            if packs@.len() == 0 {
                assert(self.index.packs@.subrange(0, old_packs.len() as int) =~= old_packs);
                assert(index_extended(old_packs, self.index.packs@, packs@));
            } else {
                assert(packs@.len() == 1);
                assert(self.index.packs@.len() == old_packs.len() + 1);
                assert(self.index.packs@[old_packs.len() as int].id == packs@[0].id);
                assert(index_extended(old_packs, self.index.packs@, packs@));
            }
            let oc = old(self).forest_spec().contents();
            let root = old(self).forest_spec().root();
            assert(dir_closed(oc, root, self.forest.contents(), path@, id)) by {
                assert(tree_taken(oc, m1, root, path@, tv));
                assert(id@ == blake3_of(crate::encode::tree_enc(tv)));
                if nsegs == 1 {
                    assert(self.forest.contents() == m1);
                }
                assert({
                    &&& tree_taken(oc, m1, root, path@, tv)
                    &&& id@ == blake3_of(crate::encode::tree_enc(tv))
                    &&& (path@.len() == 1 ==> self.forest.contents() == m1)
                    &&& (path@.len() > 1 ==> (exists|nd: Node, ns2: Vec<Node>, p: int| {
                        &&& #[trigger] node_added(m1, self.forest.contents(),
                            resolve_from(m1, root, path@.subrange(0, path@.len() - 1), 0).unwrap(),
                            nd, ns2, p)
                        &&& nd.name@ == path@.last()
                        &&& nd.kind == (NodeKind::Dir { subtree: id })
                    }))
                });
            }
        }
        Ok((packs, id))
    }

    /// Ends the run: flushes both packers — appending their two pack
    /// records, data then tree, to the index — checks that every opened
    /// subtree was finalized, and serializes the index, whose own content
    /// hash names it. Fails with the unfinished error exactly when some
    /// opened subtree is still open, and otherwise only for want of
    /// randomness; the forest itself is left as it was.
    pub fn finish(&mut self) -> (r: Result<(Vec<Pack>, crate::hash::Hash, Vec<u8>), VaultError>)
        requires
            old(self).wf(),
        ensures
            final(self).wf(),
            final(self).forest_spec() == old(self).forest_spec(),
            r matches Ok(out) ==> out.1@ == blake3_of(out.2@),
            r is Ok ==> final(self).forest_spec().all_finished(),
            r matches Err(e) ==> (e == VaultError::Random
                || (e == VaultError::Unfinished && !old(self).forest_spec().all_finished())),
            old(self).forest_spec().all_finished()
                ==> (r matches Err(e) ==> e == VaultError::Random),
            final(self).index_spec().supersedes@ == old(self).index_spec().supersedes@,
            final(self).index_spec().packs@.len() >= old(self).index_spec().packs@.len(),
            final(self).index_spec().packs@.subrange(0, old(self).index_spec().packs@.len() as int)
                == old(self).index_spec().packs@,
            r matches Ok(out) ==> out.0@.len() == 2
                && index_extended(old(self).index_spec().packs@,
                    final(self).index_spec().packs@, out.0@)
                && out.2@ == crate::encode::index_enc(final(self).index_spec()),
    {
        let mut packs: Vec<Pack> = Vec::new();
        proof {
            assert(self.file_packer.entries_view().len() <= PACK_HEADER_MAX_ENTRIES);
        }
        match self.file_packer.finish(&self.key) {
            Ok((info, bytes)) => {
                packs.push(Pack { id: info.id, bytes });
                self.index.packs.push(info);
                proof {
                    assert(self.index.packs@.subrange(
                        0, old(self).index_spec().packs@.len() as int)
                        =~= old(self).index_spec().packs@);
                }
            }
            Err(e) => {
                return Err(e);
            }
        }
        proof {
            self.tree_packer.lemma_body_partition();
            assert(self.tree_packer.entries_view().len() <= PACK_HEADER_MAX_ENTRIES);
        }
        match self.tree_packer.finish(&self.key) {
            Ok((info, bytes)) => {
                packs.push(Pack { id: info.id, bytes });
                self.index.packs.push(info);
                proof {
                    assert(self.index.packs@.subrange(
                        0, old(self).index_spec().packs@.len() as int)
                        =~= old(self).index_spec().packs@);
                }
            }
            Err(e) => {
                return Err(e);
            }
        }
        match self.forest.assert_finished() {
            Ok(()) => {}
            Err(e) => {
                return Err(e);
            }
        }
        let bytes = crate::encode::index_bytes(&self.index);
        let id = hash_bytes(bytes.as_slice());
        proof {
            let old_packs = old(self).index_spec().packs@;
            assert(packs@.len() == 2);
            assert(self.index.packs@.len() == old_packs.len() + 2);
            assert(self.index.packs@[old_packs.len() as int].id == packs@[0].id);
            assert(self.index.packs@[old_packs.len() as int + 1].id == packs@[1].id);
            assert(index_extended(old_packs, self.index.packs@, packs@));
        }
        Ok((packs, id, bytes))
    }

    /// The index accumulated so far.
    pub fn index(&self) -> (r: &Index)
        ensures
            *r == self.index_spec(),
    {
        &self.index
    }
}

} // verus!
