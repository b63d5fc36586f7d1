use vstd::prelude::*;
use crate::pack::{u32_le, u64_le, push_u32_le, push_u64_le};
use crate::types::{Index, IndexBlobInfo, IndexPackInfo, Node, NodeKind, Tree};
use crate::useg::UPath;

verus! {

/// The little-endian bytes of a signed 64-bit value, two's complement.
pub open spec fn i64_le(v: i64) -> Seq<u8> {
    u64_le(v as u64)
}

pub fn push_i64_le(out: &mut Vec<u8>, v: i64)
    ensures
        final(out)@ == old(out)@ + i64_le(v),
{
    push_u64_le(out, #[verifier::truncate] (v as u64));
}

/// A length-prefixed byte string.
pub open spec fn bytes_enc(b: Seq<u8>) -> Seq<u8> {
    u64_le(b.len() as u64) + b
}

pub fn push_bytes_enc(out: &mut Vec<u8>, b: &[u8])
    ensures
        final(out)@ == old(out)@ + bytes_enc(b@),
{
    push_u64_le(out, b.len() as u64);
    crate::append_bytes(out, b);
    proof {
        assert(out@ =~= old(out)@ + bytes_enc(b@));
    }
}

/// A path: its segment count, then each segment length-prefixed.
pub open spec fn segs_enc(segs: Seq<Seq<u8>>) -> Seq<u8>
    decreases segs.len(),
{
    if segs.len() == 0 {
        Seq::empty()
    } else {
        bytes_enc(segs[0]) + segs_enc(segs.subrange(1, segs.len() as int))
    }
}

pub open spec fn path_enc(segs: Seq<Seq<u8>>) -> Seq<u8> {
    u64_le(segs.len() as u64) + segs_enc(segs)
}

proof fn lemma_segs_enc_snoc(segs: Seq<Seq<u8>>, s: Seq<u8>)
    ensures
        segs_enc(segs + seq![s]) == segs_enc(segs) + bytes_enc(s),
    decreases segs.len(),
{
    let w = segs + seq![s];
    if segs.len() == 0 {
        assert(w =~= seq![s]);
        assert(w.subrange(1, 1).len() == 0);
        assert(segs_enc(w) == bytes_enc(s) + segs_enc(w.subrange(1, 1)));
        assert(bytes_enc(s) + Seq::<u8>::empty() =~= bytes_enc(s));
        assert(Seq::<u8>::empty() + bytes_enc(s) =~= bytes_enc(s));
    } else {
        let t = segs.subrange(1, segs.len() as int);
        lemma_segs_enc_snoc(t, s);
        assert(w.subrange(1, w.len() as int) =~= t + seq![s]);
        assert(w[0] == segs[0]);
        assert(bytes_enc(segs[0]) + (segs_enc(t) + bytes_enc(s))
            =~= (bytes_enc(segs[0]) + segs_enc(t)) + bytes_enc(s));
    }
}

pub fn push_path_enc(out: &mut Vec<u8>, p: &UPath)
    ensures
        final(out)@ == old(out)@ + path_enc(p@),
{
    let n = p.num_segments();
    push_u64_le(out, n as u64);
    let mut i: usize = 0;
    proof {
        assert(p@.subrange(0, 0).len() == 0);
        assert(out@ =~= old(out)@ + u64_le(p@.len() as u64) + segs_enc(p@.subrange(0, 0)));
    }
    while i < n
        invariant
            n == p@.len(),
            i <= n,
            out@ == old(out)@ + u64_le(p@.len() as u64) + segs_enc(p@.subrange(0, i as int)),
        decreases n - i,
    {
        push_bytes_enc(out, p.segment(i).as_slice());
        proof {
            assert(p@.subrange(0, i + 1) =~= p@.subrange(0, i as int) + seq![p@[i as int]]);
            lemma_segs_enc_snoc(p@.subrange(0, i as int), p@[i as int]);
            assert(out@ =~= old(out)@ + u64_le(p@.len() as u64) + segs_enc(p@.subrange(0, i + 1)));
        }
        i += 1;
    }
    proof {
        assert(p@.subrange(0, n as int) =~= p@);
        assert(out@ =~= old(out)@ + path_enc(p@));
    }
}

/// A list of digests, back to back.
pub open spec fn hashes_enc(hs: Seq<crate::hash::Hash>) -> Seq<u8>
    decreases hs.len(),
{
    if hs.len() == 0 {
        Seq::empty()
    } else {
        hs[0]@ + hashes_enc(hs.subrange(1, hs.len() as int))
    }
}

proof fn lemma_hashes_enc_snoc(hs: Seq<crate::hash::Hash>, h: crate::hash::Hash)
    ensures
        hashes_enc(hs + seq![h]) == hashes_enc(hs) + h@,
    decreases hs.len(),
{
    let w = hs + seq![h];
    if hs.len() == 0 {
        assert(w =~= seq![h]);
        assert(w.subrange(1, 1).len() == 0);
        assert(hashes_enc(w) == h@ + hashes_enc(w.subrange(1, 1)));
        assert(h@ + Seq::<u8>::empty() =~= h@);
        assert(Seq::<u8>::empty() + h@ =~= h@);
    } else {
        let t = hs.subrange(1, hs.len() as int);
        lemma_hashes_enc_snoc(t, h);
        assert(w.subrange(1, w.len() as int) =~= t + seq![h]);
        assert(w[0] == hs[0]);
        assert(hs[0]@ + (hashes_enc(t) + h@) =~= (hs[0]@ + hashes_enc(t)) + h@);
    }
}

pub fn push_hashes(out: &mut Vec<u8>, hs: &Vec<crate::hash::Hash>)
    ensures
        final(out)@ == old(out)@ + u64_le(hs@.len() as u64) + hashes_enc(hs@),
{
    let n = hs.len();
    push_u64_le(out, n as u64);
    let mut i: usize = 0;
    proof {
        assert(hs@.subrange(0, 0).len() == 0);
        assert(out@ =~= old(out)@ + u64_le(hs@.len() as u64) + hashes_enc(hs@.subrange(0, 0)));
    }
    while i < n
        invariant
            n == hs@.len(),
            i <= n,
            out@ == old(out)@ + u64_le(hs@.len() as u64) + hashes_enc(hs@.subrange(0, i as int)),
        decreases n - i,
    {
        crate::append_bytes(out, hs[i].bytes.as_slice());
        proof {
            assert(hs@.subrange(0, i + 1) =~= hs@.subrange(0, i as int) + seq![hs@[i as int]]);
            lemma_hashes_enc_snoc(hs@.subrange(0, i as int), hs@[i as int]);
            assert(out@ =~= old(out)@ + u64_le(hs@.len() as u64)
                + hashes_enc(hs@.subrange(0, i + 1)));
        }
        i += 1;
    }
    proof {
        assert(hs@.subrange(0, n as int) =~= hs@);
    }
}

/// A node's payload: a tag byte, then the variant's fields.
pub open spec fn node_kind_enc(k: NodeKind) -> Seq<u8> {
    match k {
        NodeKind::File { content } => seq![1u8] + u64_le(content@.len() as u64) + hashes_enc(content@),
        NodeKind::Dir { subtree } => seq![2u8] + subtree@,
        NodeKind::Symlink { link_target, links } => seq![3u8] + path_enc(link_target@) + u64_le(links),
    }
}

/// One directory entry: its name, its metadata fields in a fixed order,
/// then its payload.
pub open spec fn node_enc(n: Node) -> Seq<u8> {
    bytes_enc(n.name@) + u32_le(n.mode) + i64_le(n.mtime) + i64_le(n.atime) + i64_le(n.ctime)
        + u32_le(n.uid) + u32_le(n.gid) + bytes_enc(vstd::utf8::encode_utf8(n.user@))
        + u64_le(n.inode) + node_kind_enc(n.kind)
}

pub fn push_node_enc(out: &mut Vec<u8>, n: &Node)
    ensures
        final(out)@ == old(out)@ + node_enc(*n),
{
    push_bytes_enc(out, n.name.as_bytes().as_slice());
    push_u32_le(out, n.mode);
    push_i64_le(out, n.mtime);
    push_i64_le(out, n.atime);
    push_i64_le(out, n.ctime);
    push_u32_le(out, n.uid);
    push_u32_le(out, n.gid);
    push_bytes_enc(out, n.user.as_str().as_bytes());
    push_u64_le(out, n.inode);
    match &n.kind {
        NodeKind::File { content } => {
            out.push(1);
            push_hashes(out, content);
        }
        NodeKind::Dir { subtree } => {
            out.push(2);
            crate::append_bytes(out, subtree.bytes.as_slice());
        }
        NodeKind::Symlink { link_target, links } => {
            out.push(3);
            push_path_enc(out, link_target);
            push_u64_le(out, *links);
        }
    }
    proof {
        assert(out@ =~= old(out)@ + node_enc(*n));
    }
}

/// The nodes of a tree, back to back in their sorted order.
pub open spec fn nodes_enc(ns: Seq<Node>) -> Seq<u8>
    decreases ns.len(),
{
    if ns.len() == 0 {
        Seq::empty()
    } else {
        node_enc(ns[0]) + nodes_enc(ns.subrange(1, ns.len() as int))
    }
}

proof fn lemma_nodes_enc_snoc(ns: Seq<Node>, n: Node)
    ensures
        nodes_enc(ns + seq![n]) == nodes_enc(ns) + node_enc(n),
    decreases ns.len(),
{
    let w = ns + seq![n];
    if ns.len() == 0 {
        assert(w =~= seq![n]);
        assert(w.subrange(1, 1).len() == 0);
        assert(nodes_enc(w) == node_enc(n) + nodes_enc(w.subrange(1, 1)));
        assert(node_enc(n) + Seq::<u8>::empty() =~= node_enc(n));
        assert(Seq::<u8>::empty() + node_enc(n) =~= node_enc(n));
    } else {
        let t = ns.subrange(1, ns.len() as int);
        lemma_nodes_enc_snoc(t, n);
        assert(w.subrange(1, w.len() as int) =~= t + seq![n]);
        assert(w[0] == ns[0]);
        assert(node_enc(ns[0]) + (nodes_enc(t) + node_enc(n))
            =~= (node_enc(ns[0]) + nodes_enc(t)) + node_enc(n));
    }
}

/// The deterministic serialization of a tree: its node count, then each
/// node in sorted name order. Identical directory contents give identical
/// bytes, so identical tree hashes, wherever they occur.
pub open spec fn tree_enc(t: Tree) -> Seq<u8> {
    u64_le(t.nodes@.len() as u64) + nodes_enc(t.nodes@)
}

pub fn tree_bytes(t: &Tree) -> (r: Vec<u8>)
    ensures
        r@ == tree_enc(*t),
        r@.len() >= 8,
{
    let mut out: Vec<u8> = Vec::new();
    let n = t.nodes.len();
    push_u64_le(&mut out, n as u64);
    let mut i: usize = 0;
    proof {
        assert(t.nodes@.subrange(0, 0).len() == 0);
        assert(out@ =~= u64_le(t.nodes@.len() as u64) + nodes_enc(t.nodes@.subrange(0, 0)));
    }
    while i < n
        invariant
            n == t.nodes@.len(),
            i <= n,
            out@ == u64_le(t.nodes@.len() as u64) + nodes_enc(t.nodes@.subrange(0, i as int)),
        decreases n - i,
    {
        push_node_enc(&mut out, &t.nodes[i]);
        proof {
            assert(t.nodes@.subrange(0, i + 1)
                =~= t.nodes@.subrange(0, i as int) + seq![t.nodes@[i as int]]);
            lemma_nodes_enc_snoc(t.nodes@.subrange(0, i as int), t.nodes@[i as int]);
        }
        i += 1;
    }
    proof {
        assert(t.nodes@.subrange(0, n as int) =~= t.nodes@);
    }
    out
}

/// One durable blob record: id, kind code, offset, stored length, and the
/// optional plaintext length (zero-flagged when absent).
pub open spec fn index_blob_enc(b: IndexBlobInfo) -> Seq<u8> {
    b.id@ + seq![b.kind.code_spec()] + u64_le(b.offset as u64) + u64_le(b.length as u64)
        + match b.length_uncompressed {
            Some(u) => seq![1u8] + u64_le(u as u64),
            None => seq![0u8] + u64_le(0u64),
        }
}

pub open spec fn index_blobs_enc(bs: Seq<IndexBlobInfo>) -> Seq<u8>
    decreases bs.len(),
{
    if bs.len() == 0 {
        Seq::empty()
    } else {
        index_blob_enc(bs[0]) + index_blobs_enc(bs.subrange(1, bs.len() as int))
    }
}

proof fn lemma_index_blobs_enc_snoc(bs: Seq<IndexBlobInfo>, b: IndexBlobInfo)
    ensures
        index_blobs_enc(bs + seq![b]) == index_blobs_enc(bs) + index_blob_enc(b),
    decreases bs.len(),
{
    let w = bs + seq![b];
    if bs.len() == 0 {
        assert(w =~= seq![b]);
        assert(w.subrange(1, 1).len() == 0);
        assert(index_blobs_enc(w) == index_blob_enc(b) + index_blobs_enc(w.subrange(1, 1)));
        assert(index_blob_enc(b) + Seq::<u8>::empty() =~= index_blob_enc(b));
        assert(Seq::<u8>::empty() + index_blob_enc(b) =~= index_blob_enc(b));
    } else {
        let t = bs.subrange(1, bs.len() as int);
        lemma_index_blobs_enc_snoc(t, b);
        assert(w.subrange(1, w.len() as int) =~= t + seq![b]);
        assert(w[0] == bs[0]);
        assert(index_blob_enc(bs[0]) + (index_blobs_enc(t) + index_blob_enc(b))
            =~= (index_blob_enc(bs[0]) + index_blobs_enc(t)) + index_blob_enc(b));
    }
}

fn push_index_blob(out: &mut Vec<u8>, b: &IndexBlobInfo)
    ensures
        final(out)@ == old(out)@ + index_blob_enc(*b),
{
    crate::append_bytes(out, b.id.bytes.as_slice());
    out.push(b.kind.code());
    push_u64_le(out, b.offset as u64);
    push_u64_le(out, b.length as u64);
    match b.length_uncompressed {
        Some(u) => {
            out.push(1);
            push_u64_le(out, u as u64);
        }
        None => {
            out.push(0);
            push_u64_le(out, 0);
        }
    }
    proof {
        assert(out@ =~= old(out)@ + index_blob_enc(*b));
    }
}

/// One pack's record: its id, then its blob records.
pub open spec fn index_pack_enc(p: IndexPackInfo) -> Seq<u8> {
    p.id@ + u64_le(p.blobs@.len() as u64) + index_blobs_enc(p.blobs@)
}

pub open spec fn index_packs_enc(ps: Seq<IndexPackInfo>) -> Seq<u8>
    decreases ps.len(),
{
    if ps.len() == 0 {
        Seq::empty()
    } else {
        index_pack_enc(ps[0]) + index_packs_enc(ps.subrange(1, ps.len() as int))
    }
}

proof fn lemma_index_packs_enc_snoc(ps: Seq<IndexPackInfo>, p: IndexPackInfo)
    ensures
        index_packs_enc(ps + seq![p]) == index_packs_enc(ps) + index_pack_enc(p),
    decreases ps.len(),
{
    let w = ps + seq![p];
    if ps.len() == 0 {
        assert(w =~= seq![p]);
        assert(w.subrange(1, 1).len() == 0);
        assert(index_packs_enc(w) == index_pack_enc(p) + index_packs_enc(w.subrange(1, 1)));
        assert(index_pack_enc(p) + Seq::<u8>::empty() =~= index_pack_enc(p));
        assert(Seq::<u8>::empty() + index_pack_enc(p) =~= index_pack_enc(p));
    } else {
        let t = ps.subrange(1, ps.len() as int);
        lemma_index_packs_enc_snoc(t, p);
        assert(w.subrange(1, w.len() as int) =~= t + seq![p]);
        assert(w[0] == ps[0]);
        assert(index_pack_enc(ps[0]) + (index_packs_enc(t) + index_pack_enc(p))
            =~= (index_pack_enc(ps[0]) + index_packs_enc(t)) + index_pack_enc(p));
    }
}

fn push_index_pack(out: &mut Vec<u8>, p: &IndexPackInfo)
    ensures
        final(out)@ == old(out)@ + index_pack_enc(*p),
{
    crate::append_bytes(out, p.id.bytes.as_slice());
    let n = p.blobs.len();
    push_u64_le(out, n as u64);
    let mut i: usize = 0;
    proof {
        assert(p.blobs@.subrange(0, 0).len() == 0);
        assert(out@ =~= old(out)@ + p.id@ + u64_le(p.blobs@.len() as u64)
            + index_blobs_enc(p.blobs@.subrange(0, 0)));
    }
    while i < n
        invariant
            n == p.blobs@.len(),
            i <= n,
            out@ == old(out)@ + p.id@ + u64_le(p.blobs@.len() as u64)
                + index_blobs_enc(p.blobs@.subrange(0, i as int)),
        decreases n - i,
    {
        push_index_blob(out, &p.blobs[i]);
        proof {
            assert(p.blobs@.subrange(0, i + 1)
                =~= p.blobs@.subrange(0, i as int) + seq![p.blobs@[i as int]]);
            lemma_index_blobs_enc_snoc(p.blobs@.subrange(0, i as int), p.blobs@[i as int]);
            assert(out@ =~= old(out)@ + p.id@ + u64_le(p.blobs@.len() as u64)
                + index_blobs_enc(p.blobs@.subrange(0, i + 1)));
        }
        i += 1;
    }
    proof {
        assert(p.blobs@.subrange(0, n as int) =~= p.blobs@);
        assert(out@ =~= old(out)@ + index_pack_enc(*p));
    }
}

/// The deterministic serialization of an index: the superseded index
/// hashes, then every pack record in order.
pub open spec fn index_enc(idx: Index) -> Seq<u8> {
    u64_le(idx.supersedes@.len() as u64) + hashes_enc(idx.supersedes@)
        + u64_le(idx.packs@.len() as u64) + index_packs_enc(idx.packs@)
}

pub fn index_bytes(idx: &Index) -> (r: Vec<u8>)
    ensures
        r@ == index_enc(*idx),
{
    let mut out: Vec<u8> = Vec::new();
    push_hashes(&mut out, &idx.supersedes);
    let n = idx.packs.len();
    push_u64_le(&mut out, n as u64);
    let ghost head = u64_le(idx.supersedes@.len() as u64) + hashes_enc(idx.supersedes@)
        + u64_le(idx.packs@.len() as u64);
    let mut i: usize = 0;
    proof {
        assert(idx.packs@.subrange(0, 0).len() == 0);
        assert(out@ =~= head + index_packs_enc(idx.packs@.subrange(0, 0)));
    }
    while i < n
        invariant
            n == idx.packs@.len(),
            i <= n,
            head == u64_le(idx.supersedes@.len() as u64) + hashes_enc(idx.supersedes@)
                + u64_le(idx.packs@.len() as u64),
            out@ == head + index_packs_enc(idx.packs@.subrange(0, i as int)),
        decreases n - i,
    {
        push_index_pack(&mut out, &idx.packs[i]);
        proof {
            assert(idx.packs@.subrange(0, i + 1)
                =~= idx.packs@.subrange(0, i as int) + seq![idx.packs@[i as int]]);
            lemma_index_packs_enc_snoc(idx.packs@.subrange(0, i as int), idx.packs@[i as int]);
            assert(out@ =~= head + index_packs_enc(idx.packs@.subrange(0, i + 1)));
        }
        i += 1;
    }
    proof {
        assert(idx.packs@.subrange(0, n as int) =~= idx.packs@);
        assert(out@ =~= index_enc(*idx));
    }
    out
}

} // verus!
