use vstd::prelude::*;
use crate::types::{Node, Tree};
use crate::useg::{USeg, UPath, bytes_eq, bytes_lt, lex_lt};
use crate::VaultError;

verus! {

/// One arena slot: a directory's gathered nodes (present while the
/// directory is open, taken exactly once at finalize) and its mapping from
/// child segment to child arena key.
pub struct Branch {
    pub nodes: Option<Vec<Node>>,
    pub children: Vec<(USeg, usize)>,
}

#[verifier::external_type_specification]
#[verifier::external_body]
#[verifier::reject_recursive_types(T)]
pub struct ExSlab<T>(slab::Slab<T>);

/// What the arena holds: the branch stored under each occupied key.
pub uninterp spec fn slab_contents(s: slab::Slab<Branch>) -> Map<int, Branch>;

/// Relies on slab::Slab::new: a fresh arena holds nothing.
#[verifier::external_body]
fn slab_new() -> (r: slab::Slab<Branch>)
    ensures
        slab_contents(r).dom() == Set::<int>::empty(),
{
    slab::Slab::new()
}

/// Relies on slab::Slab::insert: the value lands under a vacant key, which
/// is returned.
#[verifier::external_body]
fn slab_insert(s: &mut slab::Slab<Branch>, b: Branch) -> (k: usize)
    ensures
        !slab_contents(*old(s)).dom().contains(k as int),
        slab_contents(*final(s)) == slab_contents(*old(s)).insert(k as int, b),
{
    s.insert(b)
}

/// Relies on slab::Slab::get: the branch under an occupied key, nothing
/// under a vacant one.
#[verifier::external_body]
fn slab_get<'a>(s: &'a slab::Slab<Branch>, k: usize) -> (r: Option<&'a Branch>)
    ensures
        r is Some <==> slab_contents(*s).dom().contains(k as int),
        r matches Some(b) ==> *b == slab_contents(*s)[k as int],
{
    s.get(k)
}

/// Relies on slab::Slab::get_mut and core::mem::replace: swaps the branch
/// under an occupied key for the given one and hands the old one out.
#[verifier::external_body]
fn slab_replace(s: &mut slab::Slab<Branch>, k: usize, b: Branch) -> (r: Branch)
    requires
        slab_contents(*old(s)).dom().contains(k as int),
    ensures
        r == slab_contents(*old(s))[k as int],
        slab_contents(*final(s)) == slab_contents(*old(s)).insert(k as int, b),
{
    core::mem::replace(s.get_mut(k).unwrap(), b)
}

/// Relies on slab::Slab::iter: it visits every occupied key once.
#[verifier::external_body]
fn slab_keys(s: &slab::Slab<Branch>) -> (r: Vec<usize>)
    ensures
        r@.map_values(|u: usize| u as int).to_set() == slab_contents(*s).dom(),
{
    s.iter().map(|pair: (usize, &Branch)| pair.0).collect()
}

/// The key mapped to the given segment, by the first matching entry.
pub open spec fn child_of(ch: Seq<(USeg, usize)>, seg: Seq<u8>) -> Option<usize>
    decreases ch.len(),
{
    if ch.len() == 0 {
        None
    } else if ch[0].0@ == seg {
        Some(ch[0].1)
    } else {
        child_of(ch.subrange(1, ch.len() as int), seg)
    }
}

proof fn lemma_child_of_unfold(ch: Seq<(USeg, usize)>, seg: Seq<u8>, j: int)
    requires
        0 <= j < ch.len(),
    ensures
        ch[j].0@ != seg ==> child_of(ch.subrange(j, ch.len() as int), seg)
            == child_of(ch.subrange(j + 1, ch.len() as int), seg),
        ch[j].0@ == seg ==> child_of(ch.subrange(j, ch.len() as int), seg) == Some(ch[j].1),
{
    let s = ch.subrange(j, ch.len() as int);
    assert(s[0] == ch[j]);
    assert(s.subrange(1, s.len() as int) =~= ch.subrange(j + 1, ch.len() as int));
}

/// Finds the arena key mapped to a segment in a branch's child list.
fn find_child(b: &Branch, seg: &Vec<u8>) -> (r: Option<usize>)
    ensures
        r == child_of(b.children@, seg@),
{
    let n = b.children.len();
    let mut j: usize = 0;
    proof {
        assert(b.children@.subrange(0, n as int) =~= b.children@);
    }
    while j < n
        invariant
            n == b.children@.len(),
            j <= n,
            child_of(b.children@, seg@)
                == child_of(b.children@.subrange(j as int, n as int), seg@),
        decreases n - j,
    {
        proof {
            lemma_child_of_unfold(b.children@, seg@, j as int);
        }
        if bytes_eq(b.children[j].0.as_bytes(), seg) {
            return Some(b.children[j].1);
        }
        j += 1;
    }
    None
}

proof fn lemma_child_of_in_list(ch: Seq<(USeg, usize)>, seg: Seq<u8>)
    requires
        child_of(ch, seg) is Some,
    ensures
        exists|j: int| 0 <= j < ch.len()
            && (#[trigger] ch[j]).1 == child_of(ch, seg).unwrap() && ch[j].0@ == seg,
    decreases ch.len(),
{
    if ch.len() > 0 {
        if ch[0].0@ == seg {
            assert(ch[0].1 == child_of(ch, seg).unwrap() && ch[0].0@ == seg);
        } else {
            let t = ch.subrange(1, ch.len() as int);
            lemma_child_of_in_list(t, seg);
            let j = choose|j: int| 0 <= j < t.len()
                && (#[trigger] t[j]).1 == child_of(t, seg).unwrap() && t[j].0@ == seg;
            assert(ch[j + 1] == t[j]);
        }
    }
}

/// Where the walk from `key` along `segs[i..]` lands in the arena.
pub open spec fn resolve_from(m: Map<int, Branch>, key: int, segs: Seq<Seq<u8>>, i: int) -> Option<int>
    decreases segs.len() - i,
{
    if i < 0 || i >= segs.len() {
        Some(key)
    } else if !m.dom().contains(key) {
        None
    } else {
        match child_of(m[key].children@, segs[i]) {
            None => None,
            Some(k) => resolve_from(m, k as int, segs, i + 1),
        }
    }
}

/// The branch at `k` gained exactly `node`, spliced into its sorted node
/// list at position `p`; nothing else changed.
pub open spec fn node_added(m0: Map<int, Branch>, mf: Map<int, Branch>, k: int, node: Node, ns2: Vec<Node>, p: int) -> bool {
    &&& mf == m0.insert(k, (Branch { nodes: Some(ns2), children: m0[k].children }))
    &&& (m0[k].nodes matches Some(ns)
        && 0 <= p <= ns@.len()
        && ns2@ == ns@.subrange(0, p) + seq![node] + ns@.subrange(p, ns@.len() as int))
}

/// The subtree at `segs` was finalized: its branch closed (node set
/// taken, yielding `t`), its mapping removed from its parent, and nothing
/// else changed.
pub open spec fn tree_taken(m0: Map<int, Branch>, mf: Map<int, Branch>, root: int, segs: Seq<Seq<u8>>, t: Tree) -> bool {
    exists|pk: int, k: int, p2: Branch, b2: Branch| {
        &&& segs.len() >= 1
        &&& resolve_from(m0, root, segs.subrange(0, segs.len() - 1), 0) == Some(pk)
        &&& resolve_from(m0, root, segs, 0) == Some(k)
        &&& (m0[k].nodes matches Some(ns) && t.nodes@ == ns@)
        &&& mf == #[trigger] m0.insert(k, b2).insert(pk, p2)
        &&& b2.nodes is None
        &&& b2.children == m0[k].children
        &&& p2.nodes == m0[pk].nodes
        &&& p2.children@.len() == m0[pk].children@.len() - 1
        &&& seg_absent(p2.children@, segs.last())
    }
}

/// Node names strictly increase: sorted and free of duplicates.
pub open spec fn sorted_nodes(ns: Seq<Node>) -> bool {
    forall|i: int, j: int| 0 <= i < j < ns.len() ==> lex_lt(ns[i].name@, ns[j].name@)
}

/// No entry of a child list maps the given segment.
pub open spec fn seg_absent(ch: Seq<(USeg, usize)>, seg: Seq<u8>) -> bool {
    forall|i: int| 0 <= i < ch.len() ==> (#[trigger] ch[i]).0@ != seg
}

/// The set of currently-open (not yet finalized) directory subtrees, as a
/// trie keyed by path segment, stored in an arena.
pub struct Forest {
    branches: slab::Slab<Branch>,
    root_key: usize,
}

impl Forest {
    /// The arena's occupied keys and their branches.
    pub closed spec fn contents(&self) -> Map<int, Branch> {
        slab_contents(self.branches)
    }

    pub closed spec fn root(&self) -> int {
        self.root_key as int
    }

    /// The arena key the given path resolves to, walking from the root.
    pub open spec fn resolve(&self, segs: Seq<Seq<u8>>) -> Option<int> {
        resolve_from(self.contents(), self.root(), segs, 0)
    }

    /// Every branch's child list is empty: every opened subtree was
    /// finalized.
    pub open spec fn all_finished(&self) -> bool {
        forall|k: int| self.contents().dom().contains(k)
            ==> (#[trigger] self.contents()[k]).children@.len() == 0
    }

    /// The forest's invariant: the root key is occupied, every child edge
    /// leads to an occupied key, no child list maps a segment twice, and
    /// every open branch's nodes are sorted by name.
    pub closed spec fn wf(&self) -> bool {
        &&& self.contents().dom().contains(self.root())
        &&& forall|k: int, j: int| self.contents().dom().contains(k)
                && 0 <= j < self.contents()[k].children@.len()
            ==> self.contents().dom().contains(
                    (#[trigger] self.contents()[k].children@[j]).1 as int)
                && (self.contents()[k].children@[j]).1 as int != k
        &&& forall|k: int, i: int, j: int| self.contents().dom().contains(k)
                && 0 <= i < j < self.contents()[k].children@.len()
            ==> (#[trigger] self.contents()[k].children@[i]).0@
                != (#[trigger] self.contents()[k].children@[j]).0@
        &&& forall|k: int| self.contents().dom().contains(k)
            ==> match (#[trigger] self.contents()[k]).nodes {
                    Some(ns) => sorted_nodes(ns@),
                    None => true,
                }
    }

    /// A fresh forest: one root branch, closed (no node set) and childless.
    pub fn new() -> (r: Forest)
        ensures
            r.wf(),
            r.all_finished(),
            r.contents().dom() =~= set![r.root()],
            r.contents()[r.root()].nodes is None,
            r.contents()[r.root()].children@.len() == 0,
    {
        let mut branches = slab_new();
        let root = Branch { nodes: None, children: Vec::new() };
        let root_key = slab_insert(&mut branches, root);
        Forest { branches, root_key }
    }

    /// Walks the first `upto` segments of `path` from the root and returns
    /// the arena key there; unknown-path exactly when the walk dead-ends.
    fn resolve_to(&self, path: &UPath, upto: usize) -> (r: Result<usize, VaultError>)
        requires
            self.wf(),
            upto <= path@.len(),
        ensures
            r matches Ok(k) ==> resolve_from(self.contents(), self.root(),
                path@.subrange(0, upto as int), 0) == Some(k as int)
                && self.contents().dom().contains(k as int),
            r matches Err(e) ==> e == VaultError::UnknownPath
                && resolve_from(self.contents(), self.root(),
                    path@.subrange(0, upto as int), 0) is None,
    {
        let ghost m = self.contents();
        let ghost pre = path@.subrange(0, upto as int);
        let mut key = self.root_key;
        let mut i: usize = 0;
        while i < upto
            invariant
                self.wf(),
                m == self.contents(),
                pre == path@.subrange(0, upto as int),
                upto <= path@.len(),
                i <= upto,
                m.dom().contains(key as int),
                resolve_from(m, self.root(), pre, 0) == resolve_from(m, key as int, pre, i as int),
            decreases upto - i,
        {
            let b = match slab_get(&self.branches, key) {
                Some(b) => b,
                None => {
                    return Err(VaultError::UnknownPath);
                }
            };
            proof {
                assert(pre[i as int] == path@[i as int]);
            }
            match find_child(b, path.segment(i)) {
                Some(k) => {
                    proof {
                        assert(resolve_from(m, key as int, pre, i as int)
                            == resolve_from(m, k as int, pre, i + 1));
                        lemma_child_of_in_list(m[key as int].children@, pre[i as int]);
                    }
                    key = k;
                }
                None => {
                    proof {
                        assert(resolve_from(m, key as int, pre, i as int) is None);
                    }
                    return Err(VaultError::UnknownPath);
                }
            }
            i += 1;
        }
        proof {
            assert(resolve_from(m, key as int, pre, upto as int) == Some(key as int));
        }
        Ok(key)
    }

    /// Opens a subtree at `path`: creates a fresh open branch there and
    /// maps it from its parent. Refused when the parent is not open in the
    /// trie or the segment is already mapped; nothing changes then.
    pub fn open_tree(&mut self, path: &UPath) -> (r: Result<(), VaultError>)
        requires
            old(self).wf(),
        ensures
            final(self).wf(),
            r is Ok <==> (path@.len() >= 1
                && (resolve_from(old(self).contents(), old(self).root(),
                    path@.subrange(0, path@.len() - 1), 0) matches Some(pk)
                    && old(self).contents().dom().contains(pk)
                    && seg_absent(old(self).contents()[pk].children@, path@.last()))),
            r matches Err(e) ==> *final(self) == *old(self)
                && (e == VaultError::UnknownPath || e == VaultError::AlreadyOpen),
            r is Ok ==> !final(self).all_finished(),
            r is Ok ==> final(self).root() == old(self).root()
                && (exists|pk: int, nk: int, p2: Branch, nb: Branch|
                    {
                        &&& resolve_from(old(self).contents(), old(self).root(),
                            path@.subrange(0, path@.len() - 1), 0) == Some(pk)
                        &&& !old(self).contents().dom().contains(nk)
                        &&& nk != pk
                        &&& #[trigger] final(self).contents()
                            == old(self).contents().insert(nk, nb).insert(pk, p2)
                        &&& (nb.nodes matches Some(v) && v@.len() == 0)
                        &&& nb.children@.len() == 0
                        &&& p2.nodes == old(self).contents()[pk].nodes
                        &&& p2.children@.len() == old(self).contents()[pk].children@.len() + 1
                        &&& p2.children@.subrange(0, p2.children@.len() - 1)
                            == old(self).contents()[pk].children@
                        &&& p2.children@.last().0@ == path@.last()
                        &&& p2.children@.last().1 == nk
                    }),
    {
        let nsegs = path.num_segments();
        if nsegs == 0 {
            return Err(VaultError::UnknownPath);
        }
        let pk = match self.resolve_to(path, nsegs - 1) {
            Ok(k) => k,
            Err(e) => {
                return Err(e);
            }
        };
        let last = path.segment(nsegs - 1);
        proof {
            assert(path@.last() == path@[path@.len() - 1]);
        }
        let pb = match slab_get(&self.branches, pk) {
            Some(b) => b,
            None => {
                return Err(VaultError::UnknownPath);
            }
        };
        match find_child(pb, last) {
            Some(_) => {
                proof {
                    lemma_child_of_found(self.contents()[pk as int].children@, path@.last());
                }
                return Err(VaultError::AlreadyOpen);
            }
            None => {
                proof {
                    lemma_child_of_absent(self.contents()[pk as int].children@, path@.last());
                }
            }
        }
        let ghost m0 = self.contents();
        let nb = Branch { nodes: Some(Vec::new()), children: Vec::new() };
        let ghost nbv = nb;
        let nk = slab_insert(&mut self.branches, nb);
        let mut p2 = slab_replace(&mut self.branches, pk, closed_branch());
        let seg = USeg::from_segment_bytes(path.segment(nsegs - 1).as_slice());
        p2.children.push((seg, nk));
        let ghost p2v = p2;
        let _ = slab_replace(&mut self.branches, pk, p2);
        proof {
            let mf = self.contents();
            assert(mf =~= m0.insert(nk as int, nbv).insert(pk as int, p2v));
            assert(p2v.children@.subrange(0, p2v.children@.len() - 1) =~= m0[pk as int].children@);
            lemma_open_preserves_wf(m0, pk as int, nk as int, p2v, nbv, self.root());
            assert(self.contents().dom().contains(pk as int));
            assert(self.contents()[pk as int].children@.len() > 0);
            assert(!self.all_finished());
        }
        Ok(())
    }

    /// Reports whether a node with the given name could be inserted into
    /// the subtree at `path` right now, without changing anything; the
    /// error is the one a matching `add_node` would give.
    pub fn can_insert(&self, path: &UPath, name: &Vec<u8>) -> (r: Result<(), VaultError>)
        requires
            self.wf(),
        ensures
            r is Ok <==> (self.resolve(path@) matches Some(k)
                && self.contents().dom().contains(k)
                && (self.contents()[k].nodes matches Some(ns)
                    && !nodes_contain_name(ns@, name@))),
            r matches Err(e) ==> (if self.resolve(path@) is None {
                e == VaultError::UnknownPath
            } else if self.contents().dom().contains(self.resolve(path@).unwrap())
                && self.contents()[self.resolve(path@).unwrap()].nodes is None {
                e == VaultError::AlreadyFinalized
            } else {
                e == VaultError::DuplicateName
            }),
    {
        let nsegs = path.num_segments();
        let k = match self.resolve_to(path, nsegs) {
            Ok(k) => k,
            Err(e) => {
                proof {
                    assert(path@.subrange(0, path@.len() as int) =~= path@);
                }
                return Err(e);
            }
        };
        proof {
            assert(path@.subrange(0, path@.len() as int) =~= path@);
        }
        let b = match slab_get(&self.branches, k) {
            Some(b) => b,
            None => {
                return Err(VaultError::UnknownPath);
            }
        };
        match &b.nodes {
            Some(ns) => {
                if contains_name(ns, name) {
                    Err(VaultError::DuplicateName)
                } else {
                    Ok(())
                }
            }
            None => Err(VaultError::AlreadyFinalized),
        }
    }

    /// Inserts one directory entry into the open subtree at `path`, keeping
    /// the branch's nodes sorted by name. Refused when the path does not
    /// resolve, its node set was already taken, or the name is taken;
    /// nothing changes then.
    pub fn add_node(&mut self, path: &UPath, node: Node) -> (r: Result<(), VaultError>)
        requires
            old(self).wf(),
        ensures
            final(self).wf(),
            r is Ok <==> (old(self).resolve(path@) matches Some(k)
                && old(self).contents().dom().contains(k)
                && (old(self).contents()[k].nodes matches Some(ns)
                    && !nodes_contain_name(ns@, node.name@))),
            r matches Err(e) ==> final(self).contents() == old(self).contents()
                && final(self).root() == old(self).root()
                && (e == VaultError::UnknownPath || e == VaultError::AlreadyFinalized
                    || e == VaultError::DuplicateName),
            r is Ok ==> final(self).root() == old(self).root()
                && old(self).resolve(path@) is Some
                && (exists|ns2: Vec<Node>, p: int| #[trigger] node_added(
                    old(self).contents(), final(self).contents(),
                    old(self).resolve(path@).unwrap(), node, ns2, p)),
    {
        let nsegs = path.num_segments();
        let k = match self.resolve_to(path, nsegs) {
            Ok(k) => k,
            Err(e) => {
                proof {
                    assert(path@.subrange(0, path@.len() as int) =~= path@);
                }
                return Err(e);
            }
        };
        proof {
            assert(path@.subrange(0, path@.len() as int) =~= path@);
        }
        let ghost m0 = self.contents();
        let b = slab_replace(&mut self.branches, k, closed_branch());
        let Branch { nodes, children } = b;
        let ns = match nodes {
            Some(ns) => ns,
            None => {
                let _ = slab_replace(&mut self.branches, k, Branch { nodes: None, children });
                proof {
                    assert(self.contents() =~= m0);
                }
                return Err(VaultError::AlreadyFinalized);
            }
        };
        match insert_sorted(ns, node) {
            Ok(ns2) => {
                let ghost ns2v = ns2;
                let ghost p_w = choose|p: int| 0 <= p <= m0[k as int].nodes.unwrap()@.len()
                    && ns2v@ == m0[k as int].nodes.unwrap()@.subrange(0, p) + seq![node]
                        + m0[k as int].nodes.unwrap()@.subrange(p, m0[k as int].nodes.unwrap()@.len() as int);
                let _ = slab_replace(&mut self.branches, k, Branch { nodes: Some(ns2), children });
                proof {
                    let mf = self.contents();
                    assert(mf =~= m0.insert(k as int, (Branch {
                        nodes: Some(ns2v),
                        children: m0[k as int].children,
                    })));
                    lemma_update_preserves_wf(m0, k as int, (Branch {
                        nodes: Some(ns2v),
                        children: m0[k as int].children,
                    }), self.root());
                    assert(node_added(m0, mf, k as int, node, ns2v, p_w));
                }
                Ok(())
            }
            Err((ns, e)) => {
                let _ = slab_replace(&mut self.branches, k, Branch { nodes: Some(ns), children });
                proof {
                    assert(self.contents() =~= m0);
                }
                Err(e)
            }
        }
    }

    /// Takes the open subtree at `path` out of the forest: unmaps it from
    /// its parent (pruning the trie) and hands its node set over as a tree,
    /// sorted by name. Refused — with nothing changed — when the path does
    /// not resolve to a mapped, still-open branch; finalizing a path twice
    /// fails this way, since the first call unmapped it.
    pub fn finish_tree(&mut self, path: &UPath) -> (r: Result<Tree, VaultError>)
        requires
            old(self).wf(),
        ensures
            final(self).wf(),
            r is Ok <==> (path@.len() >= 1
                && (old(self).resolve(path@) matches Some(k)
                    && old(self).contents().dom().contains(k)
                    && old(self).contents()[k].nodes is Some)),
            r matches Err(e) ==> *final(self) == *old(self)
                && (if path@.len() >= 1
                    && (old(self).resolve(path@) matches Some(k)
                        && old(self).contents().dom().contains(k)) {
                    e == VaultError::AlreadyFinalized
                } else {
                    e == VaultError::UnknownPath
                }),
            r matches Ok(t) ==> tree_taken(old(self).contents(), final(self).contents(),
                old(self).root(), path@, t),
            r matches Ok(t) ==> final(self).root() == old(self).root()
                && t.wf()
                && (exists|pk: int, k: int, p2: Branch, b2: Branch|
                    {
                        &&& resolve_from(old(self).contents(), old(self).root(),
                            path@.subrange(0, path@.len() - 1), 0) == Some(pk)
                        &&& old(self).resolve(path@) == Some(k)
                        &&& (old(self).contents()[k].nodes matches Some(ns) && t.nodes@ == ns@)
                        &&& #[trigger] final(self).contents()
                            == old(self).contents().insert(k, b2).insert(pk, p2)
                        &&& b2.nodes is None
                        &&& b2.children == old(self).contents()[k].children
                        &&& p2.nodes == old(self).contents()[pk].nodes
                        &&& p2.children@.len() == old(self).contents()[pk].children@.len() - 1
                        &&& seg_absent(p2.children@, path@.last())
                    }),
    {
        let nsegs = path.num_segments();
        if nsegs == 0 {
            return Err(VaultError::UnknownPath);
        }
        let pk = match self.resolve_to(path, nsegs - 1) {
            Ok(k) => k,
            Err(e) => {
                proof {
                    lemma_resolve_prefix_none(old(self).contents(), old(self).root(), path@);
                }
                return Err(e);
            }
        };
        let last = path.segment(nsegs - 1);
        proof {
            assert(path@.last() == path@[path@.len() - 1]);
        }
        let pb = match slab_get(&self.branches, pk) {
            Some(b) => b,
            None => {
                return Err(VaultError::UnknownPath);
            }
        };
        let idx = match find_child_index(pb, last) {
            Some(j) => j,
            None => {
                proof {
                    lemma_child_of_absent(self.contents()[pk as int].children@, path@.last());
                    lemma_resolve_last_step(old(self).contents(), old(self).root(), path@, pk as int);
                }
                return Err(VaultError::UnknownPath);
            }
        };
        let ghost m0 = self.contents();
        let k = pb.children[idx].1;
        proof {
            lemma_child_of_found_at(m0[pk as int].children@, path@.last(), idx as int);
            lemma_resolve_last_step(m0, old(self).root(), path@, pk as int);
            assert(old(self).resolve(path@) == Some(k as int));
        }
        proof {
            assert(k as int != pk as int);
        }
        let b = match slab_get(&self.branches, k) {
            Some(b) => b,
            None => {
                proof {
                    assert(false);
                }
                return Err(VaultError::UnknownPath);
            }
        };
        if b.nodes.is_none() {
            return Err(VaultError::AlreadyFinalized);
        }
        // unmap the child from its parent, pruning the trie
        let mut p2 = slab_replace(&mut self.branches, pk, closed_branch());
        p2.children.remove(idx);
        let ghost p2v = p2;
        let _ = slab_replace(&mut self.branches, pk, p2);
        // take the node set, leaving the branch closed
        let mut b2 = slab_replace(&mut self.branches, k, closed_branch());
        let nodes = match b2.nodes {
            Some(ns) => ns,
            None => {
                proof {
                    assert(false);
                }
                Vec::new()
            }
        };
        b2.nodes = None;
        let ghost b2v = b2;
        let _ = slab_replace(&mut self.branches, k, b2);
        proof {
            let mf = self.contents();
            assert(mf =~= m0.insert(k as int, b2v).insert(pk as int, p2v));
            assert(p2v.children@ =~= m0[pk as int].children@.subrange(0, idx as int)
                + m0[pk as int].children@.subrange(idx + 1, m0[pk as int].children@.len() as int));
            lemma_remove_child_unique(m0[pk as int].children@, path@.last(), idx as int, p2v.children@);
            lemma_finish_preserves_wf(m0, pk as int, k as int, p2v, b2v, self.root());
        }
        let t = Tree { nodes };
        proof {
            assert(tree_taken(m0, self.contents(), self.root(), path@, t));
        }
        Ok(t)
    }

    /// Succeeds exactly when no branch still maps children: every opened
    /// subtree was finalized.
    pub fn assert_finished(&self) -> (r: Result<(), VaultError>)
        requires
            self.wf(),
        ensures
            r is Ok <==> self.all_finished(),
            r matches Err(e) ==> e == VaultError::Unfinished,
    {
        let keys = slab_keys(&self.branches);
        let n = keys.len();
        let mut i: usize = 0;
        while i < n
            invariant
                self.wf(),
                n == keys@.len(),
                i <= n,
                keys@.map_values(|u: usize| u as int).to_set() == self.contents().dom(),
                forall|j: int| 0 <= j < i
                    ==> self.contents().dom().contains(keys@[j] as int)
                        && (#[trigger] self.contents()[keys@[j] as int]).children@.len() == 0,
            decreases n - i,
        {
            let k = keys[i];
            proof {
                let km = keys@.map_values(|u: usize| u as int);
                assert(km[i as int] == k as int);
                assert(km.contains(k as int));
                assert(km.to_set().contains(k as int));
            }
            let b = match slab_get(&self.branches, k) {
                Some(b) => b,
                None => {
                    proof {
                        assert(false);
                    }
                    return Err(VaultError::Unfinished);
                }
            };
            if b.children.len() > 0 {
                proof {
                    assert(!self.all_finished());
                }
                return Err(VaultError::Unfinished);
            }
            i += 1;
        }
        proof {
            assert forall|k: int| self.contents().dom().contains(k)
                implies (#[trigger] self.contents()[k]).children@.len() == 0 by {
                let km = keys@.map_values(|u: usize| u as int);
                assert(km.to_set().contains(k));
                assert(km.contains(k));
                let j = choose|j: int| 0 <= j < km.len() && km[j] == k;
                assert(keys@[j] as int == k);
            }
        }
        Ok(())
    }
}

/// A closed, childless branch, used to swap arena slots out and back.
fn closed_branch() -> (r: Branch)
    ensures
        r.nodes is None,
        r.children@.len() == 0,
{
    Branch { nodes: None, children: Vec::new() }
}

/// A sorted node list holds the given name somewhere.
pub open spec fn nodes_contain_name(ns: Seq<Node>, name: Seq<u8>) -> bool {
    exists|i: int| 0 <= i < ns.len() && (#[trigger] ns[i]).name@ == name
}

/// Whether a node list holds the given name.
fn contains_name(ns: &Vec<Node>, name: &Vec<u8>) -> (r: bool)
    ensures
        r == nodes_contain_name(ns@, name@),
{
    let n = ns.len();
    let mut i: usize = 0;
    while i < n
        invariant
            n == ns@.len(),
            i <= n,
            forall|j: int| 0 <= j < i ==> (#[trigger] ns@[j]).name@ != name@,
        decreases n - i,
    {
        if bytes_eq(ns[i].name.as_bytes(), name) {
            assert(nodes_contain_name(ns@, name@));
            return true;
        }
        i += 1;
    }
    false
}

/// Finds the position of a segment in a branch's child list.
fn find_child_index(b: &Branch, seg: &Vec<u8>) -> (r: Option<usize>)
    ensures
        r matches Some(j) ==> j < b.children@.len() && b.children@[j as int].0@ == seg@,
        r is None ==> child_of(b.children@, seg@) is None,
{
    let n = b.children.len();
    let mut j: usize = 0;
    proof {
        assert(b.children@.subrange(0, n as int) =~= b.children@);
    }
    while j < n
        invariant
            n == b.children@.len(),
            j <= n,
            child_of(b.children@, seg@)
                == child_of(b.children@.subrange(j as int, n as int), seg@),
        decreases n - j,
    {
        proof {
            lemma_child_of_unfold(b.children@, seg@, j as int);
        }
        if bytes_eq(b.children[j].0.as_bytes(), seg) {
            return Some(j);
        }
        j += 1;
    }
    None
}

proof fn lemma_child_of_absent(ch: Seq<(USeg, usize)>, seg: Seq<u8>)
    requires
        child_of(ch, seg) is None,
    ensures
        seg_absent(ch, seg),
    decreases ch.len(),
{
    if ch.len() > 0 {
        let t = ch.subrange(1, ch.len() as int);
        lemma_child_of_absent(t, seg);
        assert forall|i: int| 0 <= i < ch.len() implies (#[trigger] ch[i]).0@ != seg by {
            if i > 0 {
                assert(t[i - 1] == ch[i]);
            }
        }
    }
}

proof fn lemma_child_of_found(ch: Seq<(USeg, usize)>, seg: Seq<u8>)
    requires
        child_of(ch, seg) is Some,
    ensures
        !seg_absent(ch, seg),
    decreases ch.len(),
{
    if ch.len() > 0 {
        if ch[0].0@ == seg {
        } else {
            let t = ch.subrange(1, ch.len() as int);
            lemma_child_of_found(t, seg);
            let i = choose|i: int| 0 <= i < t.len() && (#[trigger] t[i]).0@ == seg;
            assert(ch[i + 1] == t[i]);
        }
    }
}

/// In a duplicate-free child list, the entry at a matching position is the
/// one `child_of` finds.
proof fn lemma_child_of_found_at(ch: Seq<(USeg, usize)>, seg: Seq<u8>, j: int)
    requires
        0 <= j < ch.len(),
        ch[j].0@ == seg,
        forall|a: int, b: int| 0 <= a < b < ch.len() ==> (#[trigger] ch[a]).0@ != (#[trigger] ch[b]).0@,
    ensures
        child_of(ch, seg) == Some(ch[j].1),
    decreases ch.len(),
{
    if j == 0 {
    } else {
        let t = ch.subrange(1, ch.len() as int);
        assert(ch[0].0@ != seg);
        assert(t[j - 1] == ch[j]);
        lemma_child_of_found_at(t, seg, j - 1);
    }
}

/// Removing the one entry for a segment leaves a list without it.
proof fn lemma_remove_child_unique(ch: Seq<(USeg, usize)>, seg: Seq<u8>, j: int, ch2: Seq<(USeg, usize)>)
    requires
        0 <= j < ch.len(),
        ch[j].0@ == seg,
        forall|a: int, b: int| 0 <= a < b < ch.len() ==> (#[trigger] ch[a]).0@ != (#[trigger] ch[b]).0@,
        ch2 == ch.subrange(0, j) + ch.subrange(j + 1, ch.len() as int),
    ensures
        seg_absent(ch2, seg),
        forall|a: int, b: int| 0 <= a < b < ch2.len() ==> (#[trigger] ch2[a]).0@ != (#[trigger] ch2[b]).0@,
{
    assert forall|i: int| 0 <= i < ch2.len() implies (#[trigger] ch2[i]).0@ != seg by {
        if i < j {
            assert(ch2[i] == ch[i]);
        } else {
            assert(ch2[i] == ch[i + 1]);
        }
    }
    assert forall|a: int, b: int| 0 <= a < b < ch2.len()
        implies (#[trigger] ch2[a]).0@ != (#[trigger] ch2[b]).0@ by {
        let a0 = if a < j { a } else { a + 1 };
        let b0 = if b < j { b } else { b + 1 };
        assert(ch2[a] == ch[a0]);
        assert(ch2[b] == ch[b0]);
    }
}

/// A path whose parent branch does not map its last segment cannot be
/// resolved. This is the double-finalize refusal: `finish_tree` prunes the
/// mapping and leaves the parent's list without the segment, so while the
/// parent prefix resolves to that branch, a second `finish_tree` (or any
/// other operation) on the same path dead-ends.
pub proof fn lemma_pruned_path_unresolvable(m: Map<int, Branch>, root: int, segs: Seq<Seq<u8>>, pk: int)
    requires
        segs.len() >= 1,
        resolve_from(m, root, segs.subrange(0, segs.len() - 1), 0) == Some(pk),
        m.dom().contains(pk),
        seg_absent(m[pk].children@, segs.last()),
    ensures
        resolve_from(m, root, segs, 0) is None,
{
    lemma_resolve_last_step(m, root, segs, pk);
    if child_of(m[pk].children@, segs.last()) is Some {
        lemma_child_of_found(m[pk].children@, segs.last());
    }
}

/// If a path's parent prefix cannot be resolved, the full path cannot be.
proof fn lemma_resolve_prefix_none(m: Map<int, Branch>, root: int, segs: Seq<Seq<u8>>)
    requires
        segs.len() >= 1,
        resolve_from(m, root, segs.subrange(0, segs.len() - 1), 0) is None,
    ensures
        resolve_from(m, root, segs, 0) is None,
{
    lemma_resolve_snoc(m, root, segs, 0);
}

/// Resolving a whole path equals resolving its parent prefix, then taking
/// one child step from there.
proof fn lemma_resolve_snoc(m: Map<int, Branch>, key: int, segs: Seq<Seq<u8>>, i: int)
    requires
        0 <= i <= segs.len() - 1,
    ensures
        resolve_from(m, key, segs, i) == (match resolve_from(m, key, segs.subrange(0, segs.len() - 1), i) {
            None => None::<int>,
            Some(pk) => {
                if m.dom().contains(pk) {
                    match child_of(m[pk].children@, segs.last()) {
                        None => None::<int>,
                        Some(k) => Some(k as int),
                    }
                } else {
                    None::<int>
                }
            }
        }),
    decreases segs.len() - i,
{
    let pre = segs.subrange(0, segs.len() - 1);
    if i == segs.len() - 1 {
        assert(resolve_from(m, key, pre, i) == Some(key));
        assert(segs[i] == segs.last());
    } else {
        if m.dom().contains(key) {
            assert(pre[i] == segs[i]);
            match child_of(m[key].children@, segs[i]) {
                None => {}
                Some(k) => {
                    lemma_resolve_snoc(m, k as int, segs, i + 1);
                }
            }
        }
    }
}

/// The full-path resolution in terms of the parent's key and child list.
proof fn lemma_resolve_last_step(m: Map<int, Branch>, root: int, segs: Seq<Seq<u8>>, pk: int)
    requires
        segs.len() >= 1,
        resolve_from(m, root, segs.subrange(0, segs.len() - 1), 0) == Some(pk),
        m.dom().contains(pk),
    ensures
        resolve_from(m, root, segs, 0) == (match child_of(m[pk].children@, segs.last()) {
            None => None::<int>,
            Some(k) => Some(k as int),
        }),
{
    lemma_resolve_snoc(m, root, segs, 0);
}

/// Inserting a fresh branch and extending its parent keeps the forest
/// well formed.
proof fn lemma_open_preserves_wf(m0: Map<int, Branch>, pk: int, nk: int, p2: Branch, nb: Branch, root: int)
    requires
        m0.dom().contains(root),
        m0.dom().contains(pk),
        !m0.dom().contains(nk),
        forall|k: int, j: int| m0.dom().contains(k) && 0 <= j < m0[k].children@.len()
            ==> m0.dom().contains((#[trigger] m0[k].children@[j]).1 as int)
                && (m0[k].children@[j]).1 as int != k,
        forall|k: int, i: int, j: int| m0.dom().contains(k)
                && 0 <= i < j < m0[k].children@.len()
            ==> (#[trigger] m0[k].children@[i]).0@ != (#[trigger] m0[k].children@[j]).0@,
        forall|k: int| m0.dom().contains(k)
            ==> match (#[trigger] m0[k]).nodes {
                    Some(ns) => sorted_nodes(ns@),
                    None => true,
                },
        p2.nodes == m0[pk].nodes,
        p2.children@.len() == m0[pk].children@.len() + 1,
        p2.children@.subrange(0, p2.children@.len() - 1) == m0[pk].children@,
        p2.children@.last().1 == nk,
        seg_absent(m0[pk].children@, p2.children@.last().0@),
        (nb.nodes matches Some(v) && v@.len() == 0),
        nb.children@.len() == 0,
    ensures
        ({
            let mf = m0.insert(nk, nb).insert(pk, p2);
            &&& mf.dom().contains(root)
            &&& forall|k: int, j: int| mf.dom().contains(k) && 0 <= j < mf[k].children@.len()
                ==> mf.dom().contains((#[trigger] mf[k].children@[j]).1 as int)
                    && (mf[k].children@[j]).1 as int != k
            &&& forall|k: int, i: int, j: int| mf.dom().contains(k)
                    && 0 <= i < j < mf[k].children@.len()
                ==> (#[trigger] mf[k].children@[i]).0@ != (#[trigger] mf[k].children@[j]).0@
            &&& forall|k: int| mf.dom().contains(k)
                ==> match (#[trigger] mf[k]).nodes {
                        Some(ns) => sorted_nodes(ns@),
                        None => true,
                    }
        }),
{
    let mf = m0.insert(nk, nb).insert(pk, p2);
    assert(nb.nodes matches Some(v) && sorted_nodes(v@));
    assert forall|k: int, j: int| mf.dom().contains(k) && 0 <= j < mf[k].children@.len()
        implies mf.dom().contains((#[trigger] mf[k].children@[j]).1 as int)
            && (mf[k].children@[j]).1 as int != k by {
        if k == pk {
            if j < p2.children@.len() - 1 {
                assert(p2.children@[j] == p2.children@.subrange(0, p2.children@.len() - 1)[j]);
                assert(p2.children@[j] == m0[pk].children@[j]);
            } else {
                assert(p2.children@[j] == p2.children@.last());
            }
        } else if k != nk {
            assert(mf[k] == m0[k]);
        }
    }
    assert forall|k: int, i: int, j: int| mf.dom().contains(k)
            && 0 <= i < j < mf[k].children@.len()
        implies (#[trigger] mf[k].children@[i]).0@ != (#[trigger] mf[k].children@[j]).0@ by {
        if k == pk {
            let pre = p2.children@.subrange(0, p2.children@.len() - 1);
            if j < p2.children@.len() - 1 {
                assert(p2.children@[i] == pre[i] && pre[i] == m0[pk].children@[i]);
                assert(p2.children@[j] == pre[j] && pre[j] == m0[pk].children@[j]);
            } else {
                assert(p2.children@[i] == pre[i] && pre[i] == m0[pk].children@[i]);
                assert(p2.children@[j] == p2.children@.last());
            }
        } else if k != nk {
            assert(mf[k] == m0[k]);
        }
    }
}

/// Replacing one branch's value, children untouched, keeps the forest well
/// formed as long as the new node set is sorted.
proof fn lemma_update_preserves_wf(m0: Map<int, Branch>, k0: int, b: Branch, root: int)
    requires
        m0.dom().contains(root),
        m0.dom().contains(k0),
        forall|k: int, j: int| m0.dom().contains(k) && 0 <= j < m0[k].children@.len()
            ==> m0.dom().contains((#[trigger] m0[k].children@[j]).1 as int)
                && (m0[k].children@[j]).1 as int != k,
        forall|k: int, i: int, j: int| m0.dom().contains(k)
                && 0 <= i < j < m0[k].children@.len()
            ==> (#[trigger] m0[k].children@[i]).0@ != (#[trigger] m0[k].children@[j]).0@,
        forall|k: int| m0.dom().contains(k)
            ==> match (#[trigger] m0[k]).nodes {
                    Some(ns) => sorted_nodes(ns@),
                    None => true,
                },
        b.children == m0[k0].children,
        match b.nodes {
            Some(ns) => sorted_nodes(ns@),
            None => true,
        },
    ensures
        ({
            let mf = m0.insert(k0, b);
            &&& mf.dom().contains(root)
            &&& forall|k: int, j: int| mf.dom().contains(k) && 0 <= j < mf[k].children@.len()
                ==> mf.dom().contains((#[trigger] mf[k].children@[j]).1 as int)
                    && (mf[k].children@[j]).1 as int != k
            &&& forall|k: int, i: int, j: int| mf.dom().contains(k)
                    && 0 <= i < j < mf[k].children@.len()
                ==> (#[trigger] mf[k].children@[i]).0@ != (#[trigger] mf[k].children@[j]).0@
            &&& forall|k: int| mf.dom().contains(k)
                ==> match (#[trigger] mf[k]).nodes {
                        Some(ns) => sorted_nodes(ns@),
                        None => true,
                    }
        }),
{
    let mf = m0.insert(k0, b);
    assert forall|k: int, j: int| mf.dom().contains(k) && 0 <= j < mf[k].children@.len()
        implies mf.dom().contains((#[trigger] mf[k].children@[j]).1 as int)
            && (mf[k].children@[j]).1 as int != k by {
        if k != k0 {
            assert(mf[k] == m0[k]);
        }
    }
    assert forall|k: int, i: int, j: int| mf.dom().contains(k)
            && 0 <= i < j < mf[k].children@.len()
        implies (#[trigger] mf[k].children@[i]).0@ != (#[trigger] mf[k].children@[j]).0@ by {
        if k != k0 {
            assert(mf[k] == m0[k]);
        }
    }
}

/// Unmapping one child and closing its branch keeps the forest well formed.
proof fn lemma_finish_preserves_wf(m0: Map<int, Branch>, pk: int, k0: int, p2: Branch, b2: Branch, root: int)
    requires
        m0.dom().contains(root),
        m0.dom().contains(pk),
        m0.dom().contains(k0),
        forall|k: int, j: int| m0.dom().contains(k) && 0 <= j < m0[k].children@.len()
            ==> m0.dom().contains((#[trigger] m0[k].children@[j]).1 as int)
                && (m0[k].children@[j]).1 as int != k,
        forall|k: int, i: int, j: int| m0.dom().contains(k)
                && 0 <= i < j < m0[k].children@.len()
            ==> (#[trigger] m0[k].children@[i]).0@ != (#[trigger] m0[k].children@[j]).0@,
        forall|k: int| m0.dom().contains(k)
            ==> match (#[trigger] m0[k]).nodes {
                    Some(ns) => sorted_nodes(ns@),
                    None => true,
                },
        b2.nodes is None,
        b2.children == m0[k0].children,
        p2.nodes == m0[pk].nodes,
        exists|j: int| 0 <= j < m0[pk].children@.len()
            && p2.children@ == m0[pk].children@.subrange(0, j)
                + m0[pk].children@.subrange(j + 1, m0[pk].children@.len() as int),
    ensures
        ({
            let mf = m0.insert(k0, b2).insert(pk, p2);
            &&& mf.dom().contains(root)
            &&& forall|k: int, j: int| mf.dom().contains(k) && 0 <= j < mf[k].children@.len()
                ==> mf.dom().contains((#[trigger] mf[k].children@[j]).1 as int)
                    && (mf[k].children@[j]).1 as int != k
            &&& forall|k: int, i: int, j: int| mf.dom().contains(k)
                    && 0 <= i < j < mf[k].children@.len()
                ==> (#[trigger] mf[k].children@[i]).0@ != (#[trigger] mf[k].children@[j]).0@
            &&& forall|k: int| mf.dom().contains(k)
                ==> match (#[trigger] mf[k]).nodes {
                        Some(ns) => sorted_nodes(ns@),
                        None => true,
                    }
        }),
{
    let mf = m0.insert(k0, b2).insert(pk, p2);
    let jx = choose|j: int| 0 <= j < m0[pk].children@.len()
        && p2.children@ == m0[pk].children@.subrange(0, j)
            + m0[pk].children@.subrange(j + 1, m0[pk].children@.len() as int);
    assert forall|k: int, j: int| mf.dom().contains(k) && 0 <= j < mf[k].children@.len()
        implies mf.dom().contains((#[trigger] mf[k].children@[j]).1 as int)
            && (mf[k].children@[j]).1 as int != k by {
        if k == pk {
            let j0 = if j < jx { j } else { j + 1 };
            assert(p2.children@[j] == m0[pk].children@[j0]);
        } else if k != k0 {
            assert(mf[k] == m0[k]);
        } else {
            assert(mf[k0] == if pk == k0 { p2 } else { b2 });
        }
    }
    assert forall|k: int, i: int, j: int| mf.dom().contains(k)
            && 0 <= i < j < mf[k].children@.len()
        implies (#[trigger] mf[k].children@[i]).0@ != (#[trigger] mf[k].children@[j]).0@ by {
        if k == pk {
            let i0 = if i < jx { i } else { i + 1 };
            let j0 = if j < jx { j } else { j + 1 };
            assert(p2.children@[i] == m0[pk].children@[i0]);
            assert(p2.children@[j] == m0[pk].children@[j0]);
        } else if k != k0 {
            assert(mf[k] == m0[k]);
        }
    }
}

/// Inserts a node into a name-sorted list at its sorted position; refused
/// when the name is already present, handing the list back unchanged.
fn insert_sorted(ns: Vec<Node>, node: Node) -> (r: Result<Vec<Node>, (Vec<Node>, VaultError)>)
    requires
        sorted_nodes(ns@),
    ensures
        r matches Ok(ns2) ==> !nodes_contain_name(ns@, node.name@)
            && sorted_nodes(ns2@)
            && (exists|p: int| 0 <= p <= ns@.len()
                && ns2@ == ns@.subrange(0, p) + seq![node] + ns@.subrange(p, ns@.len() as int)),
        r matches Err(pair) ==> pair.0 == ns && pair.1 == VaultError::DuplicateName
            && nodes_contain_name(ns@, node.name@),
{
    let n = ns.len();
    let mut p: usize = 0;
    while p < n
        invariant
            n == ns@.len(),
            p <= n,
            sorted_nodes(ns@),
            forall|i: int| 0 <= i < p ==> lex_lt((#[trigger] ns@[i]).name@, node.name@),
        decreases n - p,
    {
        if bytes_eq(ns[p].name.as_bytes(), node.name.as_bytes()) {
            return Err((ns, VaultError::DuplicateName));
        }
        if !bytes_lt(ns[p].name.as_bytes(), node.name.as_bytes()) {
            // names differ and ns[p] is not below: node goes here
            proof {
                lemma_lex_total(ns@[p as int].name@, node.name@);
                assert(lex_lt(node.name@, ns@[p as int].name@));
                assert forall|i: int| p <= i < ns@.len()
                    implies lex_lt(node.name@, (#[trigger] ns@[i]).name@) by {
                    if i > p {
                        lemma_lex_trans(node.name@, ns@[p as int].name@, ns@[i].name@);
                    }
                }
                assert forall|i: int| 0 <= i < ns@.len()
                    implies (#[trigger] ns@[i]).name@ != node.name@ by {
                    if i < p {
                        lemma_lex_irrefl(ns@[i].name@);
                    } else {
                        lemma_lex_irrefl(node.name@);
                    }
                }
            }
            let r = splice_in(ns, p, node);
            return Ok(r);
        }
        p += 1;
    }
    proof {
        assert forall|i: int| 0 <= i < ns@.len()
            implies (#[trigger] ns@[i]).name@ != node.name@ by {
            lemma_lex_irrefl(ns@[i].name@);
        }
    }
    let r = splice_in(ns, n, node);
    Ok(r)
}

/// Builds the list with `node` spliced in at position `p`; sortedness
/// holds when everything before is below the node and everything at or
/// after is above it.
fn splice_in(ns: Vec<Node>, p: usize, node: Node) -> (r: Vec<Node>)
    requires
        p <= ns@.len(),
        sorted_nodes(ns@),
        forall|i: int| 0 <= i < p ==> lex_lt((#[trigger] ns@[i]).name@, node.name@),
        forall|i: int| p <= i < ns@.len() ==> lex_lt(node.name@, (#[trigger] ns@[i]).name@),
    ensures
        sorted_nodes(r@),
        r@ == ns@.subrange(0, p as int) + seq![node] + ns@.subrange(p as int, ns@.len() as int),
{
    let ghost ns0 = ns@;
    let mut r = ns;
    r.insert(p, node);
    proof {
        assert(r@ =~= ns0.subrange(0, p as int) + seq![node] + ns0.subrange(p as int, ns0.len() as int));
        assert forall|i: int, j: int| 0 <= i < j < r@.len()
            implies lex_lt((#[trigger] r@[i]).name@, (#[trigger] r@[j]).name@) by {
            if j < p {
                assert(r@[i] == ns0[i] && r@[j] == ns0[j]);
            } else if j == p {
                assert(r@[i] == ns0[i]);
            } else if i < p {
                assert(r@[i] == ns0[i] && r@[j] == ns0[j - 1]);
                assert(p <= j - 1);
            } else if i == p {
                assert(r@[j] == ns0[j - 1]);
            } else {
                assert(r@[i] == ns0[i - 1] && r@[j] == ns0[j - 1]);
            }
        }
    }
    r
}

proof fn lemma_lex_irrefl(a: Seq<u8>)
    ensures
        !lex_lt(a, a),
    decreases a.len(),
{
    if a.len() > 0 {
        lemma_lex_irrefl(a.subrange(1, a.len() as int));
    }
}

proof fn lemma_lex_total(a: Seq<u8>, b: Seq<u8>)
    ensures
        a == b || lex_lt(a, b) || lex_lt(b, a),
    decreases a.len(),
{
    if b.len() == 0 {
        if a.len() == 0 {
            assert(a =~= b);
        }
    } else if a.len() == 0 {
    } else if a[0] == b[0] {
        let ta = a.subrange(1, a.len() as int);
        let tb = b.subrange(1, b.len() as int);
        lemma_lex_total(ta, tb);
        if ta == tb {
            assert(ta.len() == tb.len());
            assert(a.len() == b.len());
            assert forall|i: int| 0 <= i < a.len() implies a[i] == b[i] by {
                if i > 0 {
                    assert(a[i] == ta[i - 1]);
                    assert(b[i] == tb[i - 1]);
                }
            }
            assert(a =~= b);
        }
    }
}

proof fn lemma_lex_trans(a: Seq<u8>, b: Seq<u8>, c: Seq<u8>)
    requires
        lex_lt(a, b),
        lex_lt(b, c),
    ensures
        lex_lt(a, c),
    decreases a.len() + b.len() + c.len(),
{
    if c.len() == 0 {
    } else if b.len() == 0 {
    } else if a.len() == 0 {
    } else {
        if a[0] == b[0] && b[0] == c[0] {
            lemma_lex_trans(
                a.subrange(1, a.len() as int),
                b.subrange(1, b.len() as int),
                c.subrange(1, c.len() as int),
            );
        }
    }
}

} // verus!
