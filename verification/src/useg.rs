use vstd::prelude::*;

verus! {

/// Lexicographic order on byte sequences: `a` sorts strictly before `b`.
pub open spec fn lex_lt(a: Seq<u8>, b: Seq<u8>) -> bool
    decreases a.len(),
{
    if b.len() == 0 {
        false
    } else if a.len() == 0 {
        true
    } else if a[0] != b[0] {
        a[0] < b[0]
    } else {
        lex_lt(a.subrange(1, a.len() as int), b.subrange(1, b.len() as int))
    }
}

/// Copies a byte vector element by element.
pub fn clone_bytes(v: &Vec<u8>) -> (r: Vec<u8>)
    ensures
        r@ == v@,
{
    let mut r: Vec<u8> = Vec::new();
    let n = v.len();
    let mut i: usize = 0;
    while i < n
        invariant
            n == v@.len(),
            i <= n,
            r@ == v@.subrange(0, i as int),
        decreases n - i,
    {
        r.push(v[i]);
        proof {
            assert(r@ =~= v@.subrange(0, i + 1));
        }
        i += 1;
    }
    proof {
        assert(r@ =~= v@);
    }
    r
}

/// One path component: an opaque byte sequence, never interpreted as text.
#[derive(Debug)]
pub struct USeg {
    raw: Vec<u8>,
}

impl Clone for USeg {
    fn clone(&self) -> (r: Self)
        ensures
            r@ == self@,
    {
        USeg { raw: clone_bytes(&self.raw) }
    }
}

impl USeg {
    /// A segment is its bytes.
    pub closed spec fn view(&self) -> Seq<u8> {
        self.raw@
    }

    pub fn from_segment_bytes(bytes: &[u8]) -> (r: USeg)
        ensures
            r@ == bytes@,
    {
        USeg { raw: vstd::slice::slice_to_vec(bytes) }
    }

    pub fn as_bytes(&self) -> (r: &Vec<u8>)
        ensures
            r@ == self@,
    {
        &self.raw
    }
}

/// Byte-wise equality of two byte vectors.
pub fn bytes_eq(a: &Vec<u8>, b: &Vec<u8>) -> (r: bool)
    ensures
        r == (a@ == b@),
{
    if a.len() != b.len() {
        assert(a@.len() != b@.len());
        return false;
    }
    let n = a.len();
    let mut i: usize = 0;
    while i < n
        invariant
            n == a@.len(),
            n == b@.len(),
            i <= n,
            forall|j: int| 0 <= j < i ==> a@[j] == b@[j],
        decreases n - i,
    {
        if a[i] != b[i] {
            assert(a@ != b@);
            return false;
        }
        i += 1;
    }
    assert(a@ =~= b@);
    true
}

/// Byte-wise lexicographic strict order on two byte vectors.
pub fn bytes_lt(a: &Vec<u8>, b: &Vec<u8>) -> (r: bool)
    ensures
        r == lex_lt(a@, b@),
{
    let mut i: usize = 0;
    proof {
        assert(a@.subrange(0, a@.len() as int) =~= a@);
        assert(b@.subrange(0, b@.len() as int) =~= b@);
    }
    loop
        invariant
            i <= a@.len(),
            i <= b@.len(),
            forall|j: int| 0 <= j < i ==> a@[j] == b@[j],
            lex_lt(a@, b@) == lex_lt(a@.subrange(i as int, a@.len() as int), b@.subrange(i as int, b@.len() as int)),
        decreases a@.len() - i,
    {
        proof {
            lemma_lex_lt_unfold(a@, b@, i as int);
        }
        if i >= b.len() {
            assert(b@.subrange(i as int, b@.len() as int).len() == 0);
            return false;
        }
        if i >= a.len() {
            assert(a@.subrange(i as int, a@.len() as int).len() == 0);
            return true;
        }
        let x = a[i];
        let y = b[i];
        if x != y {
            assert(a@.subrange(i as int, a@.len() as int)[0] == x);
            assert(b@.subrange(i as int, b@.len() as int)[0] == y);
            return x < y;
        }
        proof {
            let sa = a@.subrange(i as int, a@.len() as int);
            let sb = b@.subrange(i as int, b@.len() as int);
            assert(sa.subrange(1, sa.len() as int) =~= a@.subrange(i + 1, a@.len() as int));
            assert(sb.subrange(1, sb.len() as int) =~= b@.subrange(i + 1, b@.len() as int));
        }
        i += 1;
    }
}

proof fn lemma_lex_lt_unfold(a: Seq<u8>, b: Seq<u8>, i: int)
    requires
        0 <= i <= a.len(),
        0 <= i <= b.len(),
    ensures
        i < a.len() && i < b.len() && a[i] == b[i] ==>
            lex_lt(a.subrange(i, a.len() as int), b.subrange(i, b.len() as int))
                == lex_lt(a.subrange(i + 1, a.len() as int), b.subrange(i + 1, b.len() as int)),
{
    if i < a.len() && i < b.len() && a[i] == b[i] {
        let sa = a.subrange(i, a.len() as int);
        let sb = b.subrange(i, b.len() as int);
        assert(sa[0] == sb[0]);
        assert(sa.subrange(1, sa.len() as int) =~= a.subrange(i + 1, a.len() as int));
        assert(sb.subrange(1, sb.len() as int) =~= b.subrange(i + 1, b.len() as int));
    }
}

/// Lexicographic order on paths: segment by segment, each segment
/// compared byte-wise; a proper prefix sorts first. This is the stable
/// order directory-close scheduling and serialization rest on.
pub open spec fn path_lt(a: Seq<Seq<u8>>, b: Seq<Seq<u8>>) -> bool
    decreases a.len(),
{
    if b.len() == 0 {
        false
    } else if a.len() == 0 {
        true
    } else if a[0] != b[0] {
        lex_lt(a[0], b[0])
    } else {
        path_lt(a.subrange(1, a.len() as int), b.subrange(1, b.len() as int))
    }
}

proof fn lemma_path_lt_unfold(a: Seq<Seq<u8>>, b: Seq<Seq<u8>>, i: int)
    requires
        0 <= i <= a.len(),
        0 <= i <= b.len(),
    ensures
        i < a.len() && i < b.len() && a[i] == b[i] ==>
            path_lt(a.subrange(i, a.len() as int), b.subrange(i, b.len() as int))
                == path_lt(a.subrange(i + 1, a.len() as int), b.subrange(i + 1, b.len() as int)),
{
    if i < a.len() && i < b.len() && a[i] == b[i] {
        let sa = a.subrange(i, a.len() as int);
        let sb = b.subrange(i, b.len() as int);
        assert(sa[0] == sb[0]);
        assert(sa.subrange(1, sa.len() as int) =~= a.subrange(i + 1, a.len() as int));
        assert(sb.subrange(1, sb.len() as int) =~= b.subrange(i + 1, b.len() as int));
    }
}

/// A filesystem path: an ordered sequence of segments, byte-exact.
#[derive(Debug)]
pub struct UPath {
    segs: Vec<USeg>,
}

impl Clone for UPath {
    fn clone(&self) -> (r: Self)
        ensures
            r@ == self@,
    {
        let mut segs: Vec<USeg> = Vec::new();
        let n = self.segs.len();
        let mut i: usize = 0;
        while i < n
            invariant
                n == self.segs@.len(),
                i <= n,
                segs@.len() == i,
                forall|j: int| 0 <= j < i ==> segs@[j]@ == self.segs@[j]@,
            decreases n - i,
        {
            segs.push(self.segs[i].clone());
            i += 1;
        }
        let r = UPath { segs };
        proof {
            assert(r@ =~= self@);
        }
        r
    }
}

impl UPath {
    /// A path is its sequence of segment byte sequences.
    pub closed spec fn view(&self) -> Seq<Seq<u8>> {
        self.segs@.map(|i: int, s: USeg| s@)
    }

    /// Builds a path from its components, given as raw byte strings.
    pub fn from_path(segments: &Vec<Vec<u8>>) -> (r: UPath)
        ensures
            r@ == segments@.map(|i: int, s: Vec<u8>| s@),
    {
        let mut segs: Vec<USeg> = Vec::new();
        let n = segments.len();
        let mut i: usize = 0;
        while i < n
            invariant
                n == segments@.len(),
                i <= n,
                segs@.len() == i,
                forall|j: int| 0 <= j < i ==> segs@[j]@ == segments@[j]@,
            decreases n - i,
        {
            segs.push(USeg::from_segment_bytes(segments[i].as_slice()));
            i += 1;
        }
        let r = UPath { segs };
        proof {
            assert(r@ =~= segments@.map(|i: int, s: Vec<u8>| s@));
        }
        r
    }

    pub fn num_segments(&self) -> (r: usize)
        ensures
            r == self@.len(),
    {
        self.segs.len()
    }

    /// The path with the last segment removed; only defined off the root.
    pub fn parent(&self) -> (r: UPath)
        requires
            self@.len() > 0,
        ensures
            r@ == self@.subrange(0, self@.len() - 1),
    {
        let mut segs: Vec<USeg> = Vec::new();
        let n = self.segs.len() - 1;
        let mut i: usize = 0;
        while i < n
            invariant
                n <= self.segs@.len(),
                i <= n,
                segs@.len() == i,
                forall|j: int| 0 <= j < i ==> segs@[j]@ == self.segs@[j]@,
            decreases n - i,
        {
            segs.push(self.segs[i].clone());
            i += 1;
        }
        let r = UPath { segs };
        proof {
            assert(r@ =~= self@.subrange(0, self@.len() - 1));
        }
        r
    }

    /// The trailing segment's bytes; only defined off the root.
    pub fn last_segment(&self) -> (r: &Vec<u8>)
        requires
            self@.len() > 0,
        ensures
            r@ == self@[self@.len() - 1],
    {
        self.segs[self.segs.len() - 1].as_bytes()
    }

    pub fn segment(&self, i: usize) -> (r: &Vec<u8>)
        requires
            i < self@.len(),
        ensures
            r@ == self@[i as int],
    {
        self.segs[i].as_bytes()
    }
}

/// Whether `a` sorts strictly before `b` in path order.
pub fn upath_lt(a: &UPath, b: &UPath) -> (r: bool)
    ensures
        r == path_lt(a@, b@),
{
    let mut i: usize = 0;
    proof {
        assert(a@.subrange(0, a@.len() as int) =~= a@);
        assert(b@.subrange(0, b@.len() as int) =~= b@);
    }
    loop
        invariant
            i <= a@.len(),
            i <= b@.len(),
            path_lt(a@, b@) == path_lt(a@.subrange(i as int, a@.len() as int),
                b@.subrange(i as int, b@.len() as int)),
        decreases a@.len() - i,
    {
        proof {
            lemma_path_lt_unfold(a@, b@, i as int);
        }
        if i >= b.num_segments() {
            assert(b@.subrange(i as int, b@.len() as int).len() == 0);
            return false;
        }
        if i >= a.num_segments() {
            assert(a@.subrange(i as int, a@.len() as int).len() == 0);
            return true;
        }
        let sa = a.segment(i);
        let sb = b.segment(i);
        if !bytes_eq(sa, sb) {
            proof {
                assert(a@.subrange(i as int, a@.len() as int)[0] == a@[i as int]);
                assert(b@.subrange(i as int, b@.len() as int)[0] == b@[i as int]);
            }
            return bytes_lt(sa, sb);
        }
        i += 1;
    }
}

} // verus!
