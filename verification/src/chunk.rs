use vstd::prelude::*;

verus! {

/// Default minimum chunk size: 512 KiB.
pub const CHUNK_MIN_SIZE: usize = 524288;

/// Default maximum chunk size: 2 MiB.
pub const CHUNK_MAX_SIZE: usize = 2097152;

/// Default boundary mask: twenty high bits, for a 1 MiB average chunk.
pub const CHUNK_MASK: u64 = 0xFFFFF00000000000;

/// Sizing rule of the content-defined chunker: no chunk below `min_size`
/// except the final one, none above `max_size`, and a cut wherever the
/// rolling hash of the bytes read so far lands on zero under `mask`.
#[derive(Debug, Clone, Copy)]
pub struct ChunkerParams {
    pub min_size: usize,
    pub max_size: usize,
    pub mask: u64,
}

impl ChunkerParams {
    pub open spec fn wf(&self) -> bool {
        1 <= self.min_size < self.max_size
    }

    /// The default sizing: 512 KiB minimum, 1 MiB average, 2 MiB maximum.
    pub fn standard() -> (r: ChunkerParams)
        ensures
            r.wf(),
            r.min_size == CHUNK_MIN_SIZE,
            r.max_size == CHUNK_MAX_SIZE,
            r.mask == CHUNK_MASK,
    {
        ChunkerParams { min_size: CHUNK_MIN_SIZE, max_size: CHUNK_MAX_SIZE, mask: CHUNK_MASK }
    }
}

/// Spreads one byte over a 64-bit word, the per-byte table of the rolling hash.
pub open spec fn gear_spec(b: u8) -> u64 {
    (b as u64) ^ ((b as u64) << 7) ^ ((b as u64) << 13) ^ ((b as u64) << 23)
        ^ ((b as u64) << 31) ^ ((b as u64) << 43) ^ ((b as u64) << 53) ^ ((b as u64) << 61)
}

/// One step of the rolling hash: shift the old state up and fold in a byte.
pub open spec fn roll_step(h: u64, b: u8) -> u64 {
    (h << 1) ^ gear_spec(b)
}

/// The rolling hash of the first `l` bytes of a stream.
pub open spec fn roll_hash(s: Seq<u8>, l: int) -> u64
    decreases l,
{
    if l <= 0 {
        0
    } else {
        roll_step(roll_hash(s, l - 1), s[l - 1])
    }
}

/// Whether the chunker may cut after the first `l` bytes of a stream.
pub open spec fn is_boundary(s: Seq<u8>, l: int, mask: u64) -> bool {
    roll_hash(s, l) & mask == 0
}

/// The smallest prefix length in `[l, cap]` that is a boundary, or `cap`.
pub open spec fn scan_cut(s: Seq<u8>, l: int, cap: int, mask: u64) -> int
    decreases cap - l,
{
    if l >= cap {
        cap
    } else if is_boundary(s, l, mask) {
        l
    } else {
        scan_cut(s, l + 1, cap, mask)
    }
}

/// The length of the first chunk of a stream: the whole stream when it is
/// at most the minimum, else the first boundary at or past the minimum,
/// forced at the maximum (or at the end of the stream, whichever is first).
pub open spec fn first_cut(s: Seq<u8>, min: int, max: int, mask: u64) -> int {
    if s.len() <= min {
        s.len() as int
    } else {
        scan_cut(s, min, if s.len() < max { s.len() as int } else { max }, mask)
    }
}

pub proof fn lemma_first_cut_bounds(s: Seq<u8>, min: int, max: int, mask: u64)
    requires
        1 <= min < max,
        s.len() > 0,
    ensures
        1 <= first_cut(s, min, max, mask) <= s.len(),
        first_cut(s, min, max, mask) <= max,
        s.len() > min ==> first_cut(s, min, max, mask) >= min,
    decreases s.len(),
{
    if s.len() > min {
        let cap = if s.len() < max { s.len() as int } else { max };
        lemma_scan_cut_bounds(s, min, cap, mask);
    }
}

pub proof fn lemma_scan_cut_bounds(s: Seq<u8>, l: int, cap: int, mask: u64)
    requires
        l <= cap,
    ensures
        l <= scan_cut(s, l, cap, mask) <= cap,
    decreases cap - l,
{
    if l < cap && !is_boundary(s, l, mask) {
        lemma_scan_cut_bounds(s, l + 1, cap, mask);
    }
}

/// The chunk lengths the chunker produces for a stream, in order.
pub open spec fn cuts(s: Seq<u8>, min: int, max: int, mask: u64) -> Seq<int>
    decreases s.len(),
{
    if s.len() == 0 {
        Seq::empty()
    } else {
        let l = first_cut(s, min, max, mask);
        if l < 1 || l > s.len() {
            seq![s.len() as int]
        } else {
            seq![l] + cuts(s.subrange(l, s.len() as int), min, max, mask)
        }
    }
}

/// The sum of a sequence of lengths.
pub open spec fn sum_ints(c: Seq<int>) -> int
    decreases c.len(),
{
    if c.len() == 0 {
        0
    } else {
        c[0] + sum_ints(c.subrange(1, c.len() as int))
    }
}

/// The byte offset at which chunk `i` starts: the lengths before it, summed.
pub open spec fn cut_offset(c: Seq<int>, i: int) -> int {
    sum_ints(c.subrange(0, i))
}

/// Chunk sizes obey the configured bounds: the lengths partition the whole
/// stream; no chunk exceeds the maximum; no chunk but the final one is
/// below the minimum.
pub proof fn lemma_cuts_sizes(s: Seq<u8>, min: int, max: int, mask: u64)
    requires
        1 <= min < max,
    ensures
        sum_ints(cuts(s, min, max, mask)) == s.len(),
        forall|i: int| 0 <= i < cuts(s, min, max, mask).len()
            ==> 1 <= #[trigger] cuts(s, min, max, mask)[i] <= max,
        forall|i: int| 0 <= i < cuts(s, min, max, mask).len() - 1
            ==> #[trigger] cuts(s, min, max, mask)[i] >= min,
    decreases s.len(),
{
    if s.len() > 0 {
        let l = first_cut(s, min, max, mask);
        lemma_first_cut_bounds(s, min, max, mask);
        let tail = s.subrange(l, s.len() as int);
        lemma_cuts_sizes(tail, min, max, mask);
        let c = cuts(s, min, max, mask);
        let ct = cuts(tail, min, max, mask);
        assert(c == seq![l] + ct);
        assert(c.subrange(1, c.len() as int) =~= ct);
        assert(sum_ints(c) == l + sum_ints(ct));
        // a chunk that is not the last is followed by a nonempty remainder,
        // so the stream was longer than the minimum when it was cut
        if c.len() > 1 {
            assert(ct.len() > 0);
            assert(sum_ints(ct) == tail.len());
            lemma_sum_nonneg_all(ct);
            assert(tail.len() > 0);
            assert(s.len() > min ==> l >= min);
            assert(s.len() <= min ==> l == s.len());
        }
        assert forall|i: int| 0 <= i < c.len() - 1 implies #[trigger] c[i] >= min by {
            if i == 0 {
                assert(c.len() > 1);
                assert(ct.len() > 0);
                lemma_sum_nonneg_all(ct);
                assert(sum_ints(ct) == tail.len());
                assert(tail.len() > 0);
            } else {
                assert(c[i] == ct[i - 1]);
            }
        }
        assert forall|i: int| 0 <= i < c.len() implies 1 <= #[trigger] c[i] <= max by {
            if i > 0 {
                assert(c[i] == ct[i - 1]);
            }
        }
    }
}

/// Every chunk of a nonempty list of chunk lengths is positive, so their
/// partial sums only grow.
pub proof fn lemma_sum_nonneg_all(c: Seq<int>)
    requires
        forall|i: int| 0 <= i < c.len() ==> 1 <= #[trigger] c[i],
    ensures
        sum_ints(c) >= c.len(),
    decreases c.len(),
{
    if c.len() > 0 {
        let t = c.subrange(1, c.len() as int);
        lemma_sum_nonneg_all(t);
    }
}

/// The rolling hash of a prefix reads only that prefix.
pub proof fn lemma_roll_hash_prefix(s1: Seq<u8>, s2: Seq<u8>, l: int)
    requires
        0 <= l <= s1.len(),
        l <= s2.len(),
        s1.subrange(0, l) == s2.subrange(0, l),
    ensures
        roll_hash(s1, l) == roll_hash(s2, l),
    decreases l,
{
    if l > 0 {
        assert(s1.subrange(0, l - 1) =~= s1.subrange(0, l).subrange(0, l - 1));
        assert(s2.subrange(0, l - 1) =~= s2.subrange(0, l).subrange(0, l - 1));
        lemma_roll_hash_prefix(s1, s2, l - 1);
        assert(s1[l - 1] == s1.subrange(0, l)[l - 1]);
        assert(s2[l - 1] == s2.subrange(0, l)[l - 1]);
    }
}

proof fn lemma_scan_cut_prefix(s1: Seq<u8>, s2: Seq<u8>, l: int, cap: int, mask: u64)
    requires
        0 <= l <= cap,
        cap <= s1.len(),
        cap <= s2.len(),
        s1.subrange(0, cap) == s2.subrange(0, cap),
    ensures
        scan_cut(s1, l, cap, mask) == scan_cut(s2, l, cap, mask),
    decreases cap - l,
{
    if l < cap {
        assert(s1.subrange(0, l) =~= s1.subrange(0, cap).subrange(0, l));
        assert(s2.subrange(0, l) =~= s2.subrange(0, cap).subrange(0, l));
        lemma_roll_hash_prefix(s1, s2, l);
        if !is_boundary(s1, l, mask) {
            lemma_scan_cut_prefix(s1, s2, l + 1, cap, mask);
        }
    }
}

/// Where to cut first is decided by the first `max_size` bytes alone, once
/// at least that much input remains: the boundary rule is content-local.
pub proof fn lemma_first_cut_local(s1: Seq<u8>, s2: Seq<u8>, min: int, max: int, mask: u64)
    requires
        1 <= min < max,
        s1.len() >= max,
        s2.len() >= max,
        s1.subrange(0, max) == s2.subrange(0, max),
    ensures
        first_cut(s1, min, max, mask) == first_cut(s2, min, max, mask),
{
    lemma_scan_cut_prefix(s1, s2, min, max, mask);
}

/// Chunking is content-local: two streams that agree on their first `m`
/// bytes produce identical chunks over that whole prefix, up to one
/// maximum chunk width before its end — same lengths, same offsets, and
/// byte-identical contents. An edit at offset `m` or later leaves every
/// chunk that ends more than `max` bytes before `m` untouched.
pub proof fn lemma_cuts_common_prefix(s1: Seq<u8>, s2: Seq<u8>, m: int, min: int, max: int, mask: u64)
    requires
        1 <= min < max,
        0 <= m <= s1.len(),
        m <= s2.len(),
        s1.subrange(0, m) == s2.subrange(0, m),
    ensures
        exists|k: int|
            0 <= k <= cuts(s1, min, max, mask).len()
            && k <= cuts(s2, min, max, mask).len()
            && #[trigger] cuts(s1, min, max, mask).subrange(0, k)
                == cuts(s2, min, max, mask).subrange(0, k)
            && sum_ints(cuts(s1, min, max, mask).subrange(0, k)) > m - max
            && sum_ints(cuts(s1, min, max, mask).subrange(0, k)) <= m
            && (forall|i: int| 0 <= i < k
                ==> s1.subrange(
                        cut_offset(cuts(s1, min, max, mask), i),
                        cut_offset(cuts(s1, min, max, mask), i) + cuts(s1, min, max, mask)[i],
                    ) == s2.subrange(
                        cut_offset(cuts(s2, min, max, mask), i),
                        cut_offset(cuts(s2, min, max, mask), i) + cuts(s2, min, max, mask)[i],
                    )),
    decreases m,
{
    let c1 = cuts(s1, min, max, mask);
    let c2 = cuts(s2, min, max, mask);
    if m < max {
        assert(c1.subrange(0, 0) =~= c2.subrange(0, 0));
        assert(sum_ints(c1.subrange(0, 0)) == 0 > m - max);
        assert(0 <= 0 <= c1.len() && 0 <= c2.len()
            && c1.subrange(0, 0) == c2.subrange(0, 0)
            && sum_ints(c1.subrange(0, 0)) > m - max
            && sum_ints(c1.subrange(0, 0)) <= m
            && (forall|i: int| 0 <= i < 0
                ==> s1.subrange(cut_offset(c1, i), cut_offset(c1, i) + c1[i])
                    == s2.subrange(cut_offset(c2, i), cut_offset(c2, i) + c2[i])));
    } else {
        assert(s1.subrange(0, max) =~= s1.subrange(0, m).subrange(0, max));
        assert(s2.subrange(0, max) =~= s2.subrange(0, m).subrange(0, max));
        lemma_first_cut_local(s1, s2, min, max, mask);
        let l = first_cut(s1, min, max, mask);
        lemma_first_cut_bounds(s1, min, max, mask);
        lemma_first_cut_bounds(s2, min, max, mask);
        let t1 = s1.subrange(l, s1.len() as int);
        let t2 = s2.subrange(l, s2.len() as int);
        assert(t1.subrange(0, m - l) =~= t2.subrange(0, m - l)) by {
            assert forall|j: int| 0 <= j < m - l implies t1[j] == t2[j] by {
                assert(t1[j] == s1[l + j]);
                assert(s1[l + j] == s1.subrange(0, m)[l + j]);
                assert(s2[l + j] == s2.subrange(0, m)[l + j]);
            }
        }
        lemma_cuts_common_prefix(t1, t2, m - l, min, max, mask);
        let ct1 = cuts(t1, min, max, mask);
        let ct2 = cuts(t2, min, max, mask);
        lemma_cuts_sizes(t1, min, max, mask);
        lemma_partial_sums(ct1);
        let k0 = choose|k: int|
            0 <= k <= ct1.len() && k <= ct2.len()
            && #[trigger] ct1.subrange(0, k) == ct2.subrange(0, k)
            && sum_ints(ct1.subrange(0, k)) > (m - l) - max
            && sum_ints(ct1.subrange(0, k)) <= m - l
            && (forall|i: int| 0 <= i < k
                ==> t1.subrange(cut_offset(ct1, i), cut_offset(ct1, i) + ct1[i])
                    == t2.subrange(cut_offset(ct2, i), cut_offset(ct2, i) + ct2[i]));
        assert(c1 == seq![l] + ct1);
        assert(c2 == seq![l] + ct2);
        let k = k0 + 1;
        assert(c1.subrange(0, k) =~= seq![l] + ct1.subrange(0, k0));
        assert(c2.subrange(0, k) =~= seq![l] + ct2.subrange(0, k0));
        lemma_sum_cons(l, ct1.subrange(0, k0));
        assert(sum_ints(c1.subrange(0, k)) == l + sum_ints(ct1.subrange(0, k0)));
        assert(sum_ints(c1.subrange(0, k)) > m - max);
        assert(sum_ints(c1.subrange(0, k)) <= m);
        assert forall|i: int| 0 <= i < k
            implies s1.subrange(cut_offset(c1, i), cut_offset(c1, i) + c1[i])
                == s2.subrange(cut_offset(c2, i), cut_offset(c2, i) + c2[i]) by {
            if i == 0 {
                assert(c1.subrange(0, 0).len() == 0);
                assert(c2.subrange(0, 0).len() == 0);
                assert(cut_offset(c1, 0) == 0 && cut_offset(c2, 0) == 0);
                assert(c1[0] == l && c2[0] == l);
                assert(s1.subrange(0, l) =~= s2.subrange(0, l)) by {
                    assert forall|j: int| 0 <= j < l implies s1[j] == s2[j] by {
                        assert(s1[j] == s1.subrange(0, m)[j]);
                        assert(s2[j] == s2.subrange(0, m)[j]);
                    }
                }
            } else {
                let i0 = i - 1;
                // the later agreed chunks are the tails' chunks, shifted by l
                assert(c1.subrange(0, i) =~= seq![l] + ct1.subrange(0, i0));
                assert(c2.subrange(0, i) =~= seq![l] + ct2.subrange(0, i0));
                lemma_sum_cons(l, ct1.subrange(0, i0));
                lemma_sum_cons(l, ct2.subrange(0, i0));
                assert(ct1.subrange(0, i0) == ct2.subrange(0, i0)) by {
                    assert(ct1.subrange(0, i0) =~= ct1.subrange(0, k0).subrange(0, i0));
                    assert(ct2.subrange(0, i0) =~= ct2.subrange(0, k0).subrange(0, i0));
                }
                assert(cut_offset(c1, i) == l + cut_offset(ct1, i0));
                assert(cut_offset(c2, i) == l + cut_offset(ct2, i0));
                assert(c1[i] == ct1[i0] && c2[i] == ct2[i0]);
                assert(ct1[i0] == ct1.subrange(0, k0)[i0]);
                assert(ct2[i0] == ct2.subrange(0, k0)[i0]);
                assert(ct1[i0] == ct2[i0]);
                // the tail range sits inside the tail stream
                assert(0 <= cut_offset(ct1, i0)
                    && cut_offset(ct1, i0) + ct1[i0] <= sum_ints(ct1));
                assert(sum_ints(ct1) == t1.len());
                lemma_cuts_sizes(t2, min, max, mask);
                lemma_partial_sums(ct2);
                assert(0 <= cut_offset(ct2, i0)
                    && cut_offset(ct2, i0) + ct2[i0] <= sum_ints(ct2));
                assert(sum_ints(ct2) == t2.len());
                assert(s1.subrange(cut_offset(c1, i), cut_offset(c1, i) + c1[i])
                    =~= t1.subrange(cut_offset(ct1, i0), cut_offset(ct1, i0) + ct1[i0]));
                assert(s2.subrange(cut_offset(c2, i), cut_offset(c2, i) + c2[i])
                    =~= t2.subrange(cut_offset(ct2, i0), cut_offset(ct2, i0) + ct2[i0]));
            }
        }
        assert(0 <= k <= c1.len() && k <= c2.len()
            && c1.subrange(0, k) == c2.subrange(0, k)
            && sum_ints(c1.subrange(0, k)) > m - max
            && sum_ints(c1.subrange(0, k)) <= m
            && (forall|i: int| 0 <= i < k
                ==> s1.subrange(cut_offset(c1, i), cut_offset(c1, i) + c1[i])
                    == s2.subrange(cut_offset(c2, i), cut_offset(c2, i) + c2[i])));
    }
}

/// All partial sums of a list of positive lengths stay within the total.
pub proof fn lemma_partial_sums(c: Seq<int>)
    requires
        forall|i: int| 0 <= i < c.len() ==> 1 <= #[trigger] c[i],
    ensures
        forall|i: int| 0 <= i < c.len()
            ==> 0 <= #[trigger] cut_offset(c, i) && cut_offset(c, i) + c[i] <= sum_ints(c),
        forall|i: int| 0 <= i < c.len()
            ==> #[trigger] cut_offset(c, i + 1) == cut_offset(c, i) + c[i],
    decreases c.len(),
{
    if c.len() > 0 {
        let t = c.subrange(1, c.len() as int);
        lemma_partial_sums(t);
        assert forall|i: int| 0 <= i < c.len()
            implies #[trigger] cut_offset(c, i + 1) == cut_offset(c, i) + c[i] by {
            assert(c.subrange(0, i + 1) =~= c.subrange(0, i) + seq![c[i]]);
            lemma_sum_snoc(c.subrange(0, i), c[i]);
        }
        assert forall|i: int| 0 <= i < c.len()
            implies 0 <= #[trigger] cut_offset(c, i) && cut_offset(c, i) + c[i] <= sum_ints(c) by {
            lemma_offset_rest(c, i);
        }
    }
}

/// The tail past any prefix of a list of positive lengths has a
/// nonnegative sum, so prefix sums never pass the total.
proof fn lemma_offset_rest(c: Seq<int>, i: int)
    requires
        forall|j: int| 0 <= j < c.len() ==> 1 <= #[trigger] c[j],
        0 <= i < c.len(),
    ensures
        0 <= cut_offset(c, i),
        cut_offset(c, i) + c[i] <= sum_ints(c),
    decreases c.len(),
{
    lemma_sum_nonneg_all(c.subrange(0, i));
    assert(c.subrange(0, i + 1) =~= c.subrange(0, i) + seq![c[i]]);
    lemma_sum_snoc(c.subrange(0, i), c[i]);
    let rest = c.subrange(i + 1, c.len() as int);
    lemma_sum_nonneg_all(rest);
    lemma_sum_split(c, i + 1);
}

/// A list's sum splits at any point into the prefix and suffix sums.
proof fn lemma_sum_split(c: Seq<int>, k: int)
    requires
        0 <= k <= c.len(),
    ensures
        sum_ints(c) == sum_ints(c.subrange(0, k)) + sum_ints(c.subrange(k, c.len() as int)),
    decreases k,
{
    if k == 0 {
        assert(c.subrange(0, 0).len() == 0);
        assert(c.subrange(0, c.len() as int) =~= c);
    } else {
        lemma_sum_split(c, k - 1);
        assert(c.subrange(0, k) =~= c.subrange(0, k - 1) + seq![c[k - 1]]);
        lemma_sum_snoc(c.subrange(0, k - 1), c[k - 1]);
        let s1 = c.subrange(k - 1, c.len() as int);
        let s2 = c.subrange(k, c.len() as int);
        assert(s1.len() > 0);
        assert(s1[0] == c[k - 1]);
        assert(s1.subrange(1, s1.len() as int) =~= s2);
        assert(sum_ints(s1) == c[k - 1] + sum_ints(s2));
    }
}

/// Prepending one length to a list adds it to the sum.
pub proof fn lemma_sum_cons(x: int, c: Seq<int>)
    ensures
        sum_ints(seq![x] + c) == x + sum_ints(c),
{
    let w = seq![x] + c;
    assert(w.len() > 0);
    assert(w[0] == x);
    assert(w.subrange(1, w.len() as int) =~= c);
}

/// One produced chunk: a byte range of the input stream.
#[derive(Debug, Clone, Copy, PartialEq, Eq, Structural)]
pub struct Chunk {
    pub offset: usize,
    pub length: usize,
}

fn gear(b: u8) -> (r: u64)
    ensures
        r == gear_spec(b),
{
    let x = b as u64;
    x ^ (x << 7) ^ (x << 13) ^ (x << 23) ^ (x << 31) ^ (x << 43) ^ (x << 53) ^ (x << 61)
}

proof fn lemma_scan_cut_skip(s: Seq<u8>, a: int, b: int, cap: int, mask: u64)
    requires
        a <= b <= cap,
        forall|j: int| a <= j < b ==> !is_boundary(s, j, mask),
    ensures
        scan_cut(s, a, cap, mask) == scan_cut(s, b, cap, mask),
    decreases b - a,
{
    if a < b {
        lemma_scan_cut_skip(s, a + 1, b, cap, mask);
    }
}

/// The length of the chunk that starts at `pos`, per `first_cut` of the
/// remaining bytes.
fn next_cut(data: &[u8], pos: usize, params: &ChunkerParams) -> (l: usize)
    requires
        params.wf(),
        pos < data@.len(),
    ensures
        l == first_cut(data@.subrange(pos as int, data@.len() as int),
            params.min_size as int, params.max_size as int, params.mask),
        1 <= l <= data@.len() - pos,
{
    let ghost s = data@.subrange(pos as int, data@.len() as int);
    let n = data.len();
    let rem = n - pos;
    proof {
        lemma_first_cut_bounds(s, params.min_size as int, params.max_size as int, params.mask);
    }
    if rem <= params.min_size {
        return rem;
    }
    let cap: usize = if rem < params.max_size { rem } else { params.max_size };
    let mut h: u64 = 0;
    let mut l: usize = 0;
    loop
        invariant
            params.wf(),
            pos < n,
            n == data@.len(),
            rem == n - pos,
            rem > params.min_size,
            cap as int == if rem < params.max_size { rem as int } else { params.max_size as int },
            s == data@.subrange(pos as int, data@.len() as int),
            l <= cap,
            cap <= rem,
            h == roll_hash(s, l as int),
            forall|j: int| params.min_size <= j <= l ==> !is_boundary(s, j, params.mask),
        decreases cap - l,
    {
        if l >= cap {
            proof {
                lemma_scan_cut_skip(s, params.min_size as int, cap as int, cap as int, params.mask);
            }
            return cap;
        }
        let b = *vstd::slice::slice_index_get(data, pos + l);
        proof {
            assert(s[l as int] == data@[pos + l]);
        }
        h = (h << 1u64) ^ gear(b);
        l = l + 1;
        if l >= params.min_size && (h & params.mask) == 0 {
            proof {
                assert(is_boundary(s, l as int, params.mask));
                lemma_scan_cut_skip(s, params.min_size as int, l as int, cap as int, params.mask);
            }
            return l;
        }
        proof {
            assert(l >= params.min_size ==> !is_boundary(s, l as int, params.mask));
        }
    }
}

/// Splits a byte stream into content-defined chunks: the returned ranges
/// have exactly the lengths `cuts` gives for the stream, laid back to back
/// from offset zero, covering the whole stream.
pub fn split(data: &[u8], params: &ChunkerParams) -> (r: Vec<Chunk>)
    requires
        params.wf(),
    ensures
        ({
            let c = cuts(data@, params.min_size as int, params.max_size as int, params.mask);
            r@.len() == c.len()
            && forall|i: int| 0 <= i < c.len()
                ==> (#[trigger] r@[i]).length == c[i] && r@[i].offset == cut_offset(c, i)
        }),
{
    let ghost min = params.min_size as int;
    let ghost max = params.max_size as int;
    let ghost c = cuts(data@, min, max, params.mask);
    let n = data.len();
    let mut r: Vec<Chunk> = Vec::new();
    let mut pos: usize = 0;
    proof {
        assert(data@.subrange(0, n as int) =~= data@);
    }
    while pos < n
        invariant
            params.wf(),
            n == data@.len(),
            pos <= n,
            c == cuts(data@, min, max, params.mask),
            min == params.min_size as int,
            max == params.max_size as int,
            r@.len() <= c.len(),
            c =~= r@.map(|i: int, ch: Chunk| ch.length as int)
                + cuts(data@.subrange(pos as int, n as int), min, max, params.mask),
            forall|i: int| 0 <= i < r@.len()
                ==> (#[trigger] r@[i]).length == c[i] && r@[i].offset == cut_offset(c, i),
            sum_ints(r@.map(|i: int, ch: Chunk| ch.length as int)) == pos,
        decreases n - pos,
    {
        let ghost s = data@.subrange(pos as int, n as int);
        let ghost done = r@.map(|i: int, ch: Chunk| ch.length as int);
        let l = next_cut(data, pos, params);
        proof {
            assert(cuts(s, min, max, params.mask)
                == seq![l as int] + cuts(s.subrange(l as int, s.len() as int), min, max, params.mask));
            assert(s.subrange(l as int, s.len() as int)
                =~= data@.subrange(pos + l, n as int));
            lemma_sum_take_snoc(done, l as int);
            assert(c[done.len() as int] == l as int);
            assert(c.subrange(0, done.len() as int) =~= done);
        }
        r.push(Chunk { offset: pos, length: l });
        proof {
            assert(r@.map(|i: int, ch: Chunk| ch.length as int) =~= done + seq![l as int]);
            assert(c =~= r@.map(|i: int, ch: Chunk| ch.length as int)
                + cuts(data@.subrange(pos + l, n as int), min, max, params.mask));
            assert(sum_ints(done + seq![l as int]) == sum_ints(done) + l) by {
                lemma_sum_snoc(done, l as int);
            }
        }
        pos = pos + l;
    }
    proof {
        assert(data@.subrange(n as int, n as int).len() == 0);
        assert(cuts(data@.subrange(n as int, n as int), min, max, params.mask).len() == 0);
        assert(c =~= r@.map(|i: int, ch: Chunk| ch.length as int));
    }
    r
}

/// Appending one length to a list adds it to the sum.
pub proof fn lemma_sum_snoc(c: Seq<int>, x: int)
    ensures
        sum_ints(c + seq![x]) == sum_ints(c) + x,
    decreases c.len(),
{
    let w = c + seq![x];
    if c.len() == 0 {
        assert(w =~= seq![x]);
        assert(w.subrange(1, 1) =~= Seq::<int>::empty());
        assert(sum_ints(w) == w[0] + sum_ints(w.subrange(1, 1)));
        assert(sum_ints(w.subrange(1, 1)) == 0);
    } else {
        let t = c.subrange(1, c.len() as int);
        assert(w.subrange(1, w.len() as int) =~= t + seq![x]);
        lemma_sum_snoc(t, x);
        assert(sum_ints(w) == w[0] + sum_ints(w.subrange(1, w.len() as int)));
        assert(w[0] == c[0]);
        assert(sum_ints(c) == c[0] + sum_ints(t));
    }
}

proof fn lemma_sum_take_snoc(done: Seq<int>, l: int)
    ensures
        sum_ints((done + seq![l]).subrange(0, done.len() as int)) == sum_ints(done),
        sum_ints(done + seq![l]) == sum_ints(done) + l,
{
    assert((done + seq![l]).subrange(0, done.len() as int) =~= done);
    lemma_sum_snoc(done, l);
}

} // verus!
