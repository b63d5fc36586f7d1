use vstd::prelude::*;
use crate::chunk::{ChunkerParams, cuts, cut_offset, sum_ints, lemma_cuts_sizes, lemma_partial_sums, split};
use crate::hash::{blake3_of, hash_bytes};
use crate::types::{BlobKind, IndexBlobInfo, IndexPackInfo, Key, PackInfoEntry};
use crate::VaultError;

verus! {

/// Payloads below this many bytes are never compressed.
pub const BLOB_COMPRESSION_THRESHOLD: usize = 100;

/// Soft pack size: once reached, callers should finalize. 8 MiB.
pub const PACK_SIZE_TARGET: usize = 8388608;

/// Hard pack size cap: adding past it is refused. 16 MiB.
pub const PACK_SIZE_MAX: usize = 16777216;

/// The most records one pack header can carry: the trailer is a 32-bit
/// length of the sealed header (64 bytes of nonce and tag around an
/// 8-byte count plus 50 bytes per record), so the count is capped.
pub const PACK_HEADER_MAX_ENTRIES: usize = 85899344;

/// The bytes zstd::bulk::compress produces at the crate's default level.
pub uninterp spec fn zstd_of(data: Seq<u8>) -> Seq<u8>;

/// Relies on zstd::bulk::compress at the crate's default level: the output
/// is a function of the input bytes alone, and the call succeeds — it sizes
/// its buffer with compress_bound and the fixed level is valid, leaving
/// allocation failure (a process abort, not an error return) as the only
/// way not to produce a frame. The promise is kept to moderate inputs,
/// clear of compress_bound's upper range.
#[verifier::external_body]
fn zstd_compress(data: &[u8]) -> (r: Option<Vec<u8>>)
    ensures
        data@.len() < 0x8000_0000 ==> r is Some,
        r matches Some(v) ==> v@ == zstd_of(data@),
{
    match zstd::bulk::compress(data, zstd::DEFAULT_COMPRESSION_LEVEL) {
        Ok(v) => Some(v),
        Err(_) => None,
    }
}

/// Relies on zstd::bulk::decompress: compression is lossless, so feeding it
/// the compressed form of any original no longer than the capacity yields
/// exactly that original.
#[verifier::external_body]
pub(crate) fn zstd_decompress(data: &[u8], capacity: usize) -> (r: Option<Vec<u8>>)
    ensures
        (exists|orig: Seq<u8>| data@ == zstd_of(orig) && orig.len() <= capacity) ==> r is Some,
        r matches Some(v) ==> forall|orig: Seq<u8>|
            data@ == zstd_of(orig) && orig.len() <= capacity ==> v@ == orig,
{
    match zstd::bulk::decompress(data, capacity) {
        Ok(v) => Some(v),
        Err(_) => None,
    }
}

/// What blob identity and compression promise for one payload: the id is
/// the hash of the plaintext alone, and the whole (id, kind, sizes, stored
/// bytes) tuple is a function of the plaintext: compressed exactly when the
/// payload reaches the threshold and compression strictly shrinks it,
/// stored raw otherwise.
pub open spec fn data_blob_ok(piece: Seq<u8>, entry: PackInfoEntry, stored: Seq<u8>, threshold: int) -> bool {
    &&& entry.id@ == blake3_of(piece)
    &&& entry.size_uncompressed == piece.len()
    &&& if piece.len() >= threshold && 1 <= zstd_of(piece).len() < piece.len() {
        entry.kind == BlobKind::DataZstd3 && stored == zstd_of(piece)
            && (entry.size_compressed matches Some(c) && c == stored.len())
    } else {
        entry.kind == BlobKind::Data && stored == piece && entry.size_compressed is None
    }
}

/// Assigns a payload its content identity and decides its stored form:
/// hash the plaintext, then keep the compressed form exactly when the
/// payload reaches the threshold and compression strictly shrinks it. The
/// payload is bounded to what one bulk compression call takes.
pub fn make_data_blob(data: &[u8], threshold: usize) -> (r: (PackInfoEntry, Vec<u8>))
    requires
        data@.len() < 0x8000_0000,
    ensures
        data_blob_ok(data@, r.0, r.1@, threshold as int),
        r.0.wf(),
{
    let id = hash_bytes(data);
    if data.len() >= threshold {
        match zstd_compress(data) {
            Some(compressed) => {
                if compressed.len() >= 1 && compressed.len() < data.len() {
                    let entry = PackInfoEntry {
                        id,
                        kind: BlobKind::DataZstd3,
                        size_uncompressed: data.len(),
                        size_compressed: Some(compressed.len()),
                    };
                    return (entry, compressed);
                }
            }
            None => {
                proof {
                    assert(false);
                }
            }
        }
    }
    let entry = PackInfoEntry {
        id,
        kind: BlobKind::Data,
        size_uncompressed: data.len(),
        size_compressed: None,
    };
    (entry, vstd::slice::slice_to_vec(data))
}

/// Blob identity is a pure function of the plaintext bytes: two blobs made
/// from the same payload carry the same id, whether or not either was
/// compressed, whatever thresholds were in force.
pub proof fn lemma_blob_identity_pure(
    piece: Seq<u8>,
    e1: PackInfoEntry, s1: Seq<u8>, t1: int,
    e2: PackInfoEntry, s2: Seq<u8>, t2: int,
)
    requires
        data_blob_ok(piece, e1, s1, t1),
        data_blob_ok(piece, e2, s2, t2),
    ensures
        e1.id@ == e2.id@,
        e1.id@ == blake3_of(piece),
{
}

/// Recovers a blob's plaintext from its stored bytes: raw kinds are their
/// own plaintext; a compressed blob decompresses to exactly the bytes whose
/// compressed form was stored.
pub fn unstore_blob(kind: &BlobKind, stored: &[u8], size_uncompressed: usize) -> (r: Option<Vec<u8>>)
    ensures
        !(kind is DataZstd3) ==> (r matches Some(v) && v@ == stored@),
        kind is DataZstd3 ==> forall|orig: Seq<u8>|
            stored@ == zstd_of(orig) && orig.len() <= size_uncompressed
                ==> (r matches Some(v) && v@ == orig),
{
    match kind {
        BlobKind::DataZstd3 => zstd_decompress(stored, size_uncompressed),
        _ => Some(vstd::slice::slice_to_vec(stored)),
    }
}

/// Splits a byte stream into content-defined chunks and gives each its
/// identity and stored form. The chunk layout is exactly `cuts` of the
/// stream; each produced blob satisfies `data_blob_ok` for its chunk, so
/// the whole output is a function of the stream content alone. The chunk
/// bound keeps every piece within one bulk compression call.
pub fn split_to_data_blobs(data: &[u8], params: &ChunkerParams, threshold: usize)
    -> (r: Vec<(PackInfoEntry, Vec<u8>)>)
    requires
        params.wf(),
        params.max_size < 0x8000_0000,
    ensures
        ({
            let c = cuts(data@, params.min_size as int, params.max_size as int, params.mask);
            r@.len() == c.len()
            && forall|i: int| 0 <= i < c.len() ==> data_blob_ok(
                data@.subrange(cut_offset(c, i), cut_offset(c, i) + c[i]),
                (#[trigger] r@[i]).0,
                r@[i].1@,
                threshold as int,
            )
            && forall|i: int| 0 <= i < c.len() ==> (#[trigger] r@[i]).0.wf()
                && r@[i].1@.len() == r@[i].0.stored_len()
                && r@[i].0.stored_len() >= 1
        }),
{
    let ghost c = cuts(data@, params.min_size as int, params.max_size as int, params.mask);
    proof {
        lemma_cuts_sizes(data@, params.min_size as int, params.max_size as int, params.mask);
        lemma_partial_sums(c);
    }
    let chunks = split(data, params);
    let total = data.len();
    let mut r: Vec<(PackInfoEntry, Vec<u8>)> = Vec::new();
    let n = chunks.len();
    let mut i: usize = 0;
    while i < n
        invariant
            total == data@.len(),
            n == chunks@.len(),
            i <= n,
            c == cuts(data@, params.min_size as int, params.max_size as int, params.mask),
            c.len() == n,
            sum_ints(c) == data@.len(),
            forall|j: int| 0 <= j < n ==> 1 <= #[trigger] c[j],
            forall|j: int| 0 <= j < n ==> #[trigger] c[j] <= params.max_size as int,
            params.max_size < 0x8000_0000,
            forall|j: int| 0 <= j < n
                ==> 0 <= #[trigger] cut_offset(c, j) && cut_offset(c, j) + c[j] <= data@.len(),
            forall|j: int| 0 <= j < n
                ==> (#[trigger] chunks@[j]).length == c[j] && chunks@[j].offset == cut_offset(c, j),
            r@.len() == i,
            forall|j: int| 0 <= j < i ==> data_blob_ok(
                data@.subrange(cut_offset(c, j), cut_offset(c, j) + c[j]),
                (#[trigger] r@[j]).0,
                r@[j].1@,
                threshold as int,
            ),
            forall|j: int| 0 <= j < i ==> (#[trigger] r@[j]).0.wf()
                && r@[j].1@.len() == r@[j].0.stored_len()
                && r@[j].0.stored_len() >= 1,
        decreases n - i,
    {
        let ch = chunks[i];
        proof {
            assert(ch.offset == cut_offset(c, i as int) && ch.length == c[i as int]);
            assert(ch.offset + ch.length <= data@.len());
            assert(c[i as int] <= params.max_size as int);
            assert(ch.length < 0x8000_0000);
        }
        let piece = vstd::slice::slice_subrange(data, ch.offset, ch.offset + ch.length);
        let blob = make_data_blob(piece, threshold);
        r.push(blob);
        i += 1;
    }
    r
}

/// The four-byte little-endian rendering of a 32-bit value.
pub open spec fn u32_le(v: u32) -> Seq<u8> {
    seq![
        (v & 0xff) as u8,
        ((v >> 8) & 0xff) as u8,
        ((v >> 16) & 0xff) as u8,
        ((v >> 24) & 0xff) as u8,
    ]
}

/// The eight-byte little-endian rendering of a 64-bit value.
pub open spec fn u64_le(v: u64) -> Seq<u8> {
    seq![
        (v & 0xff) as u8,
        ((v >> 8) & 0xff) as u8,
        ((v >> 16) & 0xff) as u8,
        ((v >> 24) & 0xff) as u8,
        ((v >> 32) & 0xff) as u8,
        ((v >> 40) & 0xff) as u8,
        ((v >> 48) & 0xff) as u8,
        ((v >> 56) & 0xff) as u8,
    ]
}

pub fn push_u32_le(out: &mut Vec<u8>, v: u32)
    ensures
        final(out)@ == old(out)@ + u32_le(v),
{
    out.push((v & 0xff) as u8);
    out.push(((v >> 8) & 0xff) as u8);
    out.push(((v >> 16) & 0xff) as u8);
    out.push(((v >> 24) & 0xff) as u8);
    proof {
        assert(out@ =~= old(out)@ + u32_le(v));
    }
}

pub fn push_u64_le(out: &mut Vec<u8>, v: u64)
    ensures
        final(out)@ == old(out)@ + u64_le(v),
{
    out.push((v & 0xff) as u8);
    out.push(((v >> 8) & 0xff) as u8);
    out.push(((v >> 16) & 0xff) as u8);
    out.push(((v >> 24) & 0xff) as u8);
    out.push(((v >> 32) & 0xff) as u8);
    out.push(((v >> 40) & 0xff) as u8);
    out.push(((v >> 48) & 0xff) as u8);
    out.push(((v >> 56) & 0xff) as u8);
    proof {
        assert(out@ =~= old(out)@ + u64_le(v));
    }
}

/// One staged record in the pack header: id, kind code, plaintext length,
/// a compression flag, and the compressed length (zero when raw).
pub open spec fn entry_enc(e: PackInfoEntry) -> Seq<u8> {
    e.id@ + seq![e.kind.code_spec()] + u64_le(e.size_uncompressed as u64)
        + match e.size_compressed {
            Some(c) => seq![1u8] + u64_le(c as u64),
            None => seq![0u8] + u64_le(0u64),
        }
}

/// The records of the header, back to back in staging order.
pub open spec fn entries_enc(es: Seq<PackInfoEntry>) -> Seq<u8>
    decreases es.len(),
{
    if es.len() == 0 {
        Seq::empty()
    } else {
        entry_enc(es[0]) + entries_enc(es.subrange(1, es.len() as int))
    }
}

/// The pack header: the record count, then the records.
pub open spec fn header_spec(es: Seq<PackInfoEntry>) -> Seq<u8> {
    u64_le(es.len() as u64) + entries_enc(es)
}

pub proof fn lemma_entries_enc_snoc(es: Seq<PackInfoEntry>, e: PackInfoEntry)
    ensures
        entries_enc(es + seq![e]) == entries_enc(es) + entry_enc(e),
    decreases es.len(),
{
    let w = es + seq![e];
    if es.len() == 0 {
        assert(w =~= seq![e]);
        assert(w.subrange(1, 1).len() == 0);
        assert(entries_enc(w) == entry_enc(e) + entries_enc(w.subrange(1, 1)));
        assert(entry_enc(e) + Seq::<u8>::empty() =~= entry_enc(e));
        assert(Seq::<u8>::empty() + entry_enc(e) =~= entry_enc(e));
    } else {
        let t = es.subrange(1, es.len() as int);
        lemma_entries_enc_snoc(t, e);
        assert(w.subrange(1, w.len() as int) =~= t + seq![e]);
        assert(w[0] == es[0]);
        assert(entries_enc(w) == entry_enc(es[0]) + entries_enc(t + seq![e]));
        assert(entry_enc(es[0]) + (entries_enc(t) + entry_enc(e))
            =~= (entry_enc(es[0]) + entries_enc(t)) + entry_enc(e));
    }
}

pub proof fn lemma_entries_enc_len(es: Seq<PackInfoEntry>)
    ensures
        entries_enc(es).len() == 50 * es.len(),
    decreases es.len(),
{
    if es.len() > 0 {
        lemma_entries_enc_len(es.subrange(1, es.len() as int));
    }
}

/// Appends one record's encoding to the header being built.
fn push_entry(out: &mut Vec<u8>, e: &PackInfoEntry)
    ensures
        final(out)@ == old(out)@ + entry_enc(*e),
{
    crate::append_bytes(out, e.id.bytes.as_slice());
    out.push(e.kind.code());
    push_u64_le(out, e.size_uncompressed as u64);
    match e.size_compressed {
        Some(c) => {
            out.push(1);
            push_u64_le(out, c as u64);
        }
        None => {
            out.push(0);
            push_u64_le(out, 0);
        }
    }
    proof {
        assert(out@ =~= old(out)@ + entry_enc(*e));
    }
}

/// Serializes the header for the given staged records.
fn encode_header(es: &Vec<PackInfoEntry>) -> (r: Vec<u8>)
    requires
        es@.len() < 0x1000_0000,
    ensures
        r@ == header_spec(es@),
{
    let mut out: Vec<u8> = Vec::new();
    push_u64_le(&mut out, es.len() as u64);
    let n = es.len();
    let mut i: usize = 0;
    proof {
        assert(es@.subrange(0, 0).len() == 0);
        assert(out@ =~= u64_le(es@.len() as u64) + entries_enc(es@.subrange(0, 0)));
    }
    while i < n
        invariant
            n == es@.len(),
            i <= n,
            out@ == u64_le(es@.len() as u64) + entries_enc(es@.subrange(0, i as int)),
        decreases n - i,
    {
        let e = &es[i];
        let ghost done = es@.subrange(0, i as int);
        push_entry(&mut out, e);
        proof {
            assert(es@.subrange(0, i + 1) =~= done + seq![es@[i as int]]);
            lemma_entries_enc_snoc(done, es@[i as int]);
        }
        i += 1;
    }
    proof {
        assert(es@.subrange(0, n as int) =~= es@);
    }
    out
}

/// The sum of the on-disk lengths of a list of staged records.
pub open spec fn entries_stored_sum(es: Seq<PackInfoEntry>) -> int
    decreases es.len(),
{
    if es.len() == 0 {
        0
    } else {
        es[0].stored_len() + entries_stored_sum(es.subrange(1, es.len() as int))
    }
}

/// The offset of blob `i` in the pack body: the stored lengths before it.
pub open spec fn entry_offset(es: Seq<PackInfoEntry>, i: int) -> int {
    entries_stored_sum(es.subrange(0, i))
}

pub proof fn lemma_stored_sum_snoc(es: Seq<PackInfoEntry>, e: PackInfoEntry)
    ensures
        entries_stored_sum(es + seq![e]) == entries_stored_sum(es) + e.stored_len(),
    decreases es.len(),
{
    let w = es + seq![e];
    if es.len() == 0 {
        assert(w =~= seq![e]);
        assert(w.subrange(1, 1).len() == 0);
        assert(entries_stored_sum(w) == e.stored_len() + entries_stored_sum(w.subrange(1, 1)));
    } else {
        let t = es.subrange(1, es.len() as int);
        lemma_stored_sum_snoc(t, e);
        assert(w.subrange(1, w.len() as int) =~= t + seq![e]);
        assert(entries_stored_sum(w) == w[0].stored_len() + entries_stored_sum(t + seq![e]));
    }
}

/// The blob offsets and stored lengths tile the pack body exactly: the
/// first blob starts at zero, each next blob starts where the previous one
/// ends, and the last ends at the body's total size — no gaps, no overlaps.
pub proof fn lemma_pack_offsets(es: Seq<PackInfoEntry>)
    requires
        forall|i: int| 0 <= i < es.len() ==> (#[trigger] es[i]).stored_len() >= 0,
    ensures
        entry_offset(es, 0) == 0,
        entry_offset(es, es.len() as int) == entries_stored_sum(es),
        forall|i: int| 0 <= i < es.len()
            ==> #[trigger] entry_offset(es, i + 1) == entry_offset(es, i) + es[i].stored_len(),
        forall|i: int| 0 <= i <= es.len()
            ==> 0 <= #[trigger] entry_offset(es, i) <= entries_stored_sum(es),
    decreases es.len(),
{
    assert(es.subrange(0, 0).len() == 0);
    assert(es.subrange(0, es.len() as int) =~= es);
    if es.len() > 0 {
        let t = es.subrange(1, es.len() as int);
        lemma_pack_offsets(t);
        assert forall|i: int| 0 <= i < es.len()
            implies #[trigger] entry_offset(es, i + 1) == entry_offset(es, i) + es[i].stored_len() by {
            assert(es.subrange(0, i + 1) =~= es.subrange(0, i) + seq![es[i]]);
            lemma_stored_sum_snoc(es.subrange(0, i), es[i]);
        }
        assert forall|i: int| 0 <= i <= es.len()
            implies 0 <= #[trigger] entry_offset(es, i) <= entries_stored_sum(es) by {
            if i >= 1 {
                assert(es.subrange(0, i) =~= seq![es[0]] + t.subrange(0, i - 1));
                lemma_stored_sum_cons(es[0], t.subrange(0, i - 1));
                assert(entry_offset(t, i - 1) == entries_stored_sum(t.subrange(0, i - 1)));
                assert(entries_stored_sum(es) == es[0].stored_len() + entries_stored_sum(t));
            }
        }
    }
}

proof fn lemma_stored_sum_cons(e: PackInfoEntry, es: Seq<PackInfoEntry>)
    ensures
        entries_stored_sum(seq![e] + es) == e.stored_len() + entries_stored_sum(es),
{
    let w = seq![e] + es;
    assert(w.len() > 0);
    assert(w[0] == e);
    assert(w.subrange(1, w.len() as int) =~= es);
}

/// Accumulates blobs into one size-bounded pack: staged records, their
/// bytes back to back, and the running size.
pub struct Packer {
    entries: Vec<PackInfoEntry>,
    buffer: Vec<u8>,
    size: usize,
    staged: Ghost<Seq<Seq<u8>>>,
}

impl Packer {
    /// The staged records, in insertion order.
    pub closed spec fn entries_view(&self) -> Seq<PackInfoEntry> {
        self.entries@
    }

    /// The pack body accumulated so far.
    pub closed spec fn buffer_view(&self) -> Seq<u8> {
        self.buffer@
    }

    /// The byte strings handed to `add_blob`, in insertion order.
    pub closed spec fn staged_view(&self) -> Seq<Seq<u8>> {
        self.staged@
    }

    pub closed spec fn size_spec(&self) -> int {
        self.size as int
    }

    /// The packer's invariant: the body is exactly the staged byte strings
    /// back to back, each at the offset its record's predecessors dictate.
    pub closed spec fn wf(&self) -> bool {
        &&& self.buffer@.len() == self.size
        &&& self.size == entries_stored_sum(self.entries@)
        &&& self.size <= PACK_SIZE_MAX
        &&& self.staged@.len() == self.entries@.len()
        &&& forall|i: int| 0 <= i < self.entries@.len()
            ==> (#[trigger] self.entries@[i]).wf()
        &&& forall|i: int| 0 <= i < self.entries@.len()
            ==> (#[trigger] self.staged@[i]).len() == self.entries@[i].stored_len()
        &&& forall|i: int| 0 <= i < self.entries@.len()
            ==> self.buffer@.subrange(
                    entry_offset(self.entries@, i),
                    entry_offset(self.entries@, i) + self.entries@[i].stored_len(),
                ) == #[trigger] self.staged@[i]
    }

    /// A well-formed packer's body is exactly covered by its staged
    /// records: the stored lengths sum to the body length, the offsets
    /// tile it from zero with no gaps or overlaps, and the bytes at each
    /// record's range are that blob's staged bytes.
    pub proof fn lemma_body_partition(&self)
        requires
            self.wf(),
        ensures
            self.buffer_view().len() == entries_stored_sum(self.entries_view()),
            self.size_spec() == entries_stored_sum(self.entries_view()),
            self.size_spec() <= PACK_SIZE_MAX,
            entry_offset(self.entries_view(), 0) == 0,
            entry_offset(self.entries_view(), self.entries_view().len() as int)
                == self.buffer_view().len(),
            forall|i: int| 0 <= i < self.entries_view().len()
                ==> #[trigger] entry_offset(self.entries_view(), i + 1)
                    == entry_offset(self.entries_view(), i)
                        + self.entries_view()[i].stored_len(),
            forall|i: int| 0 <= i < self.entries_view().len()
                ==> self.buffer_view().subrange(
                        entry_offset(self.entries_view(), i),
                        entry_offset(self.entries_view(), i)
                            + self.entries_view()[i].stored_len(),
                    ) == #[trigger] self.staged_view()[i],
    {
        lemma_pack_offsets(self.entries@);
    }

    pub fn new() -> (r: Packer)
        ensures
            r.wf(),
            r.entries_view().len() == 0,
            r.buffer_view().len() == 0,
            r.size_spec() == 0,
    {
        let r = Packer {
            entries: Vec::new(),
            buffer: Vec::new(),
            size: 0,
            staged: Ghost(Seq::empty()),
        };
        r
    }

    /// True once the pack has reached the soft target size.
    pub fn should_pack(&self) -> (r: bool)
        ensures
            r == (self.size_spec() >= PACK_SIZE_TARGET),
    {
        self.size >= PACK_SIZE_TARGET
    }

    /// How many bytes may still be added before the hard cap.
    pub fn free_space(&self) -> (r: usize)
        requires
            self.wf(),
        ensures
            r == PACK_SIZE_MAX - self.size_spec(),
    {
        PACK_SIZE_MAX - self.size
    }

    /// Stages one blob: appends its bytes to the body and its record to the
    /// staging list. Refused, with nothing changed, exactly when the bytes
    /// would push the pack past the hard cap.
    pub fn add_blob(&mut self, entry: PackInfoEntry, data: &[u8]) -> (r: Result<(), VaultError>)
        requires
            old(self).wf(),
            entry.wf(),
            data@.len() == entry.stored_len(),
        ensures
            final(self).wf(),
            r is Ok <==> old(self).size_spec() + data@.len() <= PACK_SIZE_MAX,
            r matches Err(e) ==> e == VaultError::Capacity && *final(self) == *old(self),
            r is Ok ==> {
                &&& final(self).entries_view() == old(self).entries_view() + seq![entry]
                &&& final(self).buffer_view() == old(self).buffer_view() + data@
                &&& final(self).staged_view() == old(self).staged_view() + seq![data@]
                &&& final(self).size_spec() == old(self).size_spec() + data@.len()
            },
    {
        if data.len() > PACK_SIZE_MAX - self.size {
            return Err(VaultError::Capacity);
        }
        proof {
            lemma_pack_offsets(self.entries@);
        }
        let ghost old_entries = self.entries@;
        let ghost old_buffer = self.buffer@;
        let ghost old_staged = self.staged@;
        self.entries.push(entry);
        crate::append_bytes(&mut self.buffer, data);
        self.size = self.size + data.len();
        proof {
            self.staged@ = old_staged + seq![data@];
        }
        proof {
            let es = self.entries@;
            assert(es =~= old_entries + seq![entry]);
            lemma_stored_sum_snoc(old_entries, entry);
            assert(es.subrange(0, old_entries.len() as int) =~= old_entries);
            lemma_pack_offsets(es);
            lemma_pack_offsets(old_entries);
            assert forall|i: int| 0 <= i < es.len()
                implies self.buffer@.subrange(
                    entry_offset(es, i),
                    entry_offset(es, i) + es[i].stored_len(),
                ) == #[trigger] self.staged@[i] by {
                if i < old_entries.len() {
                    assert(es.subrange(0, i) =~= old_entries.subrange(0, i));
                    assert(entry_offset(es, i) == entry_offset(old_entries, i));
                    assert(es[i] == old_entries[i]);
                    assert(entry_offset(old_entries, i) + old_entries[i].stored_len()
                        == entry_offset(old_entries, i + 1));
                    assert(entry_offset(old_entries, i + 1) <= entries_stored_sum(old_entries));
                    assert(entries_stored_sum(old_entries) == old_buffer.len());
                    assert(self.buffer@ == old_buffer + data@);
                    assert(self.buffer@.subrange(
                        entry_offset(es, i),
                        entry_offset(es, i) + es[i].stored_len(),
                    ) =~= old_buffer.subrange(
                        entry_offset(old_entries, i),
                        entry_offset(old_entries, i) + old_entries[i].stored_len(),
                    ));
                } else {
                    assert(i == old_entries.len());
                    assert(es.subrange(0, i) =~= old_entries);
                    assert(entry_offset(es, i) == entries_stored_sum(old_entries));
                    assert(self.buffer@.subrange(
                        entry_offset(es, i),
                        entry_offset(es, i) + es[i].stored_len(),
                    ) =~= data@);
                }
            }
        }
        Ok(())
    }

    /// Finalizes the pack: assigns each staged blob its offset as the sum
    /// of the stored lengths before it and serializes the staging list as
    /// the header. The pack's on-disk tail is the *sealed* header — the
    /// sealed-blob format reused, so a reader can recover the nonce: a
    /// 32-byte nonce, the stream-encrypted header, and the 32-byte tag —
    /// followed by a little-endian 32-bit trailer counting that whole
    /// sealed region (nonce, ciphertext and tag together). The header
    /// never appears in clear, and the tail varies with the drawn nonce;
    /// the body — the first `size` bytes — is exactly the staged bytes,
    /// unchanged, and the pack is named by the hash of the whole buffer.
    /// Refused without change when the record count overflows what the
    /// trailer can describe, or when no randomness was to be had.
    pub fn finish(&mut self, key: &Key) -> (r: Result<(IndexPackInfo, Vec<u8>), VaultError>)
        requires
            old(self).wf(),
        ensures
            final(self).wf(),
            r matches Err(e) ==> *final(self) == *old(self)
                && (if old(self).entries_view().len() > PACK_HEADER_MAX_ENTRIES {
                    e == VaultError::Capacity
                } else {
                    e == VaultError::Random
                }),
            old(self).entries_view().len() > PACK_HEADER_MAX_ENTRIES ==> r is Err,
            r matches Ok(out) ==> {
                let info = out.0;
                let bytes = out.1;
                let es = old(self).entries_view();
                &&& info.blobs@.len() == es.len()
                &&& forall|i: int| 0 <= i < es.len() ==> {
                    let ib = #[trigger] info.blobs@[i];
                    &&& ib.id == es[i].id
                    &&& ib.kind == es[i].kind
                    &&& ib.offset == entry_offset(es, i)
                    &&& ib.length == es[i].stored_len()
                    &&& ib.length_uncompressed == (match es[i].size_compressed {
                        Some(_) => Some(es[i].size_uncompressed),
                        None => None::<usize>,
                    })
                }
                &&& bytes@.len() >= old(self).size_spec()
                &&& bytes@.subrange(0, old(self).size_spec()) == old(self).buffer_view()
                &&& forall|i: int| 0 <= i < es.len()
                    ==> bytes@.subrange(
                            entry_offset(es, i),
                            entry_offset(es, i) + es[i].stored_len(),
                        ) == #[trigger] old(self).staged_view()[i]
                &&& exists|n: Seq<u8>| n.len() == 32 && bytes@ == old(self).buffer_view()
                    + seal_spec_of_header(es, key@, n)
                    + u32_le(seal_spec_of_header(es, key@, n).len() as u32)
                &&& info.id@ == blake3_of(bytes@)
                &&& final(self).entries_view().len() == 0
                &&& final(self).buffer_view().len() == 0
                &&& final(self).size_spec() == 0
            },
    {
        if self.entries.len() > PACK_HEADER_MAX_ENTRIES {
            return Err(VaultError::Capacity);
        }
        proof {
            lemma_pack_offsets(self.entries@);
            lemma_entries_enc_len(self.entries@);
        }
        let mut ies: Vec<IndexBlobInfo> = Vec::new();
        let n = self.entries.len();
        let mut cursor: usize = 0;
        let mut i: usize = 0;
        while i < n
            invariant
                self.wf(),
                n == self.entries@.len(),
                i <= n,
                cursor == entry_offset(self.entries@, i as int),
                cursor <= self.size,
                ies@.len() == i,
                forall|j: int| 0 <= j < i ==> {
                    let ib = #[trigger] ies@[j];
                    let es = self.entries@;
                    &&& ib.id == es[j].id
                    &&& ib.kind == es[j].kind
                    &&& ib.offset == entry_offset(es, j)
                    &&& ib.length == es[j].stored_len()
                    &&& ib.length_uncompressed == (match es[j].size_compressed {
                        Some(_) => Some(es[j].size_uncompressed),
                        None => None::<usize>,
                    })
                },
            decreases n - i,
        {
            proof {
                lemma_pack_offsets(self.entries@);
            }
            let e = &self.entries[i];
            let length = e.stored_len_ex();
            let lu = match e.size_compressed {
                Some(_) => Some(e.size_uncompressed),
                None => None,
            };
            let ib = IndexBlobInfo {
                id: e.id,
                kind: e.kind,
                offset: cursor,
                length,
                length_uncompressed: lu,
            };
            ies.push(ib);
            proof {
                assert(self.entries@.subrange(0, i + 1)
                    =~= self.entries@.subrange(0, i as int) + seq![self.entries@[i as int]]);
                lemma_stored_sum_snoc(self.entries@.subrange(0, i as int), self.entries@[i as int]);
                assert(cursor + length == entry_offset(self.entries@, i + 1));
                assert(entry_offset(self.entries@, i + 1) <= entries_stored_sum(self.entries@));
            }
            cursor = cursor + length;
            i += 1;
        }

        let header = encode_header(&self.entries);
        proof {
            assert(header@.len() == 8 + 50 * self.entries@.len());
            assert(self.entries@.len() <= PACK_HEADER_MAX_ENTRIES);
        }
        let sealed = match crate::code::seal_blob(header.as_slice(), key) {
            Ok(s) => s,
            Err(e) => {
                return Err(e);
            }
        };
        let ghost old_entries = self.entries@;
        let ghost old_buffer = self.buffer@;
        let ghost old_staged = self.staged@;
        let ghost nonce_w = choose|nw: Seq<u8>|
            nw.len() == 32 && sealed@ == crate::code::seal_spec(header@, key@, nw);
        proof {
            assert(sealed@.len() == 64 + header@.len());
        }

        let mut out: Vec<u8> = Vec::new();
        crate::append_bytes(&mut out, self.buffer.as_slice());
        crate::append_bytes(&mut out, sealed.as_slice());
        push_u32_le(&mut out, sealed.len() as u32);

        let id = hash_bytes(out.as_slice());
        self.entries = Vec::new();
        self.buffer = Vec::new();
        self.size = 0;
        proof {
            self.staged@ = Seq::empty();
        }
        let info = IndexPackInfo { id, blobs: ies };
        proof {
            assert(out@.subrange(0, old_buffer.len() as int) =~= old_buffer);
            lemma_pack_offsets(old_entries);
            assert forall|j: int| 0 <= j < old_entries.len()
                implies out@.subrange(
                    entry_offset(old_entries, j),
                    entry_offset(old_entries, j) + old_entries[j].stored_len(),
                ) == #[trigger] old_staged[j] by {
                assert(entry_offset(old_entries, j) + old_entries[j].stored_len()
                    == entry_offset(old_entries, j + 1));
                assert(entry_offset(old_entries, j + 1) <= entries_stored_sum(old_entries));
                assert(entries_stored_sum(old_entries) == old_buffer.len());
                assert(out@.subrange(
                    entry_offset(old_entries, j),
                    entry_offset(old_entries, j) + old_entries[j].stored_len(),
                ) =~= old_buffer.subrange(
                    entry_offset(old_entries, j),
                    entry_offset(old_entries, j) + old_entries[j].stored_len(),
                ));
            }
            assert(out@ =~= old_buffer + seal_spec_of_header(old_entries, key@, nonce_w)
                + u32_le(seal_spec_of_header(old_entries, key@, nonce_w).len() as u32));
            assert(nonce_w.len() == 32 && out@ == old_buffer
                + seal_spec_of_header(old_entries, key@, nonce_w)
                + u32_le(seal_spec_of_header(old_entries, key@, nonce_w).len() as u32));
            assert(self.entries@.subrange(0, 0).len() == 0);
        }
        Ok((info, out))
    }
}

/// The sealed header a finished pack carries for its staged records.
pub open spec fn seal_spec_of_header(es: Seq<PackInfoEntry>, key: Seq<u8>, nonce: Seq<u8>) -> Seq<u8> {
    crate::code::seal_spec(header_spec(es), key, nonce)
}

} // verus!
