use vstd::prelude::*;
use crate::useg::{USeg, UPath};

verus! {

/// Symmetric secret material from which per-purpose subkeys are derived.
#[derive(Debug, Clone, Copy)]
pub struct Key {
    pub bytes: [u8; 32],
}

impl Key {
    pub open spec fn view(&self) -> Seq<u8> {
        self.bytes@
    }
}

/// How a blob's bytes are stored on disk.
#[derive(Debug, Clone, Copy, PartialEq, Eq, Structural)]
pub enum BlobKind {
    /// A serialized directory tree, stored raw.
    Tree,
    /// A data chunk, stored raw.
    Data,
    /// A data chunk, stored zstd-compressed.
    DataZstd3,
}

impl BlobKind {
    /// The stable numeric code of the kind in the pack header.
    pub open spec fn code_spec(&self) -> u8 {
        match self {
            BlobKind::Tree => 1,
            BlobKind::Data => 2,
            BlobKind::DataZstd3 => 3,
        }
    }

    pub fn code(&self) -> (r: u8)
        ensures
            r == self.code_spec(),
    {
        match self {
            BlobKind::Tree => 1,
            BlobKind::Data => 2,
            BlobKind::DataZstd3 => 3,
        }
    }
}

/// Per-blob staging record held by the packer before finalization.
#[derive(Debug, Clone, Copy)]
pub struct PackInfoEntry {
    pub id: crate::hash::Hash,
    pub kind: BlobKind,
    pub size_uncompressed: usize,
    /// Present exactly when compression was applied and made the blob smaller.
    pub size_compressed: Option<usize>,
}

impl PackInfoEntry {
    /// The number of bytes this blob occupies inside the pack body.
    pub open spec fn stored_len(&self) -> int {
        match self.size_compressed {
            Some(c) => c as int,
            None => self.size_uncompressed as int,
        }
    }

    /// Compression is recorded only when it strictly helped.
    pub open spec fn wf(&self) -> bool {
        match self.size_compressed {
            Some(c) => 0 < c < self.size_uncompressed,
            None => true,
        }
    }

    pub fn stored_len_ex(&self) -> (r: usize)
        ensures
            r == self.stored_len(),
    {
        match self.size_compressed {
            Some(c) => c,
            None => self.size_uncompressed,
        }
    }
}

/// The ordered list of staged blob records a pack header describes.
#[derive(Debug, Clone)]
pub struct PackInfo {
    pub blobs: Vec<PackInfoEntry>,
}

/// Per-blob durable record after pack finalization.
#[derive(Debug, Clone, Copy)]
pub struct IndexBlobInfo {
    pub id: crate::hash::Hash,
    pub kind: BlobKind,
    /// Byte offset of the blob within the pack body.
    pub offset: usize,
    /// On-disk length of the blob within the pack body.
    pub length: usize,
    /// The plaintext length; absent when the blob is stored raw.
    pub length_uncompressed: Option<usize>,
}

/// One pack's identity plus its ordered blob records.
#[derive(Debug, Clone)]
pub struct IndexPackInfo {
    pub id: crate::hash::Hash,
    pub blobs: Vec<IndexBlobInfo>,
}

/// One backup run's accumulated pack records, plus the hashes of prior
/// indexes this one supersedes.
#[derive(Debug, Clone)]
pub struct Index {
    pub supersedes: Vec<crate::hash::Hash>,
    pub packs: Vec<IndexPackInfo>,
}

/// The variant payload of a directory entry.
#[derive(Debug, Clone)]
pub enum NodeKind {
    File { content: Vec<crate::hash::Hash> },
    Dir { subtree: crate::hash::Hash },
    Symlink { link_target: UPath, links: u64 },
}

/// One directory entry: a name, POSIX-style metadata, and a payload.
/// A tree holds at most one node per name.
#[derive(Debug, Clone)]
pub struct Node {
    pub name: USeg,
    pub mode: u32,
    pub mtime: i64,
    pub atime: i64,
    pub ctime: i64,
    pub uid: u32,
    pub gid: u32,
    pub user: String,
    pub inode: u64,
    pub kind: NodeKind,
}

/// One directory's contents at a point in time: nodes sorted by name,
/// names strictly increasing (so no duplicates).
#[derive(Debug, Clone)]
pub struct Tree {
    pub nodes: Vec<Node>,
}

impl Tree {
    /// Names strictly increase in byte order: sorted and duplicate-free.
    pub open spec fn wf(&self) -> bool {
        forall|i: int, j: int| 0 <= i < j < self.nodes@.len()
            ==> crate::useg::lex_lt(self.nodes@[i].name@, self.nodes@[j].name@)
    }
}

/// The version tag of the serialized pack and index encodings.
#[derive(Debug, Clone, Copy, PartialEq, Eq, Structural)]
pub enum UnpackedEncoding {
    V1,
}

/// The repository format version.
#[derive(Debug, Clone, Copy, PartialEq, Eq, Structural)]
pub enum RepositoryVersion {
    V1,
}

/// Repository identity: format version plus a random 16-byte identifier.
#[derive(Debug, Clone, Copy)]
pub struct Config {
    pub version: RepositoryVersion,
    pub id: [u8; 16],
}

/// The shape of a password-derived-key wrapping record.
#[derive(Debug, Clone)]
pub struct Recipe {
    pub hostname: String,
    pub username: String,
    pub kdf: Kdf,
    pub created: i64,
    pub data: Vec<u8>,
    pub salt: Vec<u8>,
}

/// Parameters of the password-based key derivation.
#[derive(Debug, Clone, Copy)]
pub enum Kdf {
    Scrypt { n: i32, r: i32, p: i32 },
}

/// Point-in-time metadata tying a backup run to a root tree hash.
#[derive(Debug, Clone)]
pub struct Snapshot {
    pub time: i64,
    pub tree: crate::hash::Hash,
    pub paths: Vec<UPath>,
    pub hostname: String,
    pub username: String,
    pub uid: u32,
    pub gid: u32,
    pub tags: Vec<String>,
    pub original: Option<crate::hash::Hash>,
}

} // verus!
