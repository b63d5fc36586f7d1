use vstd::prelude::*;

pub mod backup;
pub mod chunk;
pub mod code;
pub mod encode;
pub mod forest;
pub mod hash;
pub mod pack;
pub mod types;
pub mod useg;

verus! {

/// The ways an operation of this library can fail.
#[derive(Debug, Clone, Copy, PartialEq, Eq, Structural)]
pub enum VaultError {
    /// Adding a blob would push a pack past the hard size cap.
    Capacity,
    /// A forest operation named a path with no open branch.
    UnknownPath,
    /// A tree was opened twice at the same path.
    AlreadyOpen,
    /// A tree was finalized twice, or written to after finalization.
    AlreadyFinalized,
    /// Some opened tree was never finalized.
    Unfinished,
    /// A tree already holds a node with the given name.
    DuplicateName,
    /// A sealed blob failed tag verification.
    Authentication,
    /// A sealed blob is too short to hold nonce and tag.
    Malformed,
    /// The operating system would not supply random bytes.
    Random,
}

/// Appends the given bytes to the end of a byte vector.
pub fn append_bytes(dst: &mut Vec<u8>, src: &[u8])
    ensures
        final(dst)@ == old(dst)@ + src@,
{
    let n = src.len();
    let mut i: usize = 0;
    while i < n
        invariant
            n == src@.len(),
            i <= n,
            dst@ == old(dst)@ + src@.subrange(0, i as int),
        decreases n - i,
    {
        dst.push(*vstd::slice::slice_index_get(src, i));
        proof {
            assert(dst@ =~= old(dst)@ + src@.subrange(0, i + 1));
        }
        i += 1;
    }
    proof {
        assert(dst@ =~= old(dst)@ + src@);
    }
}

} // verus!

