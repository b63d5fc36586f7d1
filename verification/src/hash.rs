use vstd::prelude::*;

verus! {

/// The digest blake3::hash computes for the given input bytes.
pub uninterp spec fn blake3_of(data: Seq<u8>) -> Seq<u8>;

/// The subkey blake3::derive_key computes for the given context and material.
pub uninterp spec fn blake3_derive_of(context: Seq<char>, material: Seq<u8>) -> Seq<u8>;

/// The digest blake3::keyed_hash computes for the given key and input bytes.
pub uninterp spec fn blake3_keyed_of(key: Seq<u8>, data: Seq<u8>) -> Seq<u8>;

/// A 32-byte cryptographic digest: the universal content identifier.
/// Equal content gives an equal `Hash`.
#[derive(Debug, Clone, Copy, PartialEq, Eq, PartialOrd, Ord, Hash)]
pub struct Hash {
    pub bytes: [u8; 32],
}

impl Hash {
    /// A hash is its 32 bytes.
    pub open spec fn view(&self) -> Seq<u8> {
        self.bytes@
    }

    /// The digest rendered as lowercase hexadecimal text, two digits per byte.
    pub fn to_hex(&self) -> (r: String)
        ensures
            r@ == hex_chars_of(self@),
    {
        let hx = hex_bytes(&self.bytes);
        proof {
            assert forall|i: int| 0 <= i < hx@.len() implies hx@[i] < 128 by {
                assert(hx@[i] == hex_ascii_of(self@)[i]);
            }
        }
        let s = ascii_to_string(hx);
        proof {
            assert(s@ =~= hex_chars_of(self@));
        }
        s
    }
}

/// Equality of two digests, byte by byte.
pub fn hash_eq(a: &Hash, b: &Hash) -> (r: bool)
    ensures
        r == (a@ == b@),
{
    let mut i: usize = 0;
    while i < 32
        invariant
            i <= 32,
            forall|j: int| 0 <= j < i ==> a.bytes@[j] == b.bytes@[j],
        decreases 32 - i,
    {
        if a.bytes[i] != b.bytes[i] {
            assert(a@ != b@);
            return false;
        }
        i += 1;
    }
    assert(a@ =~= b@);
    true
}

/// Relies on blake3::hash: the digest is a function of the input bytes alone.
#[verifier::external_body]
pub(crate) fn hash_bytes(data: &[u8]) -> (r: Hash)
    ensures
        r@ == blake3_of(data@),
{
    Hash { bytes: *blake3::hash(data).as_bytes() }
}

/// Relies on blake3::derive_key: the subkey is a function of the context
/// string and key material alone, and is 32 bytes long.
#[verifier::external_body]
pub(crate) fn derive_key32(context: &str, material: &[u8]) -> (r: [u8; 32])
    ensures
        r@ == blake3_derive_of(context@, material@),
{
    blake3::derive_key(context, material)
}

/// Relies on blake3::keyed_hash: the digest is a function of the key and
/// the input bytes alone.
#[verifier::external_body]
pub(crate) fn keyed_hash32(key: &[u8; 32], data: &[u8]) -> (r: Hash)
    ensures
        r@ == blake3_keyed_of(key@, data@),
{
    Hash { bytes: *blake3::keyed_hash(key, data).as_bytes() }
}

/// Relies on String::from_utf8: bytes below 128 are valid UTF-8 and decode
/// one to one to the chars with the same code points.
#[verifier::external_body]
fn ascii_to_string(bytes: Vec<u8>) -> (r: String)
    requires
        forall|i: int| 0 <= i < bytes@.len() ==> bytes@[i] < 128,
    ensures
        r@.len() == bytes@.len(),
        forall|i: int| 0 <= i < bytes@.len() ==> r@[i] == bytes@[i] as char,
{
    String::from_utf8(bytes).unwrap()
}

/// The ASCII code of the hexadecimal digit for a value below 16.
pub open spec fn hex_digit_of(n: int) -> u8 {
    if n < 10 {
        (48 + n) as u8
    } else {
        (87 + n) as u8
    }
}

/// The hexadecimal rendering of a byte sequence, as ASCII codes.
pub open spec fn hex_ascii_of(bytes: Seq<u8>) -> Seq<u8> {
    Seq::new(bytes.len() * 2, |i: int|
        if i % 2 == 0 {
            hex_digit_of(bytes[i / 2] as int / 16)
        } else {
            hex_digit_of(bytes[i / 2] as int % 16)
        })
}

/// The hexadecimal rendering of a byte sequence, as text.
pub open spec fn hex_chars_of(bytes: Seq<u8>) -> Seq<char> {
    hex_ascii_of(bytes).map(|i: int, b: u8| b as char)
}

fn hex_digit(n: u8) -> (r: u8)
    requires
        n < 16,
    ensures
        r == hex_digit_of(n as int),
{
    if n < 10 {
        48 + n
    } else {
        87 + n
    }
}

/// Renders bytes as lowercase hexadecimal ASCII, two digits per byte.
pub fn hex_bytes(bytes: &[u8]) -> (r: Vec<u8>)
    ensures
        r@ == hex_ascii_of(bytes@),
{
    let n = bytes.len();
    let mut r: Vec<u8> = Vec::new();
    let mut i: usize = 0;
    while i < n
        invariant
            n == bytes@.len(),
            i <= n,
            r@.len() == 2 * i,
            forall|j: int| 0 <= j < 2 * i ==> r@[j] == hex_ascii_of(bytes@)[j],
        decreases n - i,
    {
        let b = bytes[i];
        r.push(hex_digit(b / 16));
        r.push(hex_digit(b % 16));
        i += 1;
    }
    proof {
        assert(r@ =~= hex_ascii_of(bytes@));
    }
    r
}

} // verus!
