use vstd::prelude::*;
use chacha20::cipher::{KeyIvInit, StreamCipher, StreamCipherSeek};
use crate::hash::{blake3_derive_of, blake3_keyed_of, derive_key32, keyed_hash32};
use crate::types::Key;
use crate::VaultError;

verus! {

/// The byte at the given position of the ChaCha12 keystream for a key and
/// a 12-byte cipher nonce.
pub uninterp spec fn chacha12_byte(key: Seq<u8>, iv: Seq<u8>, pos: int) -> u8;

/// The given bytes XORed with the ChaCha12 keystream starting at `off`.
pub open spec fn xor_keystream(key: Seq<u8>, iv: Seq<u8>, off: int, data: Seq<u8>) -> Seq<u8> {
    Seq::new(data.len(), |i: int| data[i] ^ chacha12_byte(key, iv, off + i))
}

/// XORing twice with the same keystream returns the original bytes.
pub proof fn lemma_xor_keystream_involutive(key: Seq<u8>, iv: Seq<u8>, off: int, data: Seq<u8>)
    ensures
        xor_keystream(key, iv, off, xor_keystream(key, iv, off, data)) == data,
{
    let once = xor_keystream(key, iv, off, data);
    let twice = xor_keystream(key, iv, off, once);
    assert forall|i: int| 0 <= i < data.len() implies twice[i] == data[i] by {
        let s = chacha12_byte(key, iv, off + i);
        let d = data[i];
        assert((d ^ s) ^ s == d) by (bit_vector);
    }
    assert(twice =~= data);
}

/// Relies on chacha20::ChaCha12 with cipher::StreamCipherSeek: the keystream
/// is a function of key, nonce and position alone, and apply_keystream XORs
/// it into the buffer. The span must stay within what the 32-bit block
/// counter can produce: the wrapper computes the remaining stream as
/// u32::MAX minus the block position, so the last 64-byte block is out of
/// reach and a span touching it makes the call panic.
#[verifier::external_body]
fn chacha12_apply(key: &[u8; 32], iv: &[u8], off: u64, buf: &mut Vec<u8>)
    requires
        iv@.len() == 12,
        off + old(buf)@.len() <= 0x3F_FFFF_FFC0,
    ensures
        final(buf)@.len() == old(buf)@.len(),
        forall|i: int| 0 <= i < old(buf)@.len()
            ==> final(buf)@[i] == old(buf)@[i] ^ chacha12_byte(key@, iv@, off + i),
{
    let mut cipher = chacha20::ChaCha12::new(key.into(), iv.try_into().unwrap());
    cipher.seek(off);
    cipher.apply_keystream(buf.as_mut_slice());
}

/// Relies on getrandom::fill to supply fresh random bytes; nothing is
/// assumed of the values it wrote.
#[verifier::external_body]
fn random_bytes32() -> (r: Option<[u8; 32]>)
{
    let mut nonce = [0u8; 32];
    match getrandom::fill(&mut nonce) {
        Ok(()) => Some(nonce),
        Err(_) => None,
    }
}

/// The encryption subkey: a function of the repository key alone.
pub open spec fn enc_key_of(key: Seq<u8>) -> Seq<u8> {
    blake3_derive_of("encryption"@, key)
}

/// The authentication subkey: a function of the repository key and the
/// per-sealing nonce, so every sealed blob authenticates under its own key.
pub open spec fn auth_key_of(key: Seq<u8>, nonce: Seq<u8>) -> Seq<u8> {
    blake3_derive_of("authentication"@, nonce + key)
}

pub fn derive_encryption_key(key: &Key) -> (r: [u8; 32])
    ensures
        r@ == enc_key_of(key@),
{
    derive_key32("encryption", key.bytes.as_slice())
}

pub fn derive_authentication_key(key: &Key, nonce: &[u8]) -> (r: [u8; 32])
    requires
        nonce@.len() == 32,
    ensures
        r@ == auth_key_of(key@, nonce@),
{
    let mut material: Vec<u8> = Vec::new();
    crate::append_bytes(&mut material, nonce);
    crate::append_bytes(&mut material, key.bytes.as_slice());
    derive_key32("authentication", material.as_slice())
}

/// The cipher nonce: the fixed-size prefix of the sealing nonce.
pub fn derive_cipher_nonce(nonce: &[u8]) -> (r: Vec<u8>)
    requires
        nonce@.len() == 32,
    ensures
        r@ == nonce@.subrange(0, 12),
{
    let pre = vstd::slice::slice_subrange(nonce, 0, 12);
    let r = vstd::slice::slice_to_vec(pre);
    r
}

/// The sealed form of a plaintext under a key and a 32-byte nonce:
/// nonce, then the ciphertext (keystream starting past the nonce's width),
/// then the keyed-hash tag over nonce and ciphertext.
pub open spec fn seal_spec(plain: Seq<u8>, key: Seq<u8>, nonce: Seq<u8>) -> Seq<u8> {
    let ct = xor_keystream(enc_key_of(key), nonce.subrange(0, 12), 32, plain);
    let body = nonce + ct;
    body + blake3_keyed_of(auth_key_of(key, nonce), body)
}

/// What unsealing yields: the plaintext when the blob is well formed and its
/// tag verifies over nonce and ciphertext, nothing otherwise.
pub open spec fn unseal_spec(data: Seq<u8>, key: Seq<u8>) -> Option<Seq<u8>> {
    if data.len() < 64 {
        None
    } else {
        let nonce = data.subrange(0, 32);
        let body = data.subrange(0, data.len() - 32);
        let tag = data.subrange(data.len() - 32, data.len() as int);
        if tag == blake3_keyed_of(auth_key_of(key, nonce), body) {
            Some(xor_keystream(enc_key_of(key), nonce.subrange(0, 12), 32,
                data.subrange(32, data.len() - 32)))
        } else {
            None
        }
    }
}

/// Seals a plaintext under the given nonce, per `seal_spec`.
pub fn seal_blob_with_nonce(plain: &[u8], key: &Key, nonce: &[u8]) -> (r: Vec<u8>)
    requires
        nonce@.len() == 32,
        plain@.len() < 0x20_0000_0000,
    ensures
        r@ == seal_spec(plain@, key@, nonce@),
        r@.len() == plain@.len() + 64,
{
    let e_key = derive_encryption_key(key);
    let a_key = derive_authentication_key(key, nonce);
    let cn = derive_cipher_nonce(nonce);

    let mut ct: Vec<u8> = vstd::slice::slice_to_vec(plain);
    chacha12_apply(&e_key, cn.as_slice(), 32, &mut ct);
    proof {
        assert(ct@ =~= xor_keystream(enc_key_of(key@), nonce@.subrange(0, 12), 32, plain@));
    }

    let mut buf: Vec<u8> = Vec::new();
    crate::append_bytes(&mut buf, nonce);
    crate::append_bytes(&mut buf, ct.as_slice());
    let mac = keyed_hash32(&a_key, buf.as_slice());
    crate::append_bytes(&mut buf, mac.bytes.as_slice());
    proof {
        assert(buf@ =~= seal_spec(plain@, key@, nonce@));
    }
    buf
}

/// Seals a plaintext under a fresh random nonce. Whatever nonce came back,
/// the result is the sealed form of the plaintext under it.
pub fn seal_blob(plain: &[u8], key: &Key) -> (r: Result<Vec<u8>, VaultError>)
    requires
        plain@.len() < 0x20_0000_0000,
    ensures
        r matches Ok(s) ==> exists|n: Seq<u8>|
            n.len() == 32 && s@ == seal_spec(plain@, key@, n),
        r matches Ok(s) ==> s@.len() == plain@.len() + 64,
        r matches Err(e) ==> e == VaultError::Random,
{
    match random_bytes32() {
        Some(nonce) => {
            let s = seal_blob_with_nonce(plain, key, nonce.as_slice());
            proof {
                assert(nonce@.len() == 32 && s@ == seal_spec(plain@, key@, nonce@));
            }
            Ok(s)
        }
        None => Err(VaultError::Random),
    }
}

/// Compares two equal-length byte strings without an early exit, folding
/// the difference of every position into one accumulator.
pub fn ct_bytes_eq(a: &[u8], b: &[u8]) -> (r: bool)
    requires
        a@.len() == b@.len(),
    ensures
        r == (a@ == b@),
{
    let n = a.len();
    let mut diff: u8 = 0;
    let mut i: usize = 0;
    while i < n
        invariant
            n == a@.len(),
            n == b@.len(),
            i <= n,
            (diff == 0) <==> (forall|j: int| 0 <= j < i ==> a@[j] == b@[j]),
        decreases n - i,
    {
        let x = a[i];
        let y = b[i];
        let d0 = diff;
        diff = diff | (x ^ y);
        proof {
            let dn = diff;
            assert(dn == 0 <==> (d0 == 0 && x == y)) by (bit_vector)
                requires dn == d0 | (x ^ y);
        }
        i += 1;
    }
    if diff == 0 {
        proof {
            assert(a@ =~= b@);
        }
        true
    } else {
        assert(a@ != b@);
        false
    }
}

/// Unseals a blob: verifies the tag over nonce and ciphertext in constant
/// time before any decryption, then decrypts, per `unseal_spec`.
pub fn unseal_blob(data: &[u8], key: &Key) -> (r: Result<Vec<u8>, VaultError>)
    requires
        data@.len() < 0x20_0000_0000,
    ensures
        r matches Ok(p) ==> unseal_spec(data@, key@) == Some(p@),
        r is Ok <==> unseal_spec(data@, key@) is Some,
        r matches Err(e) ==> (if data@.len() < 64 {
            e == VaultError::Malformed
        } else {
            e == VaultError::Authentication
        }),
{
    let n = data.len();
    if n < 64 {
        return Err(VaultError::Malformed);
    }
    let nonce = vstd::slice::slice_subrange(data, 0, 32);
    let body = vstd::slice::slice_subrange(data, 0, n - 32);
    let tag = vstd::slice::slice_subrange(data, n - 32, n);

    let a_key = derive_authentication_key(key, nonce);
    let mac = keyed_hash32(&a_key, body);
    if !ct_bytes_eq(mac.bytes.as_slice(), tag) {
        return Err(VaultError::Authentication);
    }

    let e_key = derive_encryption_key(key);
    let cn = derive_cipher_nonce(nonce);
    let ct = vstd::slice::slice_subrange(data, 32, n - 32);
    let mut pt: Vec<u8> = vstd::slice::slice_to_vec(ct);
    chacha12_apply(&e_key, cn.as_slice(), 32, &mut pt);
    proof {
        assert(nonce@.subrange(0, 12) =~= data@.subrange(0, 32).subrange(0, 12));
        assert(pt@ =~= xor_keystream(enc_key_of(key@), data@.subrange(0, 32).subrange(0, 12), 32,
            data@.subrange(32, data@.len() - 32)));
    }
    Ok(pt)
}

/// Unsealing a sealed blob under the same key returns the plaintext.
/// The tag a sealed blob carries is 32 bytes wide, which every call of the
/// keyed-hash wrapper establishes of `blake3_keyed_of`.
pub proof fn lemma_unseal_seal(plain: Seq<u8>, key: Seq<u8>, nonce: Seq<u8>)
    requires
        nonce.len() == 32,
        blake3_keyed_of(
            auth_key_of(key, nonce),
            nonce + xor_keystream(enc_key_of(key), nonce.subrange(0, 12), 32, plain),
        ).len() == 32,
    ensures
        unseal_spec(seal_spec(plain, key, nonce), key) == Some(plain),
{
    let ct = xor_keystream(enc_key_of(key), nonce.subrange(0, 12), 32, plain);
    let body = nonce + ct;
    let tag = blake3_keyed_of(auth_key_of(key, nonce), body);
    let sealed = body + tag;
    assert(sealed.len() == 64 + plain.len());
    assert(sealed.subrange(0, 32) =~= nonce);
    assert(sealed.subrange(0, sealed.len() - 32) =~= body);
    assert(sealed.subrange(sealed.len() - 32, sealed.len() as int) =~= tag);
    assert(sealed.subrange(32, sealed.len() - 32) =~= ct);
    lemma_xor_keystream_involutive(enc_key_of(key), nonce.subrange(0, 12), 32, plain);
}

/// Altering the trailing tag of a sealed blob, while leaving nonce and
/// ciphertext as they were, makes unsealing fail.
pub proof fn lemma_tag_tamper_detected(plain: Seq<u8>, key: Seq<u8>, nonce: Seq<u8>, tampered: Seq<u8>)
    requires
        nonce.len() == 32,
        blake3_keyed_of(
            auth_key_of(key, nonce),
            nonce + xor_keystream(enc_key_of(key), nonce.subrange(0, 12), 32, plain),
        ).len() == 32,
        tampered.len() == seal_spec(plain, key, nonce).len(),
        tampered.subrange(0, tampered.len() - 32)
            == seal_spec(plain, key, nonce).subrange(0, seal_spec(plain, key, nonce).len() - 32),
        tampered.subrange(tampered.len() - 32, tampered.len() as int)
            != seal_spec(plain, key, nonce).subrange(
                seal_spec(plain, key, nonce).len() - 32, seal_spec(plain, key, nonce).len() as int),
    ensures
        unseal_spec(tampered, key) is None,
{
    let ct = xor_keystream(enc_key_of(key), nonce.subrange(0, 12), 32, plain);
    let body = nonce + ct;
    let tag = blake3_keyed_of(auth_key_of(key, nonce), body);
    let sealed = body + tag;
    assert(sealed.len() == 64 + plain.len());
    assert(sealed.subrange(0, sealed.len() - 32) =~= body);
    assert(sealed.subrange(sealed.len() - 32, sealed.len() as int) =~= tag);
    assert(sealed.subrange(0, 32) =~= nonce);
    assert(tampered.subrange(0, 32) =~= nonce);
    assert(tampered.subrange(0, tampered.len() - 32) == body);
    assert(tampered.subrange(tampered.len() - 32, tampered.len() as int) != tag);
}

} // verus!
