use chacha20::cipher::{KeyIvInit, StreamCipher, StreamCipherSeek};
use packvault::code::{seal_blob, seal_blob_with_nonce, unseal_blob, derive_cipher_nonce, ct_bytes_eq};
use packvault::types::Key;
use packvault::VaultError;

fn key() -> Key {
    let mut bytes = [0u8; 32];
    for (i, b) in bytes.iter_mut().enumerate() {
        *b = i as u8;
    }
    Key { bytes }
}

#[test]
fn seal_unseal_round_trip() {
    let k = key();
    let plain = b"the quick brown fox jumps over the lazy dog".to_vec();
    let sealed = seal_blob(&plain, &k).unwrap();
    assert_eq!(sealed.len(), plain.len() + 64);
    let opened = unseal_blob(&sealed, &k).unwrap();
    assert_eq!(opened, plain);
}

#[test]
fn seal_unseal_round_trip_empty() {
    let k = key();
    let sealed = seal_blob(&[], &k).unwrap();
    assert_eq!(sealed.len(), 64);
    let opened = unseal_blob(&sealed, &k).unwrap();
    assert!(opened.is_empty());
}

#[test]
fn sealing_with_a_fixed_nonce_is_deterministic() {
    let k = key();
    let nonce = [7u8; 32];
    let a = seal_blob_with_nonce(b"payload", &k, &nonce);
    let b = seal_blob_with_nonce(b"payload", &k, &nonce);
    assert_eq!(a, b);
    assert_eq!(&a[..32], &nonce);
}

#[test]
fn ciphertext_differs_from_plaintext() {
    let k = key();
    let nonce = [9u8; 32];
    let plain = b"secret secret secret".to_vec();
    let sealed = seal_blob_with_nonce(&plain, &k, &nonce);
    assert_ne!(&sealed[32..32 + plain.len()], plain.as_slice());
}

#[test]
fn flipping_any_bit_fails_authentication() {
    let k = key();
    let plain = b"integrity matters".to_vec();
    let sealed = seal_blob(&plain, &k).unwrap();
    for byte in 0..sealed.len() {
        for bit in 0..8 {
            let mut t = sealed.clone();
            t[byte] ^= 1 << bit;
            match unseal_blob(&t, &k) {
                Err(VaultError::Authentication) => {}
                other => panic!("tampered blob was not rejected: {:?}", other),
            }
        }
    }
}

#[test]
fn wrong_key_fails_authentication() {
    let k = key();
    let mut k2 = key();
    k2.bytes[0] ^= 1;
    let sealed = seal_blob(b"data", &k).unwrap();
    assert_eq!(unseal_blob(&sealed, &k2), Err(VaultError::Authentication));
}

#[test]
fn short_blobs_are_malformed() {
    let k = key();
    assert_eq!(unseal_blob(&[0u8; 63], &k), Err(VaultError::Malformed));
    assert_eq!(unseal_blob(&[], &k), Err(VaultError::Malformed));
}

#[test]
fn cipher_nonce_is_the_prefix() {
    let nonce: Vec<u8> = (0u8..32).collect();
    let cn = derive_cipher_nonce(&nonce);
    assert_eq!(cn.as_slice(), &nonce[..12]);
}

#[test]
fn constant_time_compare_agrees_with_equality() {
    assert!(ct_bytes_eq(b"same bytes", b"same bytes"));
    assert!(!ct_bytes_eq(b"same bytes", b"same bytex"));
    assert!(ct_bytes_eq(b"", b""));
}

#[test]
fn sealed_layout_matches_the_primitives() {
    let k = key();
    let nonce = [0x11u8; 32];
    let plain = b"known answer".to_vec();
    let sealed = seal_blob_with_nonce(&plain, &k, &nonce);

    // subkeys as the library derives them
    let e_key = packvault::code::derive_encryption_key(&k);
    let a_key = packvault::code::derive_authentication_key(&k, &nonce);
    assert_eq!(e_key, blake3::derive_key("encryption", &k.bytes));
    let mut material = nonce.to_vec();
    material.extend_from_slice(&k.bytes);
    assert_eq!(a_key, blake3::derive_key("authentication", &material));

    // ciphertext: the keystream past the nonce's width, applied directly
    let mut expected_ct = plain.clone();
    let iv: [u8; 12] = nonce[..12].try_into().unwrap();
    let mut cipher = chacha20::ChaCha12::new(&e_key.into(), &iv.into());
    cipher.seek(32u64);
    cipher.apply_keystream(&mut expected_ct);
    assert_eq!(&sealed[32..32 + plain.len()], expected_ct.as_slice());

    // tag: keyed hash over nonce and ciphertext
    let body = &sealed[..32 + plain.len()];
    let tag = blake3::keyed_hash(&a_key, body);
    assert_eq!(&sealed[32 + plain.len()..], tag.as_bytes());
}
