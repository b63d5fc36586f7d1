use packvault::pack::{Packer, PACK_SIZE_MAX, PACK_SIZE_TARGET};
use packvault::types::{BlobKind, Key, PackInfoEntry};
use packvault::code::unseal_blob;
use packvault::VaultError;

fn key() -> Key {
    Key { bytes: [3u8; 32] }
}

fn entry_for(data: &[u8]) -> PackInfoEntry {
    PackInfoEntry {
        id: packvault::hash::Hash { bytes: *blake3::hash(data).as_bytes() },
        kind: BlobKind::Data,
        size_uncompressed: data.len(),
        size_compressed: None,
    }
}

#[test]
fn finish_partitions_the_body_and_reproduces_the_blobs() {
    let mut p = Packer::new();
    let blobs: Vec<Vec<u8>> = vec![
        b"first blob".to_vec(),
        b"the second".to_vec(),
        vec![0xCD; 300],
    ];
    for b in &blobs {
        p.add_blob(entry_for(b), b).unwrap();
    }
    let (info, bytes) = p.finish(&key()).unwrap();
    assert_eq!(info.blobs.len(), 3);
    let mut cursor = 0usize;
    for (ib, original) in info.blobs.iter().zip(blobs.iter()) {
        assert_eq!(ib.offset, cursor);
        assert_eq!(ib.length, original.len());
        assert_eq!(&bytes[ib.offset..ib.offset + ib.length], original.as_slice());
        assert_eq!(ib.id.bytes, *blake3::hash(original).as_bytes());
        assert_eq!(ib.length_uncompressed, None);
        cursor += ib.length;
    }
    // the pack is named by the hash of its full byte buffer
    assert_eq!(info.id.bytes, *blake3::hash(&bytes).as_bytes());
}

#[test]
fn trailer_names_the_sealed_header_which_authenticates() {
    let mut p = Packer::new();
    let body = b"lonely blob".to_vec();
    p.add_blob(entry_for(&body), &body).unwrap();
    let k = key();
    let (_info, bytes) = p.finish(&k).unwrap();
    let n = bytes.len();
    let trailer = u32::from_le_bytes([bytes[n - 4], bytes[n - 3], bytes[n - 2], bytes[n - 1]]) as usize;
    let sealed = &bytes[n - 4 - trailer..n - 4];
    let header = unseal_blob(sealed, &k).unwrap();
    // the header opens with the number of staged records
    let count = u64::from_le_bytes(header[..8].try_into().unwrap());
    assert_eq!(count, 1);
    // each record is fifty bytes wide
    assert_eq!(header.len(), 8 + 50);
    // and the body sits before the sealed header
    assert_eq!(&bytes[..body.len()], body.as_slice());
    // a tampered header fails authentication
    let mut bad = sealed.to_vec();
    bad[40] ^= 0x80;
    assert_eq!(unseal_blob(&bad, &k), Err(VaultError::Authentication));
}

#[test]
fn capacity_is_enforced_exactly_at_the_hard_cap() {
    let mut p = Packer::new();
    let big = vec![7u8; PACK_SIZE_MAX];
    p.add_blob(entry_for(&big), &big).unwrap();
    assert_eq!(p.free_space(), 0);
    let one = vec![1u8];
    assert_eq!(p.add_blob(entry_for(&one), &one), Err(VaultError::Capacity));
    // the refused add changed nothing: finishing still yields one blob
    let (info, _bytes) = p.finish(&key()).unwrap();
    assert_eq!(info.blobs.len(), 1);
}

#[test]
fn should_pack_signals_at_the_soft_target() {
    let mut p = Packer::new();
    assert!(!p.should_pack());
    let chunk = vec![9u8; PACK_SIZE_TARGET];
    p.add_blob(entry_for(&chunk), &chunk).unwrap();
    assert!(p.should_pack());
    assert_eq!(p.free_space(), PACK_SIZE_MAX - PACK_SIZE_TARGET);
}

#[test]
fn finish_resets_the_packer_for_reuse() {
    let mut p = Packer::new();
    let a = b"pack one".to_vec();
    p.add_blob(entry_for(&a), &a).unwrap();
    let (info1, bytes1) = p.finish(&key()).unwrap();
    assert_eq!(info1.blobs.len(), 1);
    let b = b"pack two, different".to_vec();
    p.add_blob(entry_for(&b), &b).unwrap();
    let (info2, bytes2) = p.finish(&key()).unwrap();
    assert_eq!(info2.blobs.len(), 1);
    assert_eq!(&bytes2[..b.len()], b.as_slice());
    assert_ne!(info1.id, info2.id);
    assert!(!bytes1.is_empty());
}

#[test]
fn compressed_entries_carry_their_plaintext_length() {
    let mut p = Packer::new();
    let stored = vec![1u8; 40];
    let entry = PackInfoEntry {
        id: packvault::hash::Hash { bytes: [0xAA; 32] },
        kind: BlobKind::DataZstd3,
        size_uncompressed: 100,
        size_compressed: Some(40),
    };
    p.add_blob(entry, &stored).unwrap();
    let (info, _) = p.finish(&key()).unwrap();
    assert_eq!(info.blobs[0].length, 40);
    assert_eq!(info.blobs[0].length_uncompressed, Some(100));
    assert!(matches!(info.blobs[0].kind, BlobKind::DataZstd3));
}

#[test]
fn empty_blobs_are_accepted_and_tile_with_zero_length() {
    let mut p = Packer::new();
    let empty: Vec<u8> = Vec::new();
    p.add_blob(entry_for(&empty), &empty).unwrap();
    let body = b"x".to_vec();
    p.add_blob(entry_for(&body), &body).unwrap();
    let (info, bytes) = p.finish(&key()).unwrap();
    assert_eq!(info.blobs.len(), 2);
    assert_eq!(info.blobs[0].offset, 0);
    assert_eq!(info.blobs[0].length, 0);
    assert_eq!(info.blobs[1].offset, 0);
    assert_eq!(info.blobs[1].length, 1);
    assert_eq!(&bytes[..1], b"x");
}
