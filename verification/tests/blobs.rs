use packvault::pack::{make_data_blob, unstore_blob, split_to_data_blobs, BLOB_COMPRESSION_THRESHOLD};
use packvault::chunk::ChunkerParams;
use packvault::types::BlobKind;

#[test]
fn blob_id_is_the_hash_of_the_plaintext() {
    // compressible payload: stored compressed, hashed uncompressed
    let compressible = vec![0u8; 1000];
    let (entry, stored) = make_data_blob(&compressible, BLOB_COMPRESSION_THRESHOLD);
    assert_eq!(entry.id.bytes, *blake3::hash(&compressible).as_bytes());
    assert!(matches!(entry.kind, BlobKind::DataZstd3));
    assert!(stored.len() < compressible.len());
    assert_eq!(entry.size_uncompressed, 1000);
    assert_eq!(entry.size_compressed, Some(stored.len()));
}

#[test]
fn small_payloads_stay_raw() {
    let small = b"tiny".to_vec();
    let (entry, stored) = make_data_blob(&small, BLOB_COMPRESSION_THRESHOLD);
    assert!(matches!(entry.kind, BlobKind::Data));
    assert_eq!(stored, small);
    assert_eq!(entry.size_compressed, None);
    assert_eq!(entry.id.bytes, *blake3::hash(&small).as_bytes());
}

#[test]
fn incompressible_payloads_stay_raw() {
    // already-compressed-looking bytes: zstd cannot shrink them
    let mut data = Vec::with_capacity(4096);
    let mut x: u64 = 0x12345;
    for _ in 0..4096 {
        x = x.wrapping_mul(6364136223846793005).wrapping_add(999);
        data.push((x >> 33) as u8);
    }
    let incompressible = zstd::bulk::compress(&data, zstd::DEFAULT_COMPRESSION_LEVEL).unwrap();
    let (entry, stored) = make_data_blob(&incompressible, BLOB_COMPRESSION_THRESHOLD);
    assert!(matches!(entry.kind, BlobKind::Data));
    assert_eq!(stored, incompressible);
    assert_eq!(entry.size_compressed, None);
}

#[test]
fn decompressing_a_compressed_blob_reproduces_the_original() {
    let original: Vec<u8> = (0..2000u32).map(|i| (i % 7) as u8).collect();
    let (entry, stored) = make_data_blob(&original, BLOB_COMPRESSION_THRESHOLD);
    assert!(matches!(entry.kind, BlobKind::DataZstd3));
    let back = unstore_blob(&entry.kind, &stored, entry.size_uncompressed).unwrap();
    assert_eq!(back, original);
}

#[test]
fn raw_blobs_unstore_to_themselves() {
    let data = b"raw bytes".to_vec();
    let back = unstore_blob(&BlobKind::Data, &data, data.len()).unwrap();
    assert_eq!(back, data);
    let back_tree = unstore_blob(&BlobKind::Tree, &data, data.len()).unwrap();
    assert_eq!(back_tree, data);
}

#[test]
fn same_bytes_give_same_identity_wherever_they_appear() {
    let payload = vec![42u8; 500];
    let (a, _) = make_data_blob(&payload, BLOB_COMPRESSION_THRESHOLD);
    // a different threshold changes the stored form, never the identity
    let (b, stored_raw) = make_data_blob(&payload, 10_000);
    assert!(matches!(b.kind, BlobKind::Data));
    assert_eq!(stored_raw, payload);
    assert_eq!(a.id, b.id);
}

#[test]
fn split_to_data_blobs_identifies_each_chunk() {
    let params = ChunkerParams { min_size: 8, max_size: 64, mask: 0xC000_0000_0000_0000 };
    let mut data = Vec::new();
    let mut x: u64 = 5;
    for _ in 0..1000 {
        x = x.wrapping_mul(6364136223846793005).wrapping_add(1);
        data.push((x >> 56) as u8);
    }
    let blobs = split_to_data_blobs(&data, &params, BLOB_COMPRESSION_THRESHOLD);
    assert!(blobs.len() > 1);
    let mut cursor = 0usize;
    for (entry, stored) in &blobs {
        let piece = &data[cursor..cursor + entry.size_uncompressed];
        assert_eq!(entry.id.bytes, *blake3::hash(piece).as_bytes());
        let back = unstore_blob(&entry.kind, stored, entry.size_uncompressed).unwrap();
        assert_eq!(back, piece);
        cursor += entry.size_uncompressed;
    }
    assert_eq!(cursor, data.len());
}

#[test]
fn stored_form_is_the_reference_compression() {
    let data = vec![9u8; 5000];
    let (entry, stored) = make_data_blob(&data, BLOB_COMPRESSION_THRESHOLD);
    assert!(matches!(entry.kind, BlobKind::DataZstd3));
    let reference = zstd::bulk::compress(&data, zstd::DEFAULT_COMPRESSION_LEVEL).unwrap();
    assert_eq!(stored, reference);
}
