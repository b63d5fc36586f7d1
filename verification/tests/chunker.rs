use packvault::chunk::{Chunk, ChunkerParams, split, CHUNK_MAX_SIZE, CHUNK_MIN_SIZE};

fn small_params() -> ChunkerParams {
    // two high mask bits: a boundary roughly every fourth position
    ChunkerParams { min_size: 8, max_size: 64, mask: 0xC000_0000_0000_0000 }
}

fn pseudo_random(len: usize, seed: u64) -> Vec<u8> {
    let mut v = Vec::with_capacity(len);
    let mut x = seed | 1;
    for _ in 0..len {
        x = x.wrapping_mul(6364136223846793005).wrapping_add(1442695040888963407);
        v.push((x >> 56) as u8);
    }
    v
}

#[test]
fn splitting_twice_gives_identical_boundaries() {
    let data = pseudo_random(4096, 7);
    let p = small_params();
    let a = split(&data, &p);
    let b = split(&data, &p);
    assert_eq!(a, b);
}

#[test]
fn chunks_partition_the_stream() {
    let data = pseudo_random(5000, 99);
    let p = small_params();
    let chunks = split(&data, &p);
    let mut cursor = 0usize;
    for c in &chunks {
        assert_eq!(c.offset, cursor);
        assert!(c.length >= 1);
        cursor += c.length;
    }
    assert_eq!(cursor, data.len());
    // reassembling the chunks reproduces the stream
    let mut rebuilt = Vec::new();
    for c in &chunks {
        rebuilt.extend_from_slice(&data[c.offset..c.offset + c.length]);
    }
    assert_eq!(rebuilt, data);
}

#[test]
fn size_bounds_hold() {
    let data = pseudo_random(10000, 3);
    let p = small_params();
    let chunks = split(&data, &p);
    assert!(chunks.len() > 1);
    for (i, c) in chunks.iter().enumerate() {
        assert!(c.length <= p.max_size);
        if i + 1 < chunks.len() {
            assert!(c.length >= p.min_size);
        }
    }
}

#[test]
fn empty_stream_has_no_chunks() {
    let p = small_params();
    let chunks: Vec<Chunk> = split(&[], &p);
    assert!(chunks.is_empty());
}

#[test]
fn short_stream_is_one_final_chunk_below_minimum() {
    let p = small_params();
    let chunks = split(&[1, 2, 3], &p);
    assert_eq!(chunks.len(), 1);
    assert_eq!(chunks[0].offset, 0);
    assert_eq!(chunks[0].length, 3);
}

#[test]
fn insertion_only_disturbs_chunks_near_the_edit() {
    let base = pseudo_random(8000, 42);
    let k = 6000usize;
    let mut edited = base.clone();
    edited.insert(k, 0xAB);
    let p = small_params();
    let a = split(&base, &p);
    let b = split(&edited, &p);
    // chunks that end more than one maximum width before the edit agree
    let mut ai = 0usize;
    let mut end = 0usize;
    while ai < a.len() && end + a[ai].length + p.max_size <= k {
        end += a[ai].length;
        ai += 1;
    }
    assert!(ai > 0, "expected at least one stable chunk before the edit");
    for i in 0..ai {
        assert_eq!(a[i], b[i]);
    }
}

#[test]
fn standard_parameters_are_the_documented_defaults() {
    let p = ChunkerParams::standard();
    assert_eq!(p.min_size, CHUNK_MIN_SIZE);
    assert_eq!(p.max_size, CHUNK_MAX_SIZE);
    assert_eq!(CHUNK_MIN_SIZE, 512 * 1024);
    assert_eq!(CHUNK_MAX_SIZE, 2 * 1024 * 1024);
    // a four-megabyte uniform stream must be forced apart at the maximum
    let data = vec![0u8; 4 * 1024 * 1024];
    let chunks = split(&data, &p);
    for c in &chunks {
        assert!(c.length <= p.max_size);
    }
    assert!(chunks.len() >= 2);
}
