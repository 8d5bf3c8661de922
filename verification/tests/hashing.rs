use ddup::hash::{fuzzy_hash, fuzzy_hash_chunks, fuzzy_offsets, hash_chunks, strict_hash, CHUNK_SIZE};

#[test]
fn strict_hash_matches_the_crc_check_value() {
    // The catalogue check value of CRC-32/ISO-HDLC.
    let r = strict_hash(&b"123456789".to_vec());
    assert_eq!(r, 0xCBF43926);
}

#[test]
fn strict_hash_agrees_with_the_crc_crate() {
    let data: Vec<u8> = (0..10_000u32).map(|i| (i % 256) as u8).collect();
    let direct = crc::Crc::<u32>::new(&crc::CRC_32_ISO_HDLC).checksum(&data);
    assert_eq!(strict_hash(&data), direct);
}

#[test]
fn empty_content_hashes_to_zero() {
    assert_eq!(strict_hash(&Vec::new()), 0);
    assert_eq!(fuzzy_hash(&Vec::new()), 0);
}

#[test]
fn fuzzy_digest_matches_the_crc64_check_value() {
    // A 9-byte content is covered entirely by the tail block, so its fuzzy
    // digest is the plain CRC-64/XZ of the bytes: the catalogue check value.
    assert_eq!(fuzzy_hash(&b"123456789".to_vec()), 0x995DC9BBDF1939FA);
}

#[test]
fn fuzzy_offsets_follow_the_doubling_stride() {
    assert_eq!(fuzzy_offsets(0), Vec::<u64>::new());
    assert_eq!(fuzzy_offsets(4096), Vec::<u64>::new());
    assert_eq!(fuzzy_offsets(4097), vec![0]);
    assert_eq!(fuzzy_offsets(20000), vec![0, 8192]);
    assert_eq!(fuzzy_offsets(60000), vec![0, 8192, 24576]);
}

#[test]
fn fuzzy_read_volume_is_logarithmic() {
    let size: u64 = 16 * 1024 * 1024;
    let offsets = fuzzy_offsets(size);
    // With n sampled chunks the content exceeds (2^n - 1) * 4096 bytes.
    assert!((1u64 << offsets.len()) - 1 < size / CHUNK_SIZE + 1);
    assert!(offsets.len() <= 13);
    let read_bytes = (offsets.len() as u64 + 1) * CHUNK_SIZE;
    assert!(read_bytes <= 4096 * 14);
}

#[test]
fn fuzzy_hash_equals_hash_of_gathered_chunks() {
    // Reading the planned chunks plus the tail block out of the content and
    // digesting them piecewise gives the digest of the in-memory content.
    let content: Vec<u8> = (0..50_000u32).map(|i| (i * 7 % 256) as u8).collect();
    let size = content.len() as u64;
    let mut chunks: Vec<Vec<u8>> = Vec::new();
    for o in fuzzy_offsets(size) {
        let start = o as usize;
        chunks.push(content[start..start + CHUNK_SIZE as usize].to_vec());
    }
    let tail = CHUNK_SIZE.min(size) as usize;
    chunks.push(content[content.len() - tail..].to_vec());
    assert_eq!(fuzzy_hash_chunks(&chunks), fuzzy_hash(&content));
}

#[test]
fn fuzzy_ignores_bytes_between_samples() {
    let mut a = vec![0u8; 40_000];
    let b = a.clone();
    let base = fuzzy_hash(&b);
    // [4096, 8192) lies between the first two samples.
    for i in 4096..8192 {
        a[i] = 0xFF;
    }
    assert_eq!(fuzzy_hash(&a), base);
    // [0, 4096) is the first sample.
    a[0] = 0xFF;
    assert_ne!(fuzzy_hash(&a), base);
}

#[test]
fn hash_chunks_depends_only_on_the_concatenation() {
    let one = vec![b"abcdef".to_vec()];
    let split = vec![b"abc".to_vec(), b"def".to_vec()];
    assert_eq!(hash_chunks(&one), hash_chunks(&split));
    assert_eq!(hash_chunks(&one), strict_hash(&b"abcdef".to_vec()));
}
