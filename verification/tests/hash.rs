use dedup::hash::{
    fast_hash_hex, fast_hash_plan, full_hash_hex, md5_hex, ContentHasher, Md5Hasher,
    FAST_HASH_CHUNK_SIZE,
};

#[test]
fn hash_test_fast_hash_small_file() {
    let content = b"hello world";
    let plan = fast_hash_plan(content.len() as u64);
    assert_eq!(plan.head_len, 11);
    assert_eq!(plan.tail_start, None);

    let hash = fast_hash_hex(&content[..plan.head_len as usize], &[]);

    assert!(!hash.is_empty());
    assert_eq!(hash.len(), 64);
}

#[test]
fn hash_test_full_hash() {
    let hash = full_hash_hex(b"hello world");

    assert!(!hash.is_empty());
    assert_eq!(hash.len(), 64);
}

#[test]
fn hash_test_same_content_same_hash() {
    let content = b"identical content for testing";
    let hash1 = full_hash_hex(content);
    let hash2 = full_hash_hex(content);

    assert_eq!(hash1, hash2);
}

#[test]
fn test_different_content_different_hash() {
    let hash1 = full_hash_hex(b"content A");
    let hash2 = full_hash_hex(b"content B");

    assert_ne!(hash1, hash2);
}

#[test]
fn test_fast_hash_large_file() {
    let data = vec![0u8; 200 * 1024];
    let plan = fast_hash_plan(data.len() as u64);
    assert_eq!(plan.head_len, 65536);
    assert_eq!(plan.tail_start, Some(200 * 1024 - 65536));
    let tail = &data[plan.tail_start.unwrap() as usize..];

    let hash = fast_hash_hex(&data[..plan.head_len as usize], tail);

    assert!(!hash.is_empty());
    assert_eq!(hash.len(), 64);
}

#[test]
fn test_md5_hash() {
    let hash = md5_hex(b"hello");

    assert_eq!(hash.len(), 32);
    assert_eq!(hash, "5d41402abc4b2a76b9719d911017c592");
}

#[test]
fn full_hash_is_blake3_in_lower_hex() {
    let expected = blake3::hash(b"hello world").to_hex().to_string();
    assert_eq!(full_hash_hex(b"hello world"), expected);
    let empty = blake3::hash(b"").to_hex().to_string();
    assert_eq!(full_hash_hex(b""), empty);
    assert_eq!(empty, "af1349b9f5f9a1a6a0404dea36dcc9499bcb25c9adc112b7cc9a93cae41f3262");
}

#[test]
fn hashing_in_pieces_equals_hashing_whole() {
    let content: Vec<u8> = (0..5000u32).map(|i| (i % 251) as u8).collect();
    let mut h = ContentHasher::new();
    for piece in content.chunks(777) {
        h.update(piece);
    }
    assert_eq!(h.finish_hex(), full_hash_hex(&content));

    let mut m = Md5Hasher::new();
    m.update(&content[..1000]);
    m.update(&content[1000..]);
    assert_eq!(m.finish_hex(), md5_hex(&content));
}

#[test]
fn fast_hash_plan_edges() {
    let p = fast_hash_plan(0);
    assert_eq!((p.head_len, p.tail_start), (0, None));
    let p = fast_hash_plan(FAST_HASH_CHUNK_SIZE);
    assert_eq!((p.head_len, p.tail_start), (65536, None));
    let p = fast_hash_plan(2 * FAST_HASH_CHUNK_SIZE);
    assert_eq!((p.head_len, p.tail_start), (65536, None));
    let p = fast_hash_plan(2 * FAST_HASH_CHUNK_SIZE + 1);
    assert_eq!((p.head_len, p.tail_start), (65536, Some(65537)));
}

#[test]
fn small_file_fast_hash_is_full_hash() {
    let content = b"some small file";
    assert_eq!(fast_hash_hex(content, &[]), full_hash_hex(content));
}

#[test]
fn fast_hash_covers_head_and_tail() {
    let mut content = vec![1u8; 300_000];
    let expected = {
        let mut v = content[..65536].to_vec();
        v.extend_from_slice(&content[300_000 - 65536..]);
        blake3::hash(&v).to_hex().to_string()
    };
    assert_eq!(fast_hash_hex(&content[..65536], &content[300_000 - 65536..]), expected);
    content[100_000] = 9;
    assert_eq!(fast_hash_hex(&content[..65536], &content[300_000 - 65536..]), expected);
}

#[test]
fn md5_of_empty_input() {
    assert_eq!(md5_hex(b""), "d41d8cd98f00b204e9800998ecf8427e");
    assert_eq!(md5_hex(b"hello"), format!("{:x}", md5::compute(b"hello")));
}
