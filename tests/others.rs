use bitcask::balancer::ServerManager;
use bitcask::bloom::{hash, BloomFilter};
use bitcask::sse::format_sse_data;

#[test]
fn test_bloom_filter_add_exists() {
    let mut filter = BloomFilter::new(24);

    let key1 = "80a64dad-de92-4e06-b2e4-1a00136d0c73";
    let key2 = "aman";

    assert!(!filter.key_exists(key1));
    assert!(!filter.key_exists(key2));

    filter.add(key1);

    assert!(filter.key_exists(key1));
    assert!(!filter.key_exists(key2));

    filter.add(key2);

    assert!(filter.key_exists(key1));
    assert!(filter.key_exists(key2));
}

#[test]
fn bloom_hash_uses_murmur3() {
    let h = murmurhash3::murmurhash3_x86_32(b"aman", 48221234) as usize;
    assert_eq!(hash("aman", 24), h % 24);
    assert_eq!(hash("aman", 1), 0);
}

#[test]
fn round_robin_cycles() {
    let mut m = ServerManager::new(vec!["a".to_string(), "b".to_string(), "c".to_string()]);
    let got: Vec<String> = (0..7).map(|_| m.get_next_server()).collect();
    assert_eq!(got, vec!["a", "b", "c", "a", "b", "c", "a"]);
}

#[test]
fn sse_framing() {
    let mut data = b"hello".to_vec();
    let framed = format_sse_data(&mut data);
    assert_eq!(framed, b"data: hello\n\n".to_vec());
    assert!(data.is_empty());
    let mut empty = Vec::new();
    assert_eq!(format_sse_data(&mut empty), b"data: \n\n".to_vec());
}
