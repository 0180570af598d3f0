use objstore::chunker::BodyChunker;
use objstore::codec::{parse_u64, put_response, uuid_from_str, uuid_hex};
use objstore::hashing::hash_bytes;
use objstore::strlex::{str_eq, str_lt, str_starts_with};
use objstore::sub::{K2VItem, K2VItemPartition, PollKey, PollRange};
use objstore::Uuid;
use std::collections::HashMap;

#[test]
fn chunker_round_trip() {
    let body = b"ABCDEFGHIJ".to_vec();
    let mut chunker = BodyChunker::new(body.clone(), 4);
    let mut collected: Vec<u8> = Vec::new();
    let mut sizes: Vec<usize> = Vec::new();
    while let Some(block) = chunker.next() {
        sizes.push(block.len());
        collected.extend_from_slice(&block);
    }
    assert_eq!(collected, body);
    assert_eq!(sizes, vec![4, 4, 2]);
}

#[test]
fn chunker_empty_body_yields_nothing() {
    let mut chunker = BodyChunker::new(Vec::new(), 8);
    assert!(chunker.next().is_none());
}

#[test]
fn chunker_block_size_one() {
    let mut chunker = BodyChunker::new(b"ab".to_vec(), 1);
    assert_eq!(chunker.next().unwrap(), b"a".to_vec());
    assert_eq!(chunker.next().unwrap(), b"b".to_vec());
    assert!(chunker.next().is_none());
}

#[test]
fn chunker_exact_multiple() {
    let mut chunker = BodyChunker::new(b"abcdef".to_vec(), 3);
    assert_eq!(chunker.next().unwrap(), b"abc".to_vec());
    assert_eq!(chunker.next().unwrap(), b"def".to_vec());
    assert!(chunker.next().is_none());
}

#[test]
fn sha256_of_known_input() {
    let h = hash_bytes(b"hello");
    assert_eq!(
        uuid_hex(&h),
        "2cf24dba5fb0a30e26e83b2ac5b9e29e1b161e5c1fa7425e73043362938b9824"
    );
}

#[test]
fn hex_uuid_round_trip() {
    let u: Uuid = [
        0x00, 0x01, 0x02, 0x03, 0x04, 0x05, 0x06, 0x07, 0x08, 0x09, 0x0a, 0x0b, 0x0c, 0x0d, 0x0e,
        0x0f, 0x10, 0x11, 0x12, 0x13, 0x14, 0x15, 0x16, 0x17, 0x18, 0x19, 0x1a, 0x1b, 0x1c, 0x1d,
        0x1e, 0xff,
    ];
    let s = uuid_hex(&u);
    assert_eq!(&s[..8], "00010203");
    assert_eq!(&s[62..], "ff");
    assert_eq!(uuid_from_str(&s), Ok(u));
}

#[test]
fn upload_id_parsing_rejects_bad_input() {
    assert!(uuid_from_str("").is_err());
    assert!(uuid_from_str("11").is_err());
    assert!(uuid_from_str(&"g".repeat(64)).is_err());
    assert!(uuid_from_str(&"1".repeat(63)).is_err());
    assert!(uuid_from_str(&"1".repeat(66)).is_err());
    let upper = "AB".repeat(32);
    let parsed = uuid_from_str(&upper).expect("uppercase hex is accepted");
    assert_eq!(parsed, [0xabu8; 32]);
}

#[test]
fn put_response_is_hex_and_newline() {
    let u: Uuid = [0xabu8; 32];
    let mut expected = "ab".repeat(32);
    expected.push('\n');
    assert_eq!(put_response(&u), expected);
}

#[test]
fn parse_u64_accepts_digits_only() {
    assert_eq!(parse_u64("0"), Some(0));
    assert_eq!(parse_u64("007"), Some(7));
    assert_eq!(parse_u64("18446744073709551615"), Some(u64::MAX));
    assert_eq!(parse_u64("18446744073709551616"), None);
    assert_eq!(parse_u64(""), None);
    assert_eq!(parse_u64("12a"), None);
    assert_eq!(parse_u64("-1"), None);
    assert_eq!(parse_u64("+2"), Some(2));
    assert_eq!(parse_u64("+"), None);
    assert_eq!(parse_u64("++1"), None);
}

#[test]
fn string_comparisons() {
    assert!(str_eq("abc", "abc"));
    assert!(!str_eq("abc", "abd"));
    assert!(str_lt("abc", "abd"));
    assert!(str_lt("ab", "abc"));
    assert!(!str_lt("abc", "abc"));
    assert!(!str_lt("b", "abc"));
    assert!(str_starts_with("hello/world", "hello/"));
    assert!(!str_starts_with("hello", "hello/"));
    assert!(str_starts_with("x", ""));
}

fn item(bucket: &str, pk: &str, sk: &str) -> K2VItem {
    K2VItem {
        partition: K2VItemPartition {
            bucket: bucket.to_string(),
            partition_key: pk.to_string(),
        },
        sort_key: sk.to_string(),
    }
}

fn range(
    bucket: &str,
    pk: &str,
    prefix: Option<&str>,
    start: Option<&str>,
    end: Option<&str>,
) -> PollRange {
    PollRange {
        partition: K2VItemPartition {
            bucket: bucket.to_string(),
            partition_key: pk.to_string(),
        },
        prefix: prefix.map(|s| s.to_string()),
        start: start.map(|s| s.to_string()),
        end: end.map(|s| s.to_string()),
    }
}

#[test]
fn poll_range_matching() {
    let it = item("b", "p", "doc/17");
    assert!(range("b", "p", None, None, None).matches(&it));
    assert!(!range("b", "q", None, None, None).matches(&it));
    assert!(!range("c", "p", None, None, None).matches(&it));
    assert!(range("b", "p", Some("doc/"), None, None).matches(&it));
    assert!(!range("b", "p", Some("img/"), None, None).matches(&it));
    assert!(range("b", "p", None, Some("doc/10"), None).matches(&it));
    assert!(range("b", "p", None, Some("doc/17"), None).matches(&it));
    assert!(!range("b", "p", None, Some("doc/18"), None).matches(&it));
    assert!(range("b", "p", None, None, Some("doc/20")).matches(&it));
    assert!(!range("b", "p", None, None, Some("doc/17")).matches(&it));
    assert!(range("b", "p", Some("doc/"), Some("doc/10"), Some("doc/20")).matches(&it));
}

#[test]
fn poll_key_equality_and_hash() {
    let k1 = PollKey {
        partition: K2VItemPartition {
            bucket: "b".to_string(),
            partition_key: "p".to_string(),
        },
        sort_key: "s".to_string(),
    };
    let k2 = k1.clone();
    let mut m: HashMap<PollKey, u32> = HashMap::new();
    m.insert(k1, 7);
    assert_eq!(m.get(&k2), Some(&7));
}
