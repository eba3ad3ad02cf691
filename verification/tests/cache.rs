use bytes::Bytes;
use lfu::{InsertError, LFU};

#[test]
fn it_works() {
    let mut lfu = LFU::new();
    let _ = lfu.insert("a".to_string(), Bytes::from("42"));
    assert_eq!(lfu.get(&"a".to_string()), Some(&Bytes::from("42")));
    println!("{:?}", lfu);
}

#[test]
fn test_max_size() {
    let lfu = LFU::new().max_size(1000);
    assert_eq!(lfu.max_bytes(), 1000);
}

#[test]
fn test_evictions() {
    let mut lfu = LFU::new().max_size(3);
    let _ = lfu.insert("a".to_string(), Bytes::from("42"));
    let _ = lfu.insert("b".to_string(), Bytes::from("43"));
    println!("{:?}", lfu);
}

#[test]
fn test_frequency() {
    let mut lfu = LFU::new().max_size(3);
    let _ = lfu.insert("a".to_string(), Bytes::from("42"));
    lfu.get("a");
    lfu.get("a");
    assert_eq!(lfu.get_frequency("a"), 3);
    println!("{:?}", lfu);
}

#[test]
fn new_cache_is_empty_with_default_limit() {
    let mut lfu = LFU::new();
    assert_eq!(lfu.max_bytes(), 64);
    assert_eq!(lfu.len(), 0);
    assert_eq!(lfu.size_bytes(), 0);
    assert_eq!(lfu.get("a"), None);
    assert_eq!(lfu.get_frequency("a"), 0);
    assert!(!lfu.contains("a"));
}

#[test]
fn absent_key_lookup_changes_nothing() {
    let mut lfu = LFU::new();
    assert_eq!(lfu.insert("a".to_string(), Bytes::from("x")), Ok(None));
    assert_eq!(lfu.get("b"), None);
    assert_eq!(lfu.get_frequency("a"), 1);
    assert_eq!(lfu.get_frequency("b"), 0);
    assert_eq!(lfu.len(), 1);
    assert_eq!(lfu.size_bytes(), 1);
}

#[test]
fn promotion_raises_frequency_by_one() {
    let mut c = LFU::new().max_size(1000);
    assert_eq!(c.insert("a".to_string(), Bytes::from("x")), Ok(None));
    assert_eq!(c.get_frequency("a"), 1);
    assert_eq!(c.get("a"), Some(&Bytes::from("x")));
    assert_eq!(c.get_frequency("a"), 2);
}

#[test]
fn eviction_prefers_lower_frequency() {
    let mut c = LFU::new().max_size(2);
    assert_eq!(c.insert("a".to_string(), Bytes::from("1")), Ok(None));
    assert_eq!(c.insert("b".to_string(), Bytes::from("2")), Ok(None));
    c.get("a");
    c.get("a");
    assert_eq!(c.insert("c".to_string(), Bytes::from("3")), Ok(None));
    assert_eq!(c.get("b"), None);
    assert_eq!(c.get("a"), Some(&Bytes::from("1")));
    assert_eq!(c.get("c"), Some(&Bytes::from("3")));
    assert_eq!(c.size_bytes(), 2);
    assert_eq!(c.len(), 2);
}

#[test]
fn no_eviction_while_everything_fits() {
    let mut c = LFU::new().max_size(4);
    let _ = c.insert("a".to_string(), Bytes::from("1"));
    let _ = c.insert("b".to_string(), Bytes::from("2"));
    c.get("a");
    c.get("a");
    let _ = c.insert("c".to_string(), Bytes::from("3"));
    assert_eq!(c.get("b"), Some(&Bytes::from("2")));
    assert_eq!(c.get("a"), Some(&Bytes::from("1")));
    assert_eq!(c.get("c"), Some(&Bytes::from("3")));
    assert_eq!(c.size_bytes(), 3);
}

#[test]
fn oversized_payload_is_rejected() {
    let mut c = LFU::new().max_size(4);
    assert_eq!(
        c.insert("a".to_string(), Bytes::from("12345")),
        Err(InsertError::PayloadTooLarge)
    );
    assert_eq!(c.get("a"), None);
    assert_eq!(c.size_bytes(), 0);
    assert_eq!(c.len(), 0);
}

#[test]
fn oversized_update_keeps_the_old_entry() {
    let mut c = LFU::new().max_size(4);
    assert_eq!(c.insert("a".to_string(), Bytes::from("12")), Ok(None));
    c.get("a");
    assert_eq!(
        c.insert("a".to_string(), Bytes::from("12345")),
        Err(InsertError::PayloadTooLarge)
    );
    assert_eq!(c.get_frequency("a"), 2);
    assert_eq!(c.size_bytes(), 2);
    assert_eq!(c.get("a"), Some(&Bytes::from("12")));
}

#[test]
fn zero_limit_rejects_every_non_empty_payload() {
    let mut c = LFU::new().max_size(0);
    assert_eq!(
        c.insert("a".to_string(), Bytes::from("1")),
        Err(InsertError::PayloadTooLarge)
    );
    assert_eq!(c.len(), 0);
    assert_eq!(c.insert("e".to_string(), Bytes::new()), Ok(None));
    assert_eq!(c.len(), 1);
    assert_eq!(c.size_bytes(), 0);
    assert_eq!(c.get("e"), Some(&Bytes::new()));
}

#[test]
fn update_preserves_frequency_and_adjusts_bytes() {
    let mut c = LFU::new().max_size(100);
    assert_eq!(c.insert("a".to_string(), Bytes::from("xx")), Ok(None));
    c.get("a");
    c.get("a");
    assert_eq!(c.size_bytes(), 2);
    assert_eq!(
        c.insert("a".to_string(), Bytes::from("yyyy")),
        Ok(Some(Bytes::from("xx")))
    );
    assert_eq!(c.get_frequency("a"), 3);
    assert_eq!(c.size_bytes(), 4);
    assert_eq!(c.len(), 1);
    assert_eq!(c.get("a"), Some(&Bytes::from("yyyy")));
    assert_eq!(c.get_frequency("a"), 4);
}

#[test]
fn update_evicts_others_but_never_the_updated_key() {
    let mut c = LFU::new().max_size(4);
    let _ = c.insert("a".to_string(), Bytes::from("1"));
    let _ = c.insert("b".to_string(), Bytes::from("22"));
    c.get("b");
    c.get("b");
    assert_eq!(
        c.insert("a".to_string(), Bytes::from("333")),
        Ok(Some(Bytes::from("1")))
    );
    assert_eq!(c.get_frequency("a"), 1);
    assert_eq!(c.get_frequency("b"), 0);
    assert_eq!(c.get("a"), Some(&Bytes::from("333")));
    assert_eq!(c.size_bytes(), 3);
}

#[test]
fn tie_break_evicts_exactly_one_of_equals() {
    let mut c = LFU::new().max_size(2);
    let _ = c.insert("a".to_string(), Bytes::from("1"));
    let _ = c.insert("b".to_string(), Bytes::from("2"));
    let _ = c.insert("c".to_string(), Bytes::from("3"));
    let a = c.contains("a");
    let b = c.contains("b");
    assert!(a != b);
    assert!(c.contains("c"));
    assert_eq!(c.len(), 2);
    assert_eq!(c.size_bytes(), 2);
}

#[test]
fn second_insert_wins() {
    let mut lfu = LFU::new();
    let _ = lfu.insert("a".to_string(), Bytes::from("b"));
    let _ = lfu.insert("a".to_string(), Bytes::from("z"));
    assert_eq!(lfu.get("a"), Some(&Bytes::from("z")));
}

#[test]
fn frequency_counts_lookups_since_creation() {
    let mut lfu = LFU::new();
    assert_eq!(lfu.get_frequency("a"), 0);
    let _ = lfu.insert("a".to_string(), Bytes::from("b"));
    assert_eq!(lfu.get_frequency("a"), 1);
    for n in 2..10usize {
        lfu.get("a");
        assert_eq!(lfu.get_frequency("a"), n);
    }
}

#[test]
fn frequency_never_falls_while_the_key_stays() {
    let mut c = LFU::new().max_size(3);
    let _ = c.insert("a".to_string(), Bytes::from("1"));
    let mut last = c.get_frequency("a");
    let steps = ["a", "b", "a", "c", "d", "a", "b", "e"];
    for k in steps {
        if c.contains(k) {
            c.get(k);
        } else {
            let _ = c.insert(k.to_string(), Bytes::from("1"));
        }
        let now = c.get_frequency("a");
        assert!(now >= last || now == 0);
        last = now;
        assert!(c.size_bytes() <= c.max_bytes());
    }
    assert_eq!(c.get_frequency("a"), 4);
}

#[test]
fn bytes_in_use_is_the_sum_of_payload_sizes() {
    let mut c = LFU::new().max_size(10);
    let _ = c.insert("a".to_string(), Bytes::from("123"));
    assert_eq!(c.size_bytes(), 3);
    let _ = c.insert("b".to_string(), Bytes::from("4567"));
    assert_eq!(c.size_bytes(), 7);
    let _ = c.insert("a".to_string(), Bytes::from("1"));
    assert_eq!(c.size_bytes(), 5);
    c.get("a");
    let _ = c.insert("c".to_string(), Bytes::from("123456"));
    assert_eq!(c.size_bytes(), 7);
    assert!(c.contains("a"));
    assert!(!c.contains("b"));
    assert!(c.contains("c"));
}

#[test]
fn remove_returns_the_payload_and_frees_its_bytes() {
    let mut c = LFU::new();
    let _ = c.insert("a".to_string(), Bytes::from("xyz"));
    let _ = c.insert("b".to_string(), Bytes::from("q"));
    assert_eq!(c.remove("a"), Some(Bytes::from("xyz")));
    assert_eq!(c.remove("a"), None);
    assert_eq!(c.size_bytes(), 1);
    assert_eq!(c.len(), 1);
    assert_eq!(c.get_frequency("a"), 0);
    assert_eq!(c.get_frequency("b"), 1);
}

#[test]
fn shrinking_the_limit_evicts_least_accessed_first() {
    let mut c = LFU::new();
    let _ = c.insert("a".to_string(), Bytes::from("11"));
    let _ = c.insert("b".to_string(), Bytes::from("22"));
    c.get("a");
    let c = c.max_size(2);
    assert_eq!(c.max_bytes(), 2);
    assert!(c.contains("a"));
    assert!(!c.contains("b"));
    assert_eq!(c.size_bytes(), 2);
}

#[test]
fn constructor_with_limit_starts_empty() {
    let mut c = LFU::with_max_bytes(5);
    assert_eq!(c.max_bytes(), 5);
    assert_eq!(c.len(), 0);
    assert_eq!(c.size_bytes(), 0);
    assert_eq!(c.frequencies(), vec![0]);
    assert_eq!(c.insert("a".to_string(), Bytes::from("12345")), Ok(None));
    assert_eq!(
        c.insert("b".to_string(), Bytes::from("123456")),
        Err(InsertError::PayloadTooLarge)
    );
    assert_eq!(c.size_bytes(), 5);
}
