use kv_database::{Cache, Error};

#[test]
fn cache_test_put_and_get() {
    let mut cache = Cache::new();
    cache.set_time(1000);
    cache.put("key1".to_string(), b"value1".to_vec(), None);

    assert_eq!(cache.get("key1").unwrap(), b"value1");
}

#[test]
fn test_ttl_expiration() {
    let mut cache = Cache::new();
    cache.set_time(1000);
    cache.put("key1".to_string(), b"value1".to_vec(), Some(10));
    assert!(cache.get("key1").is_ok());
    cache.set_time(1011);
    assert!(cache.get("key1").is_err());
}

#[test]
fn cache_test_delete() {
    let mut cache = Cache::new();
    cache.set_time(1000);
    cache.put("key1".to_string(), b"value1".to_vec(), None);

    assert!(cache.delete("key1").is_ok());
    assert!(cache.get("key1").is_err());
}

#[test]
fn cache_test_list() {
    let mut cache = Cache::new();
    cache.set_time(1000);
    cache.put("key1".to_string(), b"value1".to_vec(), None);
    cache.put("key2".to_string(), b"value2".to_vec(), Some(10));
    cache.put("key3".to_string(), b"value3".to_vec(), None);

    cache.set_time(1011);

    let items = cache.list();
    assert_eq!(items.len(), 2);
    assert!(items.iter().any(|(k, _)| k == "key1"));
    assert!(items.iter().any(|(k, _)| k == "key3"));
}

#[test]
fn test_expire() {
    let mut cache = Cache::new();
    cache.set_time(1000);
    cache.put("key1".to_string(), b"value1".to_vec(), None);
    cache.expire("key1", 10).unwrap();
    assert!(cache.get("key1").is_ok());
    cache.set_time(1011);
    assert!(cache.get("key1").is_err());
}

#[test]
fn test_lru_eviction_on_put() {
    let mut cache = Cache::new();
    cache.set_time(1000);
    cache.set_capacity(Some(3));

    cache.put("a".to_string(), b"1".to_vec(), None);
    cache.put("b".to_string(), b"2".to_vec(), None);
    cache.put("c".to_string(), b"3".to_vec(), None);
    cache.put("d".to_string(), b"4".to_vec(), None);

    assert!(cache.get("a").is_err());
    assert!(cache.contains_key("b"));
    assert!(cache.contains_key("c"));
    assert!(cache.contains_key("d"));
    assert_eq!(cache.len(), 3);
}

#[test]
fn test_lru_write_order() {
    let mut cache = Cache::new();
    cache.set_time(1000);
    cache.set_capacity(Some(2));

    cache.put("a".to_string(), b"1".to_vec(), None);
    cache.put("b".to_string(), b"2".to_vec(), None);
    cache.put("a".to_string(), b"1_updated".to_vec(), None);
    cache.put("c".to_string(), b"3".to_vec(), None);

    assert!(cache.contains_key("a"));
    assert!(cache.get("b").is_err());
    assert!(cache.contains_key("c"));
    assert_eq!(cache.get("a").unwrap(), b"1_updated");
}

#[test]
fn test_lru_delete_updates_tracker() {
    let mut cache = Cache::new();
    cache.set_time(1000);
    cache.set_capacity(Some(2));

    cache.put("a".to_string(), b"1".to_vec(), None);
    cache.put("b".to_string(), b"2".to_vec(), None);
    cache.delete("a").unwrap();
    cache.put("c".to_string(), b"3".to_vec(), None);

    assert!(cache.contains_key("b"));
    assert!(cache.contains_key("c"));
    assert_eq!(cache.len(), 2);
}

#[test]
fn test_set_capacity_shrink() {
    let mut cache = Cache::new();
    cache.set_time(1000);
    cache.put("a".to_string(), b"1".to_vec(), None);
    cache.put("b".to_string(), b"2".to_vec(), None);
    cache.put("c".to_string(), b"3".to_vec(), None);

    let evicted = cache.set_capacity(Some(1));
    assert_eq!(evicted, 2);
    assert_eq!(cache.len(), 1);
    assert!(cache.contains_key("c"));
}

#[test]
fn test_cleanup_returns_count() {
    let mut cache = Cache::new();
    cache.set_time(1000);
    cache.put("a".to_string(), b"1".to_vec(), Some(5));
    cache.put("b".to_string(), b"2".to_vec(), None);
    cache.put("c".to_string(), b"3".to_vec(), Some(5));

    cache.set_time(1010);
    let removed = cache.cleanup();
    assert_eq!(removed, 2);
    assert!(cache.contains_key("b"));
    assert!(!cache.contains_key("a"));
    assert!(!cache.contains_key("c"));
}

#[test]
fn test_keys_method() {
    let mut cache = Cache::new();
    cache.set_time(1000);
    cache.put("z".to_string(), b"1".to_vec(), None);
    cache.put("a".to_string(), b"2".to_vec(), None);
    cache.put("m".to_string(), b"3".to_vec(), None);

    let mut keys = cache.keys();
    keys.sort();
    assert_eq!(keys, vec!["a", "m", "z"]);
}

#[test]
fn test_info() {
    let mut cache = Cache::new();
    cache.set_time(1000);
    cache.set_capacity(Some(100));
    cache.put("k1".to_string(), b"v1".to_vec(), None);
    cache.put("k2".to_string(), b"v2".to_vec(), None);

    let info = cache.info();
    assert_eq!(info.key_count, 2);
    assert_eq!(info.total_entries, 2);
    assert_eq!(info.capacity, Some(100));
}

#[test]
fn cache_entry_alive_through_its_last_second() {
    let mut cache = Cache::new();
    cache.set_time(1000);
    cache.put("k".to_string(), b"v".to_vec(), Some(10));
    cache.set_time(1010);
    assert_eq!(cache.get("k").unwrap(), b"v");
    cache.set_time(1011);
    assert!(!cache.contains_key("k"));
}

#[test]
fn cache_get_missing_key_reports_key() {
    let cache = Cache::new();
    match cache.get("nope") {
        Err(Error::KeyNotFound(k)) => assert_eq!(k, "nope"),
        other => panic!("unexpected result: {:?}", other),
    }
}

#[test]
fn cache_delete_missing_key_is_error() {
    let mut cache = Cache::new();
    cache.set_time(5);
    match cache.delete("ghost") {
        Err(Error::KeyNotFound(k)) => assert_eq!(k, "ghost"),
        other => panic!("unexpected result: {:?}", other),
    }
}

#[test]
fn cache_expire_missing_key_is_error() {
    let mut cache = Cache::new();
    cache.set_time(5);
    assert!(matches!(cache.expire("ghost", 3), Err(Error::KeyNotFound(_))));
}

#[test]
fn cache_delete_expired_entry_succeeds() {
    let mut cache = Cache::new();
    cache.set_time(100);
    cache.put("k".to_string(), b"v".to_vec(), Some(1));
    cache.set_time(200);
    assert!(cache.get("k").is_err());
    assert!(cache.delete("k").is_ok());
    assert_eq!(cache.info().total_entries, 0);
}

#[test]
fn cache_expired_entries_count_in_total_until_cleanup() {
    let mut cache = Cache::new();
    cache.set_time(100);
    cache.put("a".to_string(), b"1".to_vec(), Some(1));
    cache.put("b".to_string(), b"2".to_vec(), None);
    cache.set_time(200);
    let info = cache.info();
    assert_eq!(info.key_count, 1);
    assert_eq!(info.total_entries, 2);
    assert_eq!(info.file_path, "");
    assert!(!cache.is_empty());
    assert_eq!(cache.cleanup(), 1);
    assert_eq!(cache.info().total_entries, 1);
}

#[test]
fn cache_capacity_zero_keeps_nothing() {
    let mut cache = Cache::new();
    cache.set_time(1);
    cache.set_capacity(Some(0));
    cache.put("a".to_string(), b"1".to_vec(), None);
    assert!(cache.is_empty());
    assert_eq!(cache.info().total_entries, 0);
}

#[test]
fn cache_removing_capacity_evicts_nothing() {
    let mut cache = Cache::new();
    cache.set_time(1);
    cache.set_capacity(Some(2));
    cache.put("a".to_string(), b"1".to_vec(), None);
    cache.put("b".to_string(), b"2".to_vec(), None);
    assert_eq!(cache.set_capacity(None), 0);
    assert_eq!(cache.get_capacity(), None);
    cache.put("c".to_string(), b"3".to_vec(), None);
    assert_eq!(cache.len(), 3);
}

#[test]
fn cache_eviction_takes_oldest_write() {
    let mut cache = Cache::new();
    cache.set_time(1);
    cache.set_capacity(Some(2));
    cache.put("a".to_string(), b"1".to_vec(), None);
    cache.put("b".to_string(), b"2".to_vec(), None);
    cache.put("c".to_string(), b"3".to_vec(), None);
    let mut keys = cache.keys();
    keys.sort();
    assert_eq!(keys, vec!["b", "c"]);
}

#[test]
fn cache_expire_ttl_saturates_at_end_of_clock() {
    let mut cache = Cache::new();
    cache.set_time(u64::MAX - 1);
    cache.put("k".to_string(), b"v".to_vec(), Some(100));
    cache.set_time(u64::MAX);
    assert!(cache.contains_key("k"));
    assert_eq!(cache.store().len(), 1);
}

#[test]
fn cache_list_gives_values() {
    let mut cache = Cache::new();
    cache.set_time(7);
    cache.put("x".to_string(), b"one".to_vec(), None);
    cache.put("y".to_string(), b"two".to_vec(), None);
    let mut items = cache.list();
    items.sort();
    assert_eq!(
        items,
        vec![("x".to_string(), b"one".to_vec()), ("y".to_string(), b"two".to_vec())]
    );
}

#[test]
fn cache_now_reads_set_time() {
    let mut cache = Cache::default();
    cache.set_time(42);
    assert_eq!(cache.now(), 42);
}

#[test]
fn cache_now_reads_system_clock() {
    let cache = Cache::new();
    assert!(cache.now() > 1_600_000_000);
}

#[test]
fn cache_read_within_lifetime() {
    let mut cache = Cache::new();
    cache.set_time(1000);
    cache.put("k".to_string(), b"v".to_vec(), Some(5));
    cache.set_time(1005);
    assert_eq!(cache.get("k").unwrap(), b"v");
    cache.set_time(1006);
    assert!(cache.get("k").is_err());
}

#[test]
fn cache_unbounded_put_keeps_others() {
    let mut cache = Cache::new();
    cache.set_time(1000);
    for i in 0..20 {
        cache.put(format!("k{}", i), vec![i as u8], None);
    }
    cache.put("k3".to_string(), b"new".to_vec(), None);
    for i in 0..20 {
        let expected = if i == 3 { b"new".to_vec() } else { vec![i as u8] };
        assert_eq!(cache.get(&format!("k{}", i)).unwrap(), expected);
    }
    assert_eq!(cache.store().len(), 20);
}

#[test]
fn cache_expire_sets_lifetime_only() {
    let mut cache = Cache::new();
    cache.set_time(1000);
    cache.put("a".to_string(), b"1".to_vec(), None);
    cache.put("b".to_string(), b"2".to_vec(), None);
    cache.set_time(1010);
    cache.expire("a", 7).unwrap();
    let a = cache.store().get(&"a".to_string()).unwrap().clone();
    assert_eq!(a.value, b"1".to_vec());
    assert_eq!(a.created_at, 1000);
    assert_eq!(a.expires_at, Some(1017));
    assert_eq!(cache.store().get(&"b".to_string()).unwrap().expires_at, None);
}

#[test]
fn cache_second_cleanup_removes_nothing() {
    let mut cache = Cache::new();
    cache.set_time(1000);
    cache.put("a".to_string(), b"1".to_vec(), Some(1));
    cache.put("b".to_string(), b"2".to_vec(), None);
    cache.set_time(1005);
    assert_eq!(cache.cleanup(), 1);
    assert_eq!(cache.cleanup(), 0);
    assert_eq!(cache.keys(), vec!["b".to_string()]);
}

#[test]
fn cache_reads_agree() {
    let mut cache = Cache::new();
    cache.set_time(1000);
    cache.put("a".to_string(), b"1".to_vec(), Some(1));
    cache.put("b".to_string(), b"2".to_vec(), None);
    cache.set_time(1002);
    let listed = cache.list();
    assert_eq!(listed, vec![("b".to_string(), b"2".to_vec())]);
    assert_eq!(cache.keys(), vec!["b".to_string()]);
    assert_eq!(cache.len(), 1);
    assert!(!cache.contains_key("a"));
    assert!(cache.get("a").is_err());
}

#[test]
fn cache_put_evicts_at_most_the_oldest() {
    let mut cache = Cache::new();
    cache.set_time(1000);
    cache.set_capacity(Some(3));
    cache.put("a".to_string(), b"1".to_vec(), None);
    cache.put("b".to_string(), b"2".to_vec(), None);
    cache.put("c".to_string(), b"3".to_vec(), None);
    cache.put("b".to_string(), b"22".to_vec(), None);
    assert_eq!(cache.store().len(), 3);
    cache.put("d".to_string(), b"4".to_vec(), None);
    assert!(cache.get("a").is_err());
    assert_eq!(cache.get("b").unwrap(), b"22");
    assert_eq!(cache.get("c").unwrap(), b"3");
    assert_eq!(cache.get("d").unwrap(), b"4");
}
