use kv_database::{Entry, Error, KvStore};

fn snapshot(db: &KvStore) -> Vec<(String, Entry)> {
    let store = db.store();
    let mut saved = Vec::new();
    for i in 0..store.len() {
        saved.push((store.key_at(i).clone(), store.value_at(i).clone()));
    }
    saved
}

#[test]
fn db_test_put_and_get() {
    let mut db = KvStore::new("db.bin").unwrap();
    db.put("user:1", "Alice", None).unwrap();

    let value: String = db.get("user:1").unwrap();
    assert_eq!(value, "Alice");
}

#[test]
fn test_persistence() {
    let saved = {
        let mut db = KvStore::new("db.bin").unwrap();
        db.put("user:1", "Alice", None).unwrap();
        db.put("user:2", "Bob", None).unwrap();
        snapshot(&db)
    };

    let db = KvStore::open("db.bin", saved).unwrap();
    let value: String = db.get("user:1").unwrap();
    assert_eq!(value, "Alice");

    let value: String = db.get("user:2").unwrap();
    assert_eq!(value, "Bob");
}

#[test]
fn test_ttl() {
    let mut db = KvStore::new("db.bin").unwrap();
    db.put("session:1", "token123", Some(10)).unwrap();

    let value: String = db.get("session:1").unwrap();
    assert_eq!(value, "token123");

    db.expire("session:1", 5).unwrap();

    let value: String = db.get("session:1").unwrap();
    assert_eq!(value, "token123");
}

#[test]
fn db_test_delete() {
    let mut db = KvStore::new("db.bin").unwrap();
    db.put("key", "value", None).unwrap();
    assert!(db.contains_key("key"));

    db.delete("key").unwrap();
    assert!(!db.contains_key("key"));
}

#[test]
fn db_test_list() {
    let mut db = KvStore::new("db.bin").unwrap();
    db.put_bytes("a", bincode::serialize(&1i32).unwrap(), None);
    db.put_bytes("b", bincode::serialize(&2i32).unwrap(), None);
    db.put_bytes("c", bincode::serialize(&3i32).unwrap(), None);

    let items: Vec<(String, i32)> = db
        .list_bytes()
        .into_iter()
        .map(|(k, v)| (k, bincode::deserialize(&v).unwrap()))
        .collect();
    assert_eq!(items.len(), 3);
    assert!(items.iter().any(|(k, v)| k == "a" && *v == 1));
    assert!(items.iter().any(|(k, v)| k == "b" && *v == 2));
    assert!(items.iter().any(|(k, v)| k == "c" && *v == 3));
}

#[test]
fn test_full_workflow() {
    let mut db = KvStore::new("test.db").unwrap();

    db.put("name", "Test User", None).unwrap();
    db.put_bytes("age", bincode::serialize(&30u32).unwrap(), None);
    db.put_bytes("active", bincode::serialize(&true).unwrap(), None);

    let saved = snapshot(&db);
    assert_eq!(saved.len(), 3);

    let name: String = db.get("name").unwrap();
    let age: u32 = bincode::deserialize(&db.get_bytes("age").unwrap()).unwrap();
    let active: bool = bincode::deserialize(&db.get_bytes("active").unwrap()).unwrap();

    assert_eq!(name, "Test User");
    assert_eq!(age, 30);
    assert!(active);

    db.put_bytes("age", bincode::serialize(&31u32).unwrap(), None);
    let age: u32 = bincode::deserialize(&db.get_bytes("age").unwrap()).unwrap();
    assert_eq!(age, 31);

    db.delete("active").unwrap();
    assert!(!db.contains_key("active"));

    let mut db2 = KvStore::new("test.db").unwrap();
    db2.put("key1", "value1", None).unwrap();
    db2.put("key2", "value2", None).unwrap();
    let items: Vec<(String, String)> = db2.list().unwrap();
    assert_eq!(items.len(), 2);
}

#[test]
fn test_persistence_across_openings() {
    let saved = {
        let mut db = KvStore::new("persistent.db").unwrap();
        db.put("key1", "value1", None).unwrap();
        db.put("key2", "value2", None).unwrap();
        snapshot(&db)
    };

    {
        let db = KvStore::open("persistent.db", saved).unwrap();

        let v1: String = db.get("key1").unwrap();
        let v2: String = db.get("key2").unwrap();

        assert_eq!(v1, "value1");
        assert_eq!(v2, "value2");
    }
}

#[test]
fn test_error_handling() {
    let mut db = KvStore::new("error_test.db").unwrap();

    let result: Result<String, Error> = db.get("nonexistent");
    assert!(result.is_err());

    let result = db.delete("nonexistent");
    assert!(result.is_err());
}

#[test]
fn db_open_skips_expired_entries() {
    let saved = vec![
        ("old".to_string(), Entry::new(b"x".to_vec(), 10, Some(20))),
        ("forever".to_string(), Entry::new(bincode::serialize("kept").unwrap(), 10, None)),
    ];
    let db = KvStore::open("saved.db", saved).unwrap();
    assert!(!db.contains_key("old"));
    assert_eq!(db.get("forever").unwrap(), "kept");
    assert_eq!(db.info().unwrap().total_entries, 1);
}

#[test]
fn db_open_keeps_remaining_lifetime() {
    let far = u64::MAX - 5;
    let saved = vec![("k".to_string(), Entry::new(b"v".to_vec(), 1, Some(far)))];
    let db = KvStore::open("saved.db", saved).unwrap();
    let store = db.store();
    assert_eq!(store.len(), 1);
    assert_eq!(store.value_at(0).expires_at, Some(far));
}

#[test]
fn db_info_reports_path_and_counts() {
    let mut db = KvStore::new("data/info.bin").unwrap();
    db.put("k1", "v1", None).unwrap();
    db.put("k2", "v2", None).unwrap();
    let info = db.info().unwrap();
    assert_eq!(info.key_count, 2);
    assert_eq!(info.total_entries, 2);
    assert_eq!(info.capacity, None);
    assert_eq!(info.file_path, "data/info.bin");
    assert_eq!(db.path(), "data/info.bin");
    assert_eq!(db.len().unwrap(), 2);
    assert!(!db.is_empty().unwrap());
}

#[test]
fn db_capacity_evicts_oldest() {
    let mut db = KvStore::new("cap.bin").unwrap();
    assert_eq!(db.set_capacity(Some(2)).unwrap(), 0);
    db.put_bytes("a", bincode::serialize(&1i32).unwrap(), None);
    db.put_bytes("b", bincode::serialize(&2i32).unwrap(), None);
    db.put_bytes("c", bincode::serialize(&3i32).unwrap(), None);
    assert!(db.get_bytes("a").is_err());
    let b: i32 = bincode::deserialize(&db.get_bytes("b").unwrap()).unwrap();
    let c: i32 = bincode::deserialize(&db.get_bytes("c").unwrap()).unwrap();
    assert_eq!((b, c), (2, 3));
    assert_eq!(db.get_capacity().unwrap(), Some(2));
    let mut keys = db.keys().unwrap();
    keys.sort();
    assert_eq!(keys, vec!["b", "c"]);
}

#[test]
fn db_get_of_non_text_value_is_serialize_error() {
    let mut db = KvStore::new("x.bin").unwrap();
    db.put_bytes("n", vec![1, 2], None);
    match db.get("n") {
        Err(Error::Serialize(m)) => assert!(m.starts_with("failed to deserialize: ")),
        other => panic!("unexpected: {:?}", other),
    }
    match db.list() {
        Err(Error::Serialize(m)) => assert!(m.starts_with("failed to deserialize: ")),
        other => panic!("unexpected: {:?}", other),
    }
}

#[test]
fn db_text_encoding_is_bincode() {
    let mut db = KvStore::new("x.bin").unwrap();
    db.put("k", "héllo", None).unwrap();
    let raw = db.get_bytes("k").unwrap();
    assert_eq!(raw, bincode::serialize("héllo").unwrap());
    assert_ne!(raw, "héllo".as_bytes().to_vec());
    let mut len = [0u8; 8];
    len.copy_from_slice(&raw[..8]);
    assert_eq!(u64::from_le_bytes(len) as usize, raw.len() - 8);
    assert_eq!(&raw[8..], "héllo".as_bytes());
}

#[test]
fn db_cleanup_reports_count() {
    let mut db = KvStore::new("x.bin").unwrap();
    db.put("k", "v", None).unwrap();
    assert_eq!(db.cleanup().unwrap(), 0);
    assert!(db.contains_key("k"));
}

#[test]
fn db_expire_missing_key_is_error() {
    let mut db = KvStore::new("x.bin").unwrap();
    assert!(matches!(db.expire("nope", 1), Err(Error::KeyNotFound(_))));
}

#[test]
fn error_messages() {
    assert_eq!(Error::KeyNotFound("k".to_string()).message(), "key not found: k");
    assert_eq!(Error::Serialize("bad".to_string()).message(), "Serialize error: bad");
    assert_eq!(Error::InvalidPath("p".to_string()).message(), "invalid path: p");
    assert_eq!(Error::Server("down".to_string()).message(), "server error: down");
    assert_eq!(
        Error::TransactionFailed("x".to_string()).message(),
        "transaction failed: x"
    );
    let io = Error::from(std::io::Error::new(std::io::ErrorKind::Other, "disk"));
    assert_eq!(io.message(), "IO error: disk");
}
