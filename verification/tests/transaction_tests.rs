use kv_database::{Error, KvStore};

#[test]
fn txn_commit_applies_writes() {
    let mut db = KvStore::new("t.bin").unwrap();
    {
        let mut txn = db.begin();
        txn.put("key1", "value1", None).unwrap();
        txn.put_bytes("key2", bincode::serialize(&42i32).unwrap(), None);
        txn.commit().unwrap();
    }
    assert_eq!(db.get("key1").unwrap(), "value1");
    let v: i32 = bincode::deserialize(&db.get_bytes("key2").unwrap()).unwrap();
    assert_eq!(v, 42);
}

#[test]
fn txn_rollback_discards_writes() {
    let mut db = KvStore::new("t.bin").unwrap();
    {
        let mut txn = db.begin();
        txn.put("temp", "will be discarded", None).unwrap();
        txn.rollback();
    }
    assert!(db.get("temp").is_err());
}

#[test]
fn txn_drop_discards_writes() {
    let mut db = KvStore::new("t.bin").unwrap();
    {
        let mut txn = db.begin();
        txn.put("temp", "will be discarded", None).unwrap();
    }
    assert!(db.get("temp").is_err());
}

#[test]
fn txn_reads_its_own_writes() {
    let mut db = KvStore::new("t.bin").unwrap();
    db.put("balance", "1000", None).unwrap();
    let mut txn = db.begin();
    assert_eq!(txn.get("balance").unwrap(), "1000");
    txn.put("balance", "500", None).unwrap();
    assert_eq!(txn.get("balance").unwrap(), "500");
    assert!(txn.contains_key("balance"));
    txn.delete("balance").unwrap();
    assert!(matches!(txn.get("balance"), Err(Error::KeyNotFound(_))));
    assert!(!txn.contains_key("balance"));
    txn.commit().unwrap();
    assert!(!db.contains_key("balance"));
}

#[test]
fn txn_later_write_replaces_earlier() {
    let mut db = KvStore::new("t.bin").unwrap();
    let mut txn = db.begin();
    txn.put("k", "a", None).unwrap();
    txn.put("k", "b", None).unwrap();
    txn.expire("k", 100).unwrap();
    assert_eq!(txn.ops.len(), 1);
    txn.put("k", "c", None).unwrap();
    assert_eq!(txn.ops.len(), 1);
    assert_eq!(txn.get("k").unwrap(), "c");
    txn.commit().unwrap();
    assert_eq!(db.get("k").unwrap(), "c");
}

#[test]
fn txn_list_and_keys_overlay_buffer() {
    let mut db = KvStore::new("t.bin").unwrap();
    db.put("a", "1", None).unwrap();
    db.put("b", "2", None).unwrap();
    let mut txn = db.begin();
    txn.delete("a").unwrap();
    txn.put("c", "3", None).unwrap();
    txn.put("b", "22", None).unwrap();
    let mut items = txn.list().unwrap();
    items.sort();
    assert_eq!(
        items,
        vec![("b".to_string(), "22".to_string()), ("c".to_string(), "3".to_string())]
    );
    let mut keys = txn.keys();
    keys.sort();
    assert_eq!(keys, vec!["b", "c"]);
    assert_eq!(txn.len(), 2);
    assert!(!txn.is_empty());
    txn.rollback();
    let mut keys = db.keys().unwrap();
    keys.sort();
    assert_eq!(keys, vec!["a", "b"]);
}

#[test]
fn txn_expire_of_missing_key_fails_commit() {
    let mut db = KvStore::new("t.bin").unwrap();
    let result = {
        let mut txn = db.begin();
        txn.put("x", "1", None).unwrap();
        txn.expire("ghost", 10).unwrap();
        txn.put("y", "2", None).unwrap();
        txn.commit()
    };
    match result {
        Err(Error::TransactionFailed(msg)) => {
            assert_eq!(msg, "cannot expire non-existent key: ghost")
        }
        other => panic!("unexpected result: {:?}", other),
    }
    assert!(db.get("x").is_err());
    assert!(db.get("y").is_err());
    assert!(db.is_empty().unwrap());
}

#[test]
fn txn_failed_commit_leaves_store_unchanged() {
    let mut db = KvStore::new("t.bin").unwrap();
    db.put("kept", "old", None).unwrap();
    let result = {
        let mut txn = db.begin();
        txn.put("kept", "new", None).unwrap();
        txn.delete("kept").unwrap();
        txn.put("a", "1", None).unwrap();
        txn.expire("missing", 5).unwrap();
        txn.commit()
    };
    assert!(matches!(result, Err(Error::TransactionFailed(_))));
    assert_eq!(db.get("kept").unwrap(), "old");
    assert!(db.get("a").is_err());
    assert_eq!(db.keys().unwrap(), vec!["kept".to_string()]);
}

#[test]
fn txn_expire_keeps_buffered_put() {
    let mut db = KvStore::new("t.bin").unwrap();
    db.set_capacity(None).unwrap();
    {
        let mut txn = db.begin();
        txn.guard.set_time(1000);
        txn.put("k", "v", None).unwrap();
        txn.expire("k", 10).unwrap();
        assert_eq!(txn.get("k").unwrap(), "v");
        assert!(txn.contains_key("k"));
        txn.commit().unwrap();
    }
    assert_eq!(db.get("k").unwrap(), "v");
    let entry = db.store().get(&"k".to_string()).unwrap().clone();
    assert_eq!(entry.expires_at, Some(1010));
}

#[test]
fn txn_delete_of_missing_key_is_ignored_at_commit() {
    let mut db = KvStore::new("t.bin").unwrap();
    let mut txn = db.begin();
    txn.delete("ghost").unwrap();
    txn.put("z", "9", None).unwrap();
    assert!(txn.commit().is_ok());
    assert_eq!(db.get("z").unwrap(), "9");
}

#[test]
fn txn_expire_sees_through_to_store() {
    let mut db = KvStore::new("t.bin").unwrap();
    db.put("k", "v", None).unwrap();
    let mut txn = db.begin();
    txn.expire("k", 1000).unwrap();
    assert_eq!(txn.get("k").unwrap(), "v");
    assert!(txn.contains_key("k"));
    txn.commit().unwrap();
    assert_eq!(db.get("k").unwrap(), "v");
}

#[test]
fn txn_empty_commit_succeeds() {
    let mut db = KvStore::new("t.bin").unwrap();
    let txn = db.begin();
    assert!(txn.is_empty());
    assert!(txn.commit().is_ok());
    assert!(db.is_empty().unwrap());
}
