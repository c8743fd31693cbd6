use kv_database::LruTracker;

#[test]
fn test_touch_order() {
    let mut lru = LruTracker::new();
    lru.touch("a");
    lru.touch("b");
    lru.touch("c");
    assert_eq!(lru.evict_lru(), Some("a".to_string()));
    assert_eq!(lru.evict_lru(), Some("b".to_string()));
    assert_eq!(lru.evict_lru(), Some("c".to_string()));
    assert_eq!(lru.evict_lru(), None);
}

#[test]
fn test_touch_moves_to_head() {
    let mut lru = LruTracker::new();
    lru.touch("a");
    lru.touch("b");
    lru.touch("c");
    lru.touch("a");
    assert_eq!(lru.evict_lru(), Some("b".to_string()));
    assert_eq!(lru.evict_lru(), Some("c".to_string()));
    assert_eq!(lru.evict_lru(), Some("a".to_string()));
}

#[test]
fn test_remove() {
    let mut lru = LruTracker::new();
    lru.touch("a");
    lru.touch("b");
    lru.touch("c");
    lru.remove("b");
    assert_eq!(lru.len(), 2);
    assert!(!lru.contains("b"));
    assert_eq!(lru.evict_lru(), Some("a".to_string()));
    assert_eq!(lru.evict_lru(), Some("c".to_string()));
}

#[test]
fn test_remove_head() {
    let mut lru = LruTracker::new();
    lru.touch("a");
    lru.touch("b");
    lru.remove("b");
    assert_eq!(lru.len(), 1);
    assert_eq!(lru.evict_lru(), Some("a".to_string()));
}

#[test]
fn test_remove_tail() {
    let mut lru = LruTracker::new();
    lru.touch("a");
    lru.touch("b");
    lru.remove("a");
    assert_eq!(lru.len(), 1);
    assert_eq!(lru.evict_lru(), Some("b".to_string()));
}

#[test]
fn test_single_element() {
    let mut lru = LruTracker::new();
    lru.touch("only");
    assert_eq!(lru.len(), 1);
    assert_eq!(lru.evict_lru(), Some("only".to_string()));
    assert_eq!(lru.len(), 0);
}

#[test]
fn test_empty_evict() {
    let mut lru = LruTracker::new();
    assert_eq!(lru.evict_lru(), None);
}

#[test]
fn test_touch_existing_then_remove() {
    let mut lru = LruTracker::new();
    lru.touch("a");
    lru.touch("b");
    lru.touch("a");
    lru.touch("a");
    lru.touch("a");
    assert_eq!(lru.len(), 2);
    assert_eq!(lru.evict_lru(), Some("b".to_string()));
}

#[test]
fn lru_remove_untracked_key_changes_nothing() {
    let mut lru = LruTracker::new();
    lru.touch("a");
    lru.touch("b");
    lru.remove("zzz");
    assert_eq!(lru.len(), 2);
    assert!(lru.contains("a"));
    assert!(lru.contains("b"));
    assert_eq!(lru.evict_lru(), Some("a".to_string()));
}

#[test]
fn lru_is_empty_and_contains() {
    let mut lru = LruTracker::default();
    assert!(lru.is_empty());
    lru.touch("x");
    assert!(!lru.is_empty());
    assert!(lru.contains("x"));
    assert!(!lru.contains("y"));
    lru.remove("x");
    assert!(lru.is_empty());
    lru.touch("x");
    assert!(lru.contains("x"));
    assert_eq!(lru.len(), 1);
}

#[test]
fn lru_retouch_after_eviction() {
    let mut lru = LruTracker::new();
    lru.touch("a");
    lru.touch("b");
    assert_eq!(lru.evict_lru(), Some("a".to_string()));
    lru.touch("a");
    assert_eq!(lru.evict_lru(), Some("b".to_string()));
    assert_eq!(lru.evict_lru(), Some("a".to_string()));
    assert_eq!(lru.evict_lru(), None);
}
