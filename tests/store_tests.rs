use resp_kv::store::expiry_at;
use resp_kv::store::Store;
use resp_kv::store::Table;
use std::time::Duration;
use std::time::Instant;

#[test]
fn test_insert_and_get() {
    let store = Store::new();
    store.insert("key1".to_string(), "value1".to_string(), None);

    assert_eq!(store.get("key1"), Some("value1".to_string()));
}

#[test]
fn test_insert_with_ttl() {
    let store = Store::new();
    store.insert("key2".to_string(), "value2".to_string(), Some(1000));

    assert_eq!(store.get("key2"), Some("value2".to_string()));
}

#[test]
fn test_remove() {
    let store = Store::new();
    store.insert("key1".to_string(), "value1".to_string(), None);

    assert_eq!(store.remove("key1"), Some("value1".to_string()));
    assert_eq!(store.get("key1"), None);
}

#[test]
fn test_ttl_expiration() {
    let store = Store::new();
    store.insert("key2".to_string(), "value2".to_string(), Some(100));

    let start = Instant::now();
    while start.elapsed() < Duration::from_millis(101) {}

    assert_eq!(store.get("key2"), None);
}

#[test]
fn get_of_missing_key_is_none() {
    let store = Store::new();
    assert_eq!(store.get("missing"), None);
    assert_eq!(store.remove("missing"), None);
}

#[test]
fn overwrite_replaces_value_and_clears_expiry() {
    let store = Store::new();
    store.insert("k".to_string(), "old".to_string(), Some(0));
    assert_eq!(store.get("k"), None);
    store.insert("k".to_string(), "new".to_string(), None);
    assert_eq!(store.get("k"), Some("new".to_string()));
}

#[test]
fn clones_share_one_table() {
    let store = Store::new();
    let other = store.clone();
    other.insert("k".to_string(), "v".to_string(), None);
    assert_eq!(store.get("k"), Some("v".to_string()));
    assert_eq!(store.remove("k"), Some("v".to_string()));
    assert_eq!(other.get("k"), None);
}

#[test]
fn remove_returns_expired_entry_and_deletes_it() {
    let mut table = Table::new();
    table.insert("k".to_string(), "v".to_string(), Some(10));
    assert_eq!(table.lookup(&"k".to_string(), 10), None);
    assert_eq!(table.remove(&"k".to_string()), Some("v".to_string()));
    assert_eq!(table.remove(&"k".to_string()), None);
}

#[test]
fn table_expiry_is_exact() {
    let mut table = Table::new();
    table.insert("k".to_string(), "v".to_string(), expiry_at(1000, Some(100)));
    assert_eq!(table.lookup(&"k".to_string(), 1000), Some("v".to_string()));
    assert_eq!(table.lookup(&"k".to_string(), 100_000_999), Some("v".to_string()));
    assert_eq!(table.lookup(&"k".to_string(), 100_001_000), None);
    assert_eq!(table.lookup(&"k".to_string(), 500_000_000), None);
}

#[test]
fn repeated_reads_agree() {
    let mut table = Table::new();
    table.insert("a".to_string(), "1".to_string(), None);
    table.insert("b".to_string(), "2".to_string(), Some(50));
    for _ in 0..3 {
        assert_eq!(table.lookup(&"a".to_string(), 7), Some("1".to_string()));
        assert_eq!(table.lookup(&"b".to_string(), 7), Some("2".to_string()));
        assert_eq!(table.lookup(&"c".to_string(), 7), None);
    }
}

#[test]
fn table_keeps_keys_apart() {
    let mut table = Table::new();
    table.insert("a".to_string(), "1".to_string(), None);
    table.insert("b".to_string(), "2".to_string(), None);
    table.insert("a".to_string(), "3".to_string(), None);
    assert_eq!(table.lookup(&"a".to_string(), 0), Some("3".to_string()));
    assert_eq!(table.lookup(&"b".to_string(), 0), Some("2".to_string()));
    assert_eq!(table.remove(&"a".to_string()), Some("3".to_string()));
    assert_eq!(table.lookup(&"a".to_string(), 0), None);
    assert_eq!(table.lookup(&"b".to_string(), 0), Some("2".to_string()));
}

#[test]
fn expiry_instant_adds_and_saturates() {
    assert_eq!(expiry_at(1000, None), None);
    assert_eq!(expiry_at(1000, Some(250)), Some(250_001_000));
    assert_eq!(expiry_at(u128::MAX - 1, Some(5)), Some(u128::MAX));
}
