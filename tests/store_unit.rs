use in_memory_db::KeyValueStore;

#[test]
fn test_new_store_is_empty() {
    let store = KeyValueStore::new();
    assert!(store.is_empty());
    assert_eq!(store.len(), 0);
}

#[test]
fn test_set_and_get() {
    let mut store = KeyValueStore::new();
    store.set("name".to_string(), "Alice".to_string());

    assert_eq!(store.get("name"), Some(&"Alice".to_string()));
    assert_eq!(store.len(), 1);
}

#[test]
fn test_get_nonexistent_key() {
    let store = KeyValueStore::new();
    assert_eq!(store.get("missing"), None);
}

#[test]
fn test_set_updates_existing_key() {
    let mut store = KeyValueStore::new();
    store.set("name".to_string(), "Alice".to_string());
    store.set("name".to_string(), "Bob".to_string());

    assert_eq!(store.get("name"), Some(&"Bob".to_string()));
    assert_eq!(store.len(), 1);
}

#[test]
fn test_delete_existing_key() {
    let mut store = KeyValueStore::new();
    store.set("city".to_string(), "Seattle".to_string());

    let deleted = store.delete("city");
    assert_eq!(deleted, Some("Seattle".to_string()));
    assert_eq!(store.get("city"), None);
    assert!(store.is_empty());
}

#[test]
fn test_delete_nonexistent_key() {
    let mut store = KeyValueStore::new();
    let deleted = store.delete("missing");
    assert_eq!(deleted, None);
}

#[test]
fn test_multiple_operations() {
    let mut store = KeyValueStore::new();

    // Insert multiple entries
    store.set("name".to_string(), "Alice".to_string());
    store.set("city".to_string(), "Seattle".to_string());
    store.set("country".to_string(), "USA".to_string());
    assert_eq!(store.len(), 3);

    // Update one
    store.set("city".to_string(), "Portland".to_string());
    assert_eq!(store.len(), 3);

    // Delete one
    store.delete("country");
    assert_eq!(store.len(), 2);

    // Verify remaining
    assert_eq!(store.get("name"), Some(&"Alice".to_string()));
    assert_eq!(store.get("city"), Some(&"Portland".to_string()));
    assert_eq!(store.get("country"), None);
}
