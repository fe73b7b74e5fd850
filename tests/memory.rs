use kvs::kv::KvStore;

#[test]
fn memory_store_set_get_remove() {
    let mut store = KvStore::new();
    assert_eq!(store.get("key".to_owned()), None);
    store.set("key".to_owned(), "value".to_owned());
    assert_eq!(store.get("key".to_owned()), Some("value".to_owned()));
    store.set("key".to_owned(), "other".to_owned());
    assert_eq!(store.get("key".to_owned()), Some("other".to_owned()));
    store.set("second".to_owned(), "2".to_owned());
    store.remove("key".to_owned());
    assert_eq!(store.get("key".to_owned()), None);
    assert_eq!(store.get("second".to_owned()), Some("2".to_owned()));
    store.remove("missing".to_owned());
    assert_eq!(store.get("second".to_owned()), Some("2".to_owned()));
}
