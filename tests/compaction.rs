use kvs::engines::kvs::COMPACTION_THRESHOLD;
use kvs::{Command, KvStore, KvStoreError};

#[test]
fn dead_bytes_are_counted() {
    let mut store = KvStore::open(Vec::new()).unwrap();
    assert_eq!(store.uncompacted_bytes(), 0);
    store.set("a".into(), "1".into()).unwrap();
    assert_eq!(store.uncompacted_bytes(), 0);
    store.set("a".into(), "22".into()).unwrap();
    // The first put of "a" is dead: 1 + (8 + 1) + (8 + 1) bytes.
    assert_eq!(store.uncompacted_bytes(), 19);
    store.remove("a".into()).unwrap();
    // The remove record adds its own 1 + (8 + 1) bytes.
    assert_eq!(store.uncompacted_bytes(), 29);
}

#[test]
fn compaction_keeps_live_keys_only() {
    let mut store = KvStore::open(Vec::new()).unwrap();
    store.set("a".into(), "1".into()).unwrap();
    store.set("b".into(), "2".into()).unwrap();
    store.set("a".into(), "3".into()).unwrap();
    store.set("c".into(), "4".into()).unwrap();
    store.remove("b".into()).unwrap();
    let before = store.log().len();
    store.compact();
    assert_eq!(store.uncompacted_bytes(), 0);
    assert!(store.log().len() < before);

    let mut expected = Command::Put { key: "a".into(), value: "3".into() }.encode();
    expected.extend(Command::Put { key: "c".into(), value: "4".into() }.encode());
    assert_eq!(store.log(), &expected[..]);

    assert_eq!(store.get("a".into()).unwrap(), Some("3".into()));
    assert!(matches!(store.get("b".into()), Err(KvStoreError::KeyNotFoundError)));
    assert_eq!(store.get("c".into()).unwrap(), Some("4".into()));

    let reopened = KvStore::open(store.log().to_vec()).unwrap();
    assert_eq!(reopened.get("a".into()).unwrap(), Some("3".into()));
    assert!(reopened.get("b".into()).is_err());
    assert_eq!(reopened.get("c".into()).unwrap(), Some("4".into()));
}

#[test]
fn compacting_twice_changes_nothing_more() {
    let mut store = KvStore::open(Vec::new()).unwrap();
    for i in 0..20u32 {
        store.set(format!("k{}", i % 4), format!("v{}", i)).unwrap();
    }
    store.remove("k2".into()).unwrap();
    store.compact();
    let once = store.log().to_vec();
    store.compact();
    assert_eq!(store.log(), &once[..]);
    for k in 0..4u32 {
        let got = store.get(format!("k{}", k)).ok().flatten();
        let expected = if k == 2 { None } else { Some(format!("v{}", 16 + k)) };
        assert_eq!(got, expected);
    }
}

#[test]
fn compaction_of_empty_store() {
    let mut store = KvStore::open(Vec::new()).unwrap();
    store.compact();
    assert!(store.log().is_empty());
    store.set("k".into(), "v".into()).unwrap();
    store.remove("k".into()).unwrap();
    store.compact();
    assert!(store.log().is_empty());
    assert!(store.get("k".into()).is_err());
}

#[test]
fn writes_after_compaction_work() {
    let mut store = KvStore::open(Vec::new()).unwrap();
    store.set("a".into(), "1".into()).unwrap();
    store.set("a".into(), "2".into()).unwrap();
    store.compact();
    store.set("b".into(), "3".into()).unwrap();
    store.set("a".into(), "4".into()).unwrap();
    assert_eq!(store.get("a".into()).unwrap(), Some("4".into()));
    assert_eq!(store.get("b".into()).unwrap(), Some("3".into()));
    let reopened = KvStore::open(store.log().to_vec()).unwrap();
    assert_eq!(reopened.get("a".into()).unwrap(), Some("4".into()));
    assert_eq!(reopened.get("b".into()).unwrap(), Some("3".into()));
}

#[test]
fn compaction_threshold() {
    let mut store = KvStore::open(Vec::new()).unwrap();
    assert!(!store.needs_compaction());
    let big = "x".repeat(COMPACTION_THRESHOLD);
    store.set("k".into(), big.clone()).unwrap();
    assert!(!store.needs_compaction());
    store.set("k".into(), "small".into()).unwrap();
    assert!(store.needs_compaction());
    store.compact();
    assert!(!store.needs_compaction());
    assert_eq!(store.get("k".into()).unwrap(), Some("small".into()));
}
