use kvs::{KvStore, KvStoreError, Result};

fn reopen(store: KvStore) -> Result<KvStore> {
    let log = store.log().to_vec();
    drop(store);
    KvStore::open(log)
}

// Should be able to set a key/value pair and retrieve it.
#[test]
fn get_stored_value() -> Result<()> {
    let mut store = KvStore::open(Vec::new())?;

    store.set("key1".into(), "value1".into())?;
    store.set("key2".into(), "value2".into())?;

    assert_eq!(store.get("key1".into())?, Some("value1".into()));
    assert_eq!(store.get("key2".into())?, Some("value2".into()));

    // Open the store again from its log: the index is rebuilt by replay.
    let store = reopen(store)?;
    assert_eq!(store.get("key1".into())?, Some("value1".into()));
    assert_eq!(store.get("key2".into())?, Some("value2".into()));

    Ok(())
}

// Should overwrite the previous key value pair.
#[test]
fn overwrite_value() -> Result<()> {
    let mut store = KvStore::open(Vec::new())?;

    store.set("key1".into(), "value1".into())?;
    assert_eq!(store.get("key1".into())?, Some("value1".into()));

    store.set("key1".into(), "value2".into())?;
    assert_eq!(store.get("key1".into())?, Some("value2".into()));

    let mut store = reopen(store)?;
    assert_eq!(store.get("key1".into())?, Some("value2".into()));

    store.set("key1".into(), "value3".into())?;
    assert_eq!(store.get("key1".into())?, Some("value3".into()));

    Ok(())
}

// Getting a key that was never set is an error.
#[test]
fn get_non_existent_value() -> Result<()> {
    let mut store = KvStore::open(Vec::new())?;

    store.set("key1".into(), "value1".into())?;
    assert!(store.get("key2".into()).is_err());

    let store = reopen(store)?;
    assert!(store.get("key2".into()).is_err());

    Ok(())
}

#[test]
fn remove_non_existent_key() -> Result<()> {
    let mut store = KvStore::open(Vec::new())?;
    assert!(store.remove("key1".into()).is_err());

    Ok(())
}

#[test]
fn remove_key() -> Result<()> {
    let mut store = KvStore::open(Vec::new())?;
    store.set("key1".into(), "value1".into())?;

    assert!(store.remove("key1".into()).is_ok());
    assert!(store.get("key1".into()).is_err());

    // Reading the log again, with its remove record, must not fail.
    let store = reopen(store)?;
    assert!(store.get("key1".into()).is_err());

    Ok(())
}

#[test]
fn store_scenario_with_reopen() -> Result<()> {
    let mut store = KvStore::open(Vec::new())?;
    store.set("a".into(), "1".into())?;
    store.set("b".into(), "2".into())?;
    assert_eq!(store.get("a".into())?, Some("1".into()));
    store.remove("a".into())?;
    assert!(matches!(store.get("a".into()), Err(KvStoreError::KeyNotFoundError)));

    let store = reopen(store)?;
    assert_eq!(store.get("b".into())?, Some("2".into()));
    assert!(matches!(store.get("a".into()), Err(KvStoreError::KeyNotFoundError)));
    Ok(())
}

#[test]
fn remove_missing_key_writes_nothing() -> Result<()> {
    let mut store = KvStore::open(Vec::new())?;
    store.set("k".into(), "v".into())?;
    let before = store.log().to_vec();
    let dead = store.uncompacted_bytes();
    assert!(matches!(store.remove("other".into()), Err(KvStoreError::KeyNotFoundError)));
    assert_eq!(store.log(), &before[..]);
    assert_eq!(store.uncompacted_bytes(), dead);
    Ok(())
}

#[test]
fn many_operations_survive_reopen() -> Result<()> {
    let mut store = KvStore::open(Vec::new())?;
    for i in 0..50u32 {
        store.set(format!("key{}", i % 7), format!("value{}", i))?;
        if i % 5 == 4 {
            let _ = store.remove(format!("key{}", (i + 3) % 7));
        }
    }
    let mut expected = Vec::new();
    for k in 0..7u32 {
        expected.push(store.get(format!("key{}", k)).ok().flatten());
    }
    let store = reopen(store)?;
    for k in 0..7u32 {
        assert_eq!(store.get(format!("key{}", k)).ok().flatten(), expected[k as usize]);
    }
    Ok(())
}

#[test]
fn unicode_keys_and_values() -> Result<()> {
    let mut store = KvStore::open(Vec::new())?;
    store.set("clé\n\t".into(), "välue \u{1F600}".into())?;
    let store = reopen(store)?;
    assert_eq!(store.get("clé\n\t".into())?, Some("välue \u{1F600}".into()));
    Ok(())
}

#[test]
fn empty_key_and_value() -> Result<()> {
    let mut store = KvStore::open(Vec::new())?;
    store.set(String::new(), String::new())?;
    assert_eq!(store.get(String::new())?, Some(String::new()));
    let store = reopen(store)?;
    assert_eq!(store.get(String::new())?, Some(String::new()));
    Ok(())
}
