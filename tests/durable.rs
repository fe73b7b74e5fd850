use kvs::server::{handle_request, Request, Response};
use kvs::{DurableStore, KvStoreError, KvsEngine, LogFile, VecLog};

/// A log held in memory, which can be told to fail its reads or its writes.
struct MemLog {
    bytes: Vec<u8>,
    replaced: usize,
    fail_reads: bool,
    fail_writes: bool,
}

impl LogFile for MemLog {
    fn read_all(&self) -> Result<Vec<u8>, String> {
        if self.fail_reads {
            return Err("disk unreadable".to_string());
        }
        Ok(self.bytes.clone())
    }

    fn append(&mut self, bytes: &[u8]) -> Result<(), String> {
        if self.fail_writes {
            return Err("disk full".to_string());
        }
        self.bytes.extend_from_slice(bytes);
        Ok(())
    }

    fn replace(&mut self, bytes: &[u8]) -> Result<(), String> {
        if self.fail_writes {
            return Err("disk full".to_string());
        }
        self.bytes = bytes.to_vec();
        self.replaced += 1;
        Ok(())
    }
}

fn mem_log(bytes: Vec<u8>, fail_writes: bool) -> MemLog {
    MemLog { bytes, replaced: 0, fail_reads: false, fail_writes }
}

fn reopen(log: &MemLog) -> DurableStore<MemLog> {
    DurableStore::open(mem_log(log.bytes.clone(), false)).unwrap()
}

#[test]
fn durable_writes_reach_the_log_file() {
    let mut store = DurableStore::open(mem_log(Vec::new(), false)).unwrap();
    store.set("a".into(), "1".into()).unwrap();
    store.set("b".into(), "2".into()).unwrap();
    store.remove("a".into()).unwrap();
    assert!(matches!(store.remove("zz".into()), Err(KvStoreError::KeyNotFoundError)));
    let file = store.into_file();
    // Two puts of 19 bytes and one remove of 10 bytes; the failed remove wrote nothing.
    assert_eq!(file.bytes.len(), 48);

    let store = reopen(&file);
    assert!(matches!(store.get("a".into()), Err(KvStoreError::KeyNotFoundError)));
    assert_eq!(store.get("b".into()).unwrap(), Some("2".into()));
}

#[test]
fn failed_append_changes_nothing() {
    let mut store = DurableStore::open(mem_log(Vec::new(), false)).unwrap();
    store.set("a".into(), "1".into()).unwrap();
    let bytes = store.into_file().bytes;
    let mut store = DurableStore::open(mem_log(bytes.clone(), true)).unwrap();
    match store.set("a".into(), "2".into()) {
        Err(KvStoreError::IOError(m)) => assert_eq!(m, "disk full"),
        other => panic!("unexpected result {:?}", other),
    }
    assert!(matches!(store.remove("a".into()), Err(KvStoreError::IOError(_))));
    assert_eq!(store.get("a".into()).unwrap(), Some("1".into()));
    assert_eq!(store.into_file().bytes, bytes);
}

#[test]
fn durable_store_compacts_its_file() {
    let mut store = DurableStore::open(mem_log(Vec::new(), false)).unwrap();
    let big = "x".repeat(kvs::engines::kvs::COMPACTION_THRESHOLD);
    store.set("k".into(), big).unwrap();
    store.set("k".into(), "small".into()).unwrap();
    let file = store.into_file();
    assert_eq!(file.replaced, 1);
    // Only the live put of "k" is left: 1 + (8 + 1) + (8 + 5) bytes.
    assert_eq!(file.bytes.len(), 23);
    let store = reopen(&file);
    assert_eq!(store.get("k".into()).unwrap(), Some("small".into()));
}

#[test]
fn durable_open_failures() {
    let r = DurableStore::open(mem_log(vec![1, 2, 3], false));
    assert!(matches!(r, Err(KvStoreError::CorruptionError)));
    let r = DurableStore::open(MemLog { bytes: Vec::new(), replaced: 0, fail_reads: true, fail_writes: false });
    match r {
        Err(KvStoreError::IOError(m)) => assert_eq!(m, "disk unreadable"),
        _ => panic!("a failed read must be an I/O error"),
    }
}

#[test]
fn engine_failure_becomes_an_error_response() {
    let mut store = DurableStore::open(mem_log(Vec::new(), true)).unwrap();
    match handle_request(&mut store, Request::Put { key: "a".into(), value: "1".into() }) {
        Response::Put(Err(m)) => assert_eq!(m, "IO error: disk full"),
        other => panic!("unexpected response {:?}", other),
    }
    match handle_request(&mut store, Request::Get { key: "a".into() }) {
        Response::Get(Err(m)) => assert_eq!(m, "Key not found"),
        other => panic!("unexpected response {:?}", other),
    }
}

#[test]
fn memory_log_keeps_what_the_store_wrote() {
    let mut store = DurableStore::open(VecLog::new()).unwrap();
    store.set("a".into(), "1".into()).unwrap();
    store.set("a".into(), "2".into()).unwrap();
    let log = store.into_file();
    let reopened = DurableStore::open(log).unwrap();
    assert_eq!(reopened.get("a".into()).unwrap(), Some("2".into()));
    let log = reopened.into_file();
    assert_eq!(log.contents().len(), 38);
}
