use kvs::server::{handle_request, step, ConnEvent, ConnState, Request, Response};
use kvs::thread_pool::{PoolSupervisor, SupervisorAction, WorkerExit};
use kvs::{KvStore, KvStoreError};

#[test]
fn requests_run_against_the_engine() {
    let mut store = KvStore::open(Vec::new()).unwrap();
    let r = handle_request(&mut store, Request::Put { key: "k".into(), value: "v".into() });
    assert!(matches!(r, Response::Put(Ok(()))));
    match handle_request(&mut store, Request::Get { key: "k".into() }) {
        Response::Get(Ok(Some(v))) => assert_eq!(v, "v"),
        other => panic!("unexpected response {:?}", other),
    }
    let r = handle_request(&mut store, Request::Remove { key: "k".into() });
    assert!(matches!(r, Response::Remove(Ok(()))));
    match handle_request(&mut store, Request::Get { key: "k".into() }) {
        Response::Get(Err(m)) => assert_eq!(m, "Key not found"),
        other => panic!("unexpected response {:?}", other),
    }
    match handle_request(&mut store, Request::Remove { key: "k".into() }) {
        Response::Remove(Err(m)) => assert_eq!(m, "Key not found"),
        other => panic!("unexpected response {:?}", other),
    }
}

#[test]
fn connection_states() {
    let mut store = KvStore::open(Vec::new()).unwrap();
    let req = Request::Put { key: "a".into(), value: "1".into() };
    let (s, r) = step(&mut store, ConnState::Reading, ConnEvent::Decoded(req));
    assert!(matches!(s, ConnState::Responding));
    assert!(matches!(r, Some(Response::Put(Ok(())))));
    let (s, r) = step(&mut store, s, ConnEvent::Flushed);
    assert!(matches!(s, ConnState::Reading));
    assert!(r.is_none());
    let (s, r) = step(&mut store, s, ConnEvent::DecodeFailed);
    assert!(matches!(s, ConnState::Closed));
    assert!(r.is_none());
    let (s, _) = step(&mut store, s, ConnEvent::Decoded(Request::Get { key: "a".into() }));
    assert!(matches!(s, ConnState::Closed));
    let (s, _) = step(&mut store, ConnState::Responding, ConnEvent::WriteFailed);
    assert!(matches!(s, ConnState::Closed));
    let (s, _) = step(&mut store, ConnState::Reading, ConnEvent::Disconnected);
    assert!(matches!(s, ConnState::Closed));
    assert_eq!(store.get("a".into()).unwrap(), Some("1".into()));
}

#[test]
fn error_messages() {
    assert_eq!(KvStoreError::KeyNotFoundError.message(), "Key not found");
    assert_eq!(KvStoreError::CorruptionError.message(), "Corrupt log record");
    assert_eq!(KvStoreError::IOError("disk".into()).message(), "IO error: disk");
    assert_eq!(KvStoreError::StringError("remote".into()).message(), "Error: remote");
}

#[test]
fn supervisor_replaces_panicked_workers() {
    let n = 4;
    let mut sup = PoolSupervisor::new(n);
    for _ in 0..n {
        sup.worker_started();
    }
    assert_eq!(sup.live(), n);
    for _ in 0..10 {
        let action = sup.worker_stopped(WorkerExit::Panicked);
        assert!(matches!(action, SupervisorAction::Respawn));
        assert_eq!(sup.live(), n - 1);
        sup.worker_started();
        assert_eq!(sup.live(), n);
    }
    assert_eq!(sup.size(), n);
    let action = sup.worker_stopped(WorkerExit::QueueClosed);
    assert!(matches!(action, SupervisorAction::Retire));
    assert_eq!(sup.live(), n - 1);
}
