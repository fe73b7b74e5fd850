use kvs::codec::{GET_TAG, REMOVE_TAG, SET_TAG};
use kvs::{Command, KvStore, KvStoreError};

fn field(s: &str) -> Vec<u8> {
    let mut out = (s.len() as u64).to_le_bytes().to_vec();
    out.extend_from_slice(s.as_bytes());
    out
}

#[test]
fn put_record_bytes() {
    let c = Command::Put { key: "a".into(), value: "1".into() };
    let expected = vec![0x53u8, 1, 0, 0, 0, 0, 0, 0, 0, b'a', 1, 0, 0, 0, 0, 0, 0, 0, b'1'];
    assert_eq!(c.encode(), expected);
    assert_eq!(SET_TAG, b'S');
}

#[test]
fn remove_and_get_record_bytes() {
    let r = Command::Remove { key: "xy".into() };
    let mut expected = vec![REMOVE_TAG];
    expected.extend(field("xy"));
    assert_eq!(r.encode(), expected);

    let g = Command::Get { key: "é".into() };
    let mut expected = vec![GET_TAG];
    expected.extend(field("é"));
    assert_eq!(g.encode(), expected);
}

#[test]
fn decode_round_trip() {
    let cmds = vec![
        Command::Put { key: "key".into(), value: "value with\nnewline".into() },
        Command::Get { key: "k".into() },
        Command::Remove { key: "ключ".into() },
    ];
    for c in cmds {
        let bytes = c.encode();
        match (Command::decode(&bytes), c) {
            (Some(Command::Put { key, value }), Command::Put { key: k, value: v }) => {
                assert_eq!(key, k);
                assert_eq!(value, v);
            }
            (Some(Command::Get { key }), Command::Get { key: k }) => assert_eq!(key, k),
            (Some(Command::Remove { key }), Command::Remove { key: k }) => assert_eq!(key, k),
            _ => panic!("decoding did not give the record back"),
        }
    }
}

#[test]
fn decode_rejects_bad_bytes() {
    assert!(Command::decode(&[]).is_none());
    assert!(Command::decode(&[b'X', 0, 0, 0, 0, 0, 0, 0, 0]).is_none());
    // A length that runs past the end.
    assert!(Command::decode(&[SET_TAG, 9, 0, 0, 0, 0, 0, 0, 0, b'a']).is_none());
    // Bytes that are not UTF-8.
    let mut bad = vec![REMOVE_TAG];
    bad.extend(&[1u8, 0, 0, 0, 0, 0, 0, 0, 0xff]);
    assert!(Command::decode(&bad).is_none());
    // Trailing bytes after one whole record.
    let mut long = Command::Remove { key: "k".into() }.encode();
    long.push(0);
    assert!(Command::decode(&long).is_none());
}

#[test]
fn decode_at_walks_a_log() {
    let mut log = Command::Put { key: "a".into(), value: "1".into() }.encode();
    log.extend(Command::Remove { key: "a".into() }.encode());
    let (first, next) = Command::decode_at(&log, 0).unwrap();
    assert!(matches!(first, Command::Put { .. }));
    assert_eq!(next, 19);
    let (second, end) = Command::decode_at(&log, next).unwrap();
    assert!(matches!(second, Command::Remove { .. }));
    assert_eq!(end, log.len());
    assert!(Command::decode_at(&log, end).is_none());
}

#[test]
fn open_rejects_corrupt_log() {
    let mut log = Command::Put { key: "a".into(), value: "1".into() }.encode();
    log.push(b'?');
    assert!(matches!(KvStore::open(log), Err(KvStoreError::CorruptionError)));
    let mut cut = Command::Put { key: "a".into(), value: "1".into() }.encode();
    cut.pop();
    assert!(matches!(KvStore::open(cut), Err(KvStoreError::CorruptionError)));
}

#[test]
fn open_replays_an_existing_log() {
    let mut log = Vec::new();
    log.extend(Command::Put { key: "a".into(), value: "1".into() }.encode());
    log.extend(Command::Put { key: "b".into(), value: "2".into() }.encode());
    log.extend(Command::Put { key: "a".into(), value: "3".into() }.encode());
    log.extend(Command::Remove { key: "b".into() }.encode());
    let store = KvStore::open(log.clone()).unwrap();
    assert_eq!(store.log(), &log[..]);
    assert_eq!(store.get("a".into()).unwrap(), Some("3".into()));
    assert!(matches!(store.get("b".into()), Err(KvStoreError::KeyNotFoundError)));
    // The overwritten put of "a" (19 bytes) and the remove of "b" (10 bytes).
    assert_eq!(store.uncompacted_bytes(), 29);
}

#[test]
fn concurrent_style_writes_leave_two_records() {
    let mut store = KvStore::open(Vec::new()).unwrap();
    store.set("x".into(), "t1".into()).unwrap();
    store.set("x".into(), "t2".into()).unwrap();
    let v = store.get("x".into()).unwrap().unwrap();
    assert!(v == "t1" || v == "t2");

    let log = store.log();
    let mut pos = 0;
    let mut puts_of_x = Vec::new();
    while pos < log.len() {
        let (c, next) = Command::decode_at(log, pos).expect("well-formed record");
        if let Command::Put { key, value } = c {
            if key == "x" {
                puts_of_x.push(value);
            }
        }
        pos = next;
    }
    assert_eq!(puts_of_x, vec!["t1".to_string(), "t2".to_string()]);
}
