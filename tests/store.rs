use kv_store::error::Error;
use kv_store::log::decode_log;
use kv_store::record::Record;
use kv_store::store::Store;

/// Encodes `rec`, appends it to `log` and commits it to `store`, as a
/// file-backed caller does.
fn commit(store: &mut Store, log: &mut Vec<u8>, rec: Record) -> bool {
    log.extend_from_slice(&rec.encode());
    store.apply(&rec)
}

fn put(store: &mut Store, log: &mut Vec<u8>, k: &str, v: &str) -> bool {
    let rec = Record::put(k.as_bytes().to_vec(), v.as_bytes().to_vec()).unwrap();
    commit(store, log, rec)
}

fn delete(store: &mut Store, log: &mut Vec<u8>, k: &str) -> bool {
    let rec = Record::delete(k.as_bytes().to_vec()).unwrap();
    commit(store, log, rec)
}

fn reopen(log: &[u8]) -> Store {
    let (store, n) = Store::from_log(log).unwrap();
    assert_eq!(n, log.len());
    store
}

fn value(store: &Store, k: &str) -> Option<Vec<u8>> {
    store.get(k.as_bytes()).cloned()
}

#[test]
fn example_scenario_survives_reopen() {
    let mut store = Store::new();
    let mut log = Vec::new();
    put(&mut store, &mut log, "a", "1");
    put(&mut store, &mut log, "b", "2");
    put(&mut store, &mut log, "a", "3");
    delete(&mut store, &mut log, "b");
    let reopened = reopen(&log);
    assert_eq!(value(&reopened, "a"), Some(b"3".to_vec()));
    assert_eq!(value(&reopened, "b"), None);
}

#[test]
fn put_record_bytes() {
    let rec = Record::put(b"a".to_vec(), b"1".to_vec()).unwrap();
    assert_eq!(rec.encode(), vec![0, 1, 0, 0, 0, b'a', 1, 0, 0, 0, b'1']);
}

#[test]
fn delete_record_bytes() {
    let rec = Record::delete(b"bc".to_vec()).unwrap();
    assert_eq!(rec.encode(), vec![1, 2, 0, 0, 0, b'b', b'c']);
}

#[test]
fn lengths_are_little_endian() {
    let key = vec![7u8; 300];
    let rec = Record::put(key.clone(), Vec::new()).unwrap();
    let bytes = rec.encode();
    assert_eq!(&bytes[0..5], &[0, 44, 1, 0, 0]);
    assert_eq!(&bytes[5..305], key.as_slice());
    assert_eq!(&bytes[305..], &[0, 0, 0, 0]);
}

#[test]
fn empty_key_is_refused() {
    assert_eq!(Record::put(Vec::new(), b"v".to_vec()), Err(Error::InvalidKey));
    assert_eq!(Record::delete(Vec::new()), Err(Error::InvalidKey));
}

#[test]
fn empty_value_is_kept() {
    let mut store = Store::new();
    let mut log = Vec::new();
    put(&mut store, &mut log, "k", "");
    assert_eq!(value(&reopen(&log), "k"), Some(Vec::new()));
}

#[test]
fn empty_log_opens_empty() {
    let (store, n) = Store::from_log(&[]).unwrap();
    assert_eq!(n, 0);
    assert_eq!(value(&store, "a"), None);
    assert!(!store.contains_key(b"a"));
}

#[test]
fn round_trip_matches_memory() {
    let mut store = Store::new();
    let mut log = Vec::new();
    let ops: [(&str, Option<&str>); 7] = [
        ("x", Some("1")),
        ("y", Some("2")),
        ("x", None),
        ("z", Some("3")),
        ("y", Some("4")),
        ("w", None),
        ("x", Some("5")),
    ];
    for (k, v) in ops.iter() {
        match v {
            Some(v) => put(&mut store, &mut log, k, v),
            None => delete(&mut store, &mut log, k),
        };
    }
    let reopened = reopen(&log);
    for k in ["x", "y", "z", "w", "v"] {
        assert_eq!(value(&reopened, k), value(&store, k));
    }
    assert_eq!(value(&reopened, "x"), Some(b"5".to_vec()));
    assert_eq!(value(&reopened, "y"), Some(b"4".to_vec()));
    assert_eq!(value(&reopened, "w"), None);
}

#[test]
fn last_write_wins_after_reopen() {
    let mut store = Store::new();
    let mut log = Vec::new();
    put(&mut store, &mut log, "k", "v1");
    put(&mut store, &mut log, "k", "v2");
    assert_eq!(value(&reopen(&log), "k"), Some(b"v2".to_vec()));
}

#[test]
fn tombstone_after_reopen() {
    let mut store = Store::new();
    let mut log = Vec::new();
    put(&mut store, &mut log, "k", "v");
    delete(&mut store, &mut log, "k");
    assert_eq!(value(&reopen(&log), "k"), None);
}

#[test]
fn apply_reports_earlier_value() {
    let mut store = Store::new();
    let mut log = Vec::new();
    assert!(!put(&mut store, &mut log, "k", "v"));
    assert!(put(&mut store, &mut log, "k", "w"));
    assert!(delete(&mut store, &mut log, "k"));
    assert!(!delete(&mut store, &mut log, "k"));
    assert_eq!(value(&store, "k"), None);
}

#[test]
fn partial_last_record_is_dropped() {
    let mut store = Store::new();
    let mut log = Vec::new();
    put(&mut store, &mut log, "a", "1");
    delete(&mut store, &mut log, "a");
    put(&mut store, &mut log, "b", "2");
    let prefix_len = log.len();
    let last = Record::put(b"a".to_vec(), b"xyz".to_vec()).unwrap().encode();
    log.extend_from_slice(&last);
    for cut in prefix_len..log.len() {
        let (opened, n) = Store::from_log(&log[..cut]).unwrap();
        assert_eq!(n, prefix_len);
        assert_eq!(value(&opened, "a"), None);
        assert_eq!(value(&opened, "b"), Some(b"2".to_vec()));
    }
    let whole = reopen(&log);
    assert_eq!(value(&whole, "a"), Some(b"xyz".to_vec()));
}

#[test]
fn bad_tag_is_corrupt() {
    let mut store = Store::new();
    let mut log = Vec::new();
    put(&mut store, &mut log, "a", "1");
    let first_len = log.len();
    put(&mut store, &mut log, "b", "2");
    log[first_len] = 7;
    assert!(matches!(Store::from_log(&log), Err(Error::Corrupt)));
}

#[test]
fn zero_key_length_is_corrupt() {
    let mut store = Store::new();
    let mut log = Vec::new();
    put(&mut store, &mut log, "a", "1");
    put(&mut store, &mut log, "b", "2");
    log[1] = 0;
    assert!(matches!(Store::from_log(&log), Err(Error::Corrupt)));
    assert!(matches!(decode_log(&log), Err(Error::Corrupt)));
}

#[test]
fn shortened_value_length_is_corrupt() {
    let mut store = Store::new();
    let mut log = Vec::new();
    put(&mut store, &mut log, "a", "1");
    put(&mut store, &mut log, "b", "2");
    // The first record now claims an empty value, so the next record would
    // start at the byte `1`, which is no tag.
    log[6] = 0;
    assert!(matches!(Store::from_log(&log), Err(Error::Corrupt)));
}

#[test]
fn decode_lists_whole_records() {
    let mut log = Vec::new();
    log.extend_from_slice(&Record::put(b"a".to_vec(), b"1".to_vec()).unwrap().encode());
    log.extend_from_slice(&Record::delete(b"a".to_vec()).unwrap().encode());
    let full = log.len();
    log.extend_from_slice(&[0, 5, 0]);
    let decoded = decode_log(&log).unwrap();
    assert_eq!(decoded.valid_len, full);
    assert_eq!(
        decoded.records,
        vec![
            Record::Put { key: b"a".to_vec(), value: b"1".to_vec() },
            Record::Delete { key: b"a".to_vec() },
        ]
    );
}

#[test]
fn compaction_keeps_index() {
    let mut store = Store::new();
    let mut log = Vec::new();
    put(&mut store, &mut log, "a", "1");
    put(&mut store, &mut log, "b", "2");
    put(&mut store, &mut log, "a", "3");
    delete(&mut store, &mut log, "b");
    put(&mut store, &mut log, "c", "4");
    let compacted = store.compact();
    assert!(compacted.len() < log.len());
    for k in ["a", "b", "c"] {
        assert_eq!(value(&store, k), value(&reopen(&log), k));
    }
    let fresh = reopen(&compacted);
    assert_eq!(value(&fresh, "a"), Some(b"3".to_vec()));
    assert_eq!(value(&fresh, "b"), None);
    assert_eq!(value(&fresh, "c"), Some(b"4".to_vec()));
    let records = decode_log(&compacted).unwrap().records;
    assert_eq!(records.len(), 2);
    assert!(records.iter().all(|r| matches!(r, Record::Put { .. })));
}

#[test]
fn compaction_of_empty_store_is_empty() {
    let mut store = Store::new();
    assert!(store.compact().is_empty());
}
