use kvs::codec::{decode_index, encode_index};
use kvs::{Error, Index, KvStore};

#[test]
fn test_serialize() {
    let index: Index = Index::new();
    let bytes = encode_index(&index);
    assert!(bytes.is_empty());
    assert!(decode_index(&bytes).is_ok());
}

#[test]
fn test_snapshot() {
    let mut store = KvStore::new(
        "/Users/lee/Code/RustLearn/pingcap-talent-plan/project-1".to_string(),
    );
    for i in 0..100 {
        let iter = i.to_string();
        store.set(iter.clone(), iter).unwrap();
    }
    let (log_bytes, index_bytes) = store.snapshot();
    let mut back_store = KvStore::open(
        "/Users/lee/Code/RustLearn/pingcap-talent-plan/project-1/back".to_string(),
        log_bytes,
        index_bytes,
    )
    .unwrap();
    for i in 0..100 {
        let iter = i.to_string();
        let res = back_store.get(iter.clone()).unwrap().unwrap();
        assert_eq!(res, iter);
    }
}

#[test]
fn snapshot_text_is_exact() {
    let mut store = KvStore::new("d".to_string());
    store.set("k".to_string(), "v".to_string()).unwrap();
    let (log_bytes, index_bytes) = store.close();
    assert_eq!(log_bytes, b"v".to_vec());
    let text = String::from_utf8(index_bytes).unwrap();
    assert_eq!(
        text,
        "00000000000000000001\n\
         00000000000000000001 00000000000000000000 00000000000000000001\nk\n"
    );
}

#[test]
fn empty_files_open_as_empty_store() {
    let mut store = KvStore::open("d".to_string(), Vec::new(), Vec::new()).unwrap();
    assert_eq!(store.get("anything".to_string()).unwrap(), None);
    assert_eq!(store.log.size(), 0);
    assert_eq!(store.index.len(), 0);
}

#[test]
fn garbage_snapshot_is_corrupt() {
    let r = KvStore::open("d".to_string(), Vec::new(), b"garbage".to_vec());
    assert!(matches!(r, Err(Error::CorruptIndex)));
}

#[test]
fn truncated_snapshot_is_corrupt() {
    let mut store = KvStore::new("d".to_string());
    store.set("key".to_string(), "value".to_string()).unwrap();
    let (log_bytes, mut index_bytes) = store.close();
    index_bytes.pop();
    let r = KvStore::open("d".to_string(), log_bytes, index_bytes);
    assert!(matches!(r, Err(Error::CorruptIndex)));
}

#[test]
fn snapshot_with_trailing_garbage_is_corrupt() {
    let mut store = KvStore::new("d".to_string());
    store.set("key".to_string(), "value".to_string()).unwrap();
    let (log_bytes, mut index_bytes) = store.close();
    index_bytes.extend_from_slice(b"x");
    let r = KvStore::open("d".to_string(), log_bytes, index_bytes);
    assert!(matches!(r, Err(Error::CorruptIndex)));
}

#[test]
fn pointer_past_log_end_is_corrupt() {
    let mut store = KvStore::new("d".to_string());
    store.set("key".to_string(), "value".to_string()).unwrap();
    let (_log_bytes, index_bytes) = store.close();
    // the snapshot promises five bytes the empty log does not hold
    let r = KvStore::open("d".to_string(), Vec::new(), index_bytes);
    assert!(matches!(r, Err(Error::CorruptIndex)));
}

#[test]
fn duplicate_key_snapshot_is_corrupt() {
    let record = "00000000000000000001 00000000000000000000 00000000000000000001\nk\n";
    let text = format!("00000000000000000002\n{}{}", record, record);
    let r = KvStore::open("d".to_string(), b"v".to_vec(), text.into_bytes());
    assert!(matches!(r, Err(Error::CorruptIndex)));
}

#[test]
fn overlapping_pointers_are_corrupt() {
    let rec_a = "00000000000000000001 00000000000000000000 00000000000000000002\na\n";
    let rec_b = "00000000000000000001 00000000000000000001 00000000000000000002\nb\n";
    let text = format!("00000000000000000002\n{}{}", rec_a, rec_b);
    let r = KvStore::open("d".to_string(), b"xyz".to_vec(), text.into_bytes());
    assert!(matches!(r, Err(Error::CorruptIndex)));
}

#[test]
fn non_text_value_bytes_are_corrupt() {
    let record = "00000000000000000001 00000000000000000000 00000000000000000001\nk\n";
    let text = format!("00000000000000000001\n{}", record);
    let r = KvStore::open("d".to_string(), vec![0xFFu8], text.into_bytes());
    assert!(matches!(r, Err(Error::CorruptIndex)));
}

#[test]
fn decode_reverses_encode() {
    let mut store = KvStore::new("d".to_string());
    store.set("alpha".to_string(), "1".to_string()).unwrap();
    store.set("beta".to_string(), "two".to_string()).unwrap();
    store.set("alpha".to_string(), "uno".to_string()).unwrap();
    let bytes = encode_index(&store.index);
    let decoded = decode_index(&bytes).unwrap();
    assert_eq!(decoded.len(), store.index.len());
    let mut keys = decoded.live_keys();
    let mut expected = store.index.live_keys();
    keys.sort();
    expected.sort();
    assert_eq!(keys, expected);
}
