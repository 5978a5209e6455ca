use kvs::{Entry, Error, KvStore, LogFile};

fn fresh(path: &str) -> KvStore {
    KvStore::new(path.to_string())
}

#[test]
fn test_open() {
    let path_string = "/Users/lee/Code/RustLearn/pingcap-talent-plan/project-1";
    let (log_bytes, index_bytes);
    {
        let mut store = KvStore::open(path_string.to_string(), Vec::new(), Vec::new()).unwrap();
        store.set("key".to_string(), "val".to_string()).unwrap();
        let val = store.get("key".to_owned()).unwrap().unwrap();
        assert_eq!(val, "val".to_owned());
        let files = store.close();
        log_bytes = files.0;
        index_bytes = files.1;
    }
    let mut store = KvStore::open(path_string.to_string(), log_bytes, index_bytes).unwrap();
    let val = store.get("key".to_owned()).unwrap().unwrap();
    assert_eq!(val, "val".to_owned());
}

#[test]
fn test_compaction() {
    let mut store = fresh("/Users/lee/Code/RustLearn/pingcap-talent-plan/project-1");
    store.set("key".to_string(), "val".to_string()).unwrap();
    store.set("key".to_string(), "va2".to_string()).unwrap();
    store.set("key".to_string(), "val3".to_string()).unwrap();
    store.set("key".to_string(), "val4".to_string()).unwrap();
    let before_size = store.log.size();
    store.compact();
    let after_size = store.log.size();
    assert!(before_size > after_size);
    // four appended values before, only the live one after
    assert_eq!(before_size, 14);
    assert_eq!(after_size, 4);
    assert_eq!(store.get("key".to_string()).unwrap().unwrap(), "val4");
}

#[test]
fn sub_threshold_set_appends_exactly() {
    let mut store = fresh("d");
    store.set("key".to_string(), "val".to_string()).unwrap();
    store.set("key".to_string(), "va2".to_string()).unwrap();
    store.set("other".to_string(), "x".to_string()).unwrap();
    // each set below the threshold appends its value's bytes verbatim
    assert_eq!(store.log.bytes(), &b"valva2x".to_vec());
    assert_eq!(store.compactions, 0);
}

#[test]
fn set_then_get_returns_latest() {
    let mut store = fresh("d");
    store.set("a".to_string(), "first".to_string()).unwrap();
    store.set("a".to_string(), "second".to_string()).unwrap();
    store.set("b".to_string(), "other".to_string()).unwrap();
    assert_eq!(store.get("a".to_string()).unwrap().unwrap(), "second");
    assert_eq!(store.get("b".to_string()).unwrap().unwrap(), "other");
}

#[test]
fn get_absent_key_is_none() {
    let mut store = fresh("d");
    assert_eq!(store.get("missing".to_string()).unwrap(), None);
}

#[test]
fn remove_absent_key_not_found_and_unchanged() {
    let mut store = fresh("d");
    store.set("a".to_string(), "1".to_string()).unwrap();
    let before_len = store.index.len();
    let before_log = store.log.size();
    let r = store.remove("b".to_string());
    assert_eq!(r, Err(Error::KeyNotFound));
    assert_eq!(store.index.len(), before_len);
    assert_eq!(store.log.size(), before_log);
    assert_eq!(store.get("a".to_string()).unwrap().unwrap(), "1");
}

#[test]
fn remove_present_key_then_get_is_none() {
    let mut store = fresh("d");
    store.set("a".to_string(), "1".to_string()).unwrap();
    store.remove("a".to_string()).unwrap();
    assert_eq!(store.get("a".to_string()).unwrap(), None);
}

#[test]
fn compaction_keeps_values_and_shrinks_log() {
    let mut store = fresh("d");
    store.set("a".to_string(), "aaaa".to_string()).unwrap();
    store.set("b".to_string(), "bb".to_string()).unwrap();
    store.set("a".to_string(), "a2".to_string()).unwrap();
    store.set("c".to_string(), "cc".to_string()).unwrap();
    store.remove("b".to_string()).unwrap();
    let before = store.log.size();
    store.compact();
    let after = store.log.size();
    assert!(after <= before);
    // exactly the live values: "a2" and "cc"
    assert_eq!(after, 4);
    assert_eq!(store.get("a".to_string()).unwrap().unwrap(), "a2");
    assert_eq!(store.get("c".to_string()).unwrap().unwrap(), "cc");
    assert_eq!(store.get("b".to_string()).unwrap(), None);
}

#[test]
fn abandoned_copy_phase_changes_nothing() {
    let mut store = fresh("d");
    store.set("a".to_string(), "stale".to_string()).unwrap();
    store.set("a".to_string(), "live".to_string()).unwrap();
    let log_before = store.log.size();
    let keys_before = store.index.len();
    {
        // the copy phase alone; drop its result as a failed swap would
        let _abandoned = store.rebuilt();
    }
    assert_eq!(store.log.size(), log_before);
    assert_eq!(store.index.len(), keys_before);
    assert_eq!(store.get("a".to_string()).unwrap().unwrap(), "live");
}

#[test]
fn automatic_compaction_fires_and_keeps_all_keys() {
    let mut store = fresh("d");
    store.set_threshold(100);
    for i in 0..1000 {
        store.set(format!("key{}", i), format!("v{}", i)).unwrap();
    }
    assert!(store.compactions >= 1);
    for i in 0..1000 {
        assert_eq!(store.get(format!("key{}", i)).unwrap().unwrap(), format!("v{}", i));
    }
}

#[test]
fn scenario_set_get_remove_reopen() {
    let mut store = KvStore::open("dir".to_string(), Vec::new(), Vec::new()).unwrap();
    store.set("a".to_string(), "1".to_string()).unwrap();
    store.set("b".to_string(), "2".to_string()).unwrap();
    store.set("a".to_string(), "3".to_string()).unwrap();
    assert_eq!(store.get("a".to_string()).unwrap().unwrap(), "3");
    assert_eq!(store.get("b".to_string()).unwrap().unwrap(), "2");
    store.remove("b".to_string()).unwrap();
    assert_eq!(store.get("b".to_string()).unwrap(), None);
    let (log_bytes, index_bytes) = store.close();
    let mut store = KvStore::open("dir".to_string(), log_bytes, index_bytes).unwrap();
    assert_eq!(store.get("a".to_string()).unwrap().unwrap(), "3");
    assert_eq!(store.get("b".to_string()).unwrap(), None);
}

#[test]
fn compare_reports_containment() {
    let mut a = fresh("d1");
    let mut b = fresh("d2");
    a.set("k".to_string(), "v".to_string()).unwrap();
    b.set("k".to_string(), "v".to_string()).unwrap();
    b.set("extra".to_string(), "x".to_string()).unwrap();
    assert!(a.compare(&mut b));
    assert!(!b.compare(&mut a));
    b.set("k".to_string(), "other".to_string()).unwrap();
    assert!(!a.compare(&mut b));
}

#[test]
fn paths_are_joined_under_the_directory() {
    let store = fresh("/tmp/store");
    assert_eq!(store.get_db_path(), "/tmp/store/db.db");
    assert_eq!(store.get_index_path(), "/tmp/store/index.db");
}

#[test]
fn log_append_then_read_round_trips() {
    let mut log = LogFile::empty();
    let e1 = log.append(b"hello");
    let e2 = log.append(b" world");
    assert_eq!(log.read(&e1).unwrap(), b"hello".to_vec());
    assert_eq!(log.read(&e2).unwrap(), b" world".to_vec());
    assert_eq!(log.size(), 11);
}

#[test]
fn log_read_past_end_is_read_failure() {
    let mut log = LogFile::empty();
    log.append(b"abc");
    let past = Entry::new(2, 5);
    assert_eq!(log.read(&past), Err(Error::ReadFailure));
    let way_past = Entry::new(100, 1);
    assert_eq!(log.read(&way_past), Err(Error::ReadFailure));
}

#[test]
fn entry_new_keeps_its_fields() {
    let e = Entry::new(7, 3);
    assert_eq!(e.position, 7);
    assert_eq!(e.offset, 3);
}

#[test]
fn empty_key_and_empty_value_are_ordinary() {
    let mut store = fresh("d");
    store.set("".to_string(), "".to_string()).unwrap();
    store.set("k".to_string(), "".to_string()).unwrap();
    assert_eq!(store.get("".to_string()).unwrap().unwrap(), "");
    assert_eq!(store.get("k".to_string()).unwrap().unwrap(), "");
    let (log_bytes, index_bytes) = store.close();
    let mut store = KvStore::open("d".to_string(), log_bytes, index_bytes).unwrap();
    assert_eq!(store.get("".to_string()).unwrap().unwrap(), "");
    assert_eq!(store.get("k".to_string()).unwrap().unwrap(), "");
}

#[test]
fn compacting_an_empty_store_is_harmless() {
    let mut store = fresh("d");
    store.compact();
    assert_eq!(store.log.size(), 0);
    assert_eq!(store.compactions, 1);
    assert_eq!(store.get("a".to_string()).unwrap(), None);
}

#[test]
fn unicode_keys_and_values_survive() {
    let mut store = fresh("d");
    store.set("clé".to_string(), "värde—值".to_string()).unwrap();
    let (log_bytes, index_bytes) = store.close();
    let mut store = KvStore::open("d".to_string(), log_bytes, index_bytes).unwrap();
    assert_eq!(store.get("clé".to_string()).unwrap().unwrap(), "värde—值");
}
