use kvs::error::{Error, ErrorKind};
use kvs::paths::make_next_db_log_path;
use kvs::store::KvStore;

/// Appends what the store prepares to `disk`, the bytes of its log file, and
/// compacts when the store says so, as a caller that owns the file does.
fn set(store: &mut KvStore, disk: &mut Vec<u8>, key: &str, value: &str) {
    let a = store.prepare_set(key.to_string(), value.to_string()).unwrap();
    assert_eq!(a.offset() as usize, disk.len());
    disk.extend_from_slice(a.bytes());
    if store.commit(a).unwrap() {
        compact(store, disk);
    }
}

fn remove(store: &mut KvStore, disk: &mut Vec<u8>, key: &str) -> Result<(), Error> {
    let a = store.prepare_remove(key.to_string())?;
    disk.extend_from_slice(a.bytes());
    if store.commit(a)? {
        compact(store, disk);
    }
    Ok(())
}

fn compact(store: &mut KvStore, disk: &mut Vec<u8>) {
    let path = make_next_db_log_path(store.file_path());
    let c = store.copy_active_records(disk.clone(), path).unwrap();
    *disk = c.bytes().clone();
    let _old = store.finish_compaction(c);
}

fn get(store: &KvStore, disk: &[u8], key: &str) -> Option<String> {
    let key = key.to_string();
    match store.locate(&key) {
        Some((offset, len)) => {
            let start = offset as usize;
            let end = start + len as usize;
            store.get(&key, disk[start..end].to_vec()).unwrap()
        }
        None => store.get(&key, Vec::new()).unwrap(),
    }
}

fn fresh() -> (KvStore, Vec<u8>) {
    (KvStore::new("d/kvsdb-0123456789abcdef0123456789abcdef.log".to_string()), Vec::new())
}

#[test]
fn doc_test_package() {
    let (mut store, mut disk) = fresh();
    set(&mut store, &mut disk, "key1", "value1");
    assert_eq!(get(&store, &disk, "key1"), Some("value1".into()));
    assert!(get(&store, &disk, "key2").is_none());
    let _ = remove(&mut store, &mut disk, "key1");
    assert_eq!(get(&store, &disk, "key1"), None);
}

#[test]
fn basic_round_trip() {
    let (mut store, mut disk) = fresh();
    set(&mut store, &mut disk, "key1", "value1");
    assert_eq!(get(&store, &disk, "key1"), Some("value1".to_string()));
    assert_eq!(get(&store, &disk, "key2"), None);
    remove(&mut store, &mut disk, "key1").unwrap();
    assert_eq!(get(&store, &disk, "key1"), None);
}

#[test]
fn recovery_after_reopen() {
    let (mut s1, mut disk) = fresh();
    set(&mut s1, &mut disk, "a", "1");
    set(&mut s1, &mut disk, "b", "2");
    set(&mut s1, &mut disk, "a", "3");
    let path = s1.file_path().clone();
    drop(s1);
    let s2 = KvStore::open(path, disk.clone()).unwrap();
    assert_eq!(get(&s2, &disk, "a"), Some("3".to_string()));
    assert_eq!(get(&s2, &disk, "b"), Some("2".to_string()));
    assert_eq!(s2.stale_count(), 1);
    assert_eq!(s2.log_len() as usize, disk.len());
}

#[test]
fn remove_semantics() {
    let (mut store, mut disk) = fresh();
    let err = remove(&mut store, &mut disk, "missing").err().unwrap();
    assert_eq!(*err.kind(), ErrorKind::KeyNotPresent);
    assert_eq!(disk.len(), 0);
    assert_eq!(store.log_len(), 0);
    set(&mut store, &mut disk, "x", "y");
    remove(&mut store, &mut disk, "x").unwrap();
    let path = store.file_path().clone();
    drop(store);
    let reopened = KvStore::open(path, disk.clone()).unwrap();
    assert_eq!(get(&reopened, &disk, "x"), None);
    assert_eq!(reopened.stale_count(), 1);
}

#[test]
fn remove_of_absent_key_appends_nothing() {
    let (mut store, mut disk) = fresh();
    set(&mut store, &mut disk, "a", "1");
    let before = disk.len();
    let err = remove(&mut store, &mut disk, "b").err().unwrap();
    assert_eq!(*err.kind(), ErrorKind::KeyNotPresent);
    assert_eq!(disk.len(), before);
    assert_eq!(store.stale_count(), 0);
}

#[test]
fn one_key_never_reaches_four_live_keys() {
    let (mut store, mut disk) = fresh();
    store.set_compaction_thresholds(4, 1, 2);
    for v in ["v1", "v2", "v3", "v4", "v5"] {
        set(&mut store, &mut disk, "k", v);
    }
    assert_eq!(get(&store, &disk, "k"), Some("v5".to_string()));
    assert_eq!(store.stale_count(), 4);
    assert!(!store.compaction_due());
}

#[test]
fn compaction_triggers() {
    let (mut store, mut disk) = fresh();
    store.set_compaction_thresholds(4, 1, 2);
    for k in ["k1", "k2", "k3", "k4"] {
        set(&mut store, &mut disk, k, "v1");
    }
    set(&mut store, &mut disk, "k1", "v2");
    assert_eq!(store.stale_count(), 1);
    let before = disk.len();
    set(&mut store, &mut disk, "k2", "v2");
    assert_eq!(store.stale_count(), 0);
    assert!(disk.len() < before);
    assert!(store.file_path().ends_with(".log"));
    assert!(store.file_path().starts_with("d/kvsdb-"));
    assert_eq!(get(&store, &disk, "k1"), Some("v2".to_string()));
    assert_eq!(get(&store, &disk, "k2"), Some("v2".to_string()));
    assert_eq!(get(&store, &disk, "k3"), Some("v1".to_string()));
    let reopened = KvStore::open(store.file_path().clone(), disk.clone()).unwrap();
    assert_eq!(reopened.stale_count(), 0);
    let mut count = 0;
    let mut de = kvs::de::Deserializer::new(disk.clone());
    let mut offset = 0u64;
    while let Some(rec) = kvs::record::read_record(&mut de).unwrap() {
        assert_eq!(rec.db_key, offset);
        offset = de.position() as u64;
        count += 1;
    }
    assert_eq!(count, 4);
}

#[test]
fn compaction_preserves_all_live_keys() {
    let (mut store, mut disk) = fresh();
    for i in 0..200 {
        set(&mut store, &mut disk, &format!("key{}", i), &format!("value{}", i));
    }
    for i in 0..100 {
        set(&mut store, &mut disk, &format!("key{}", i * 2), &format!("new{}", i * 2));
    }
    let check = |store: &KvStore, disk: &[u8]| {
        for i in 0..200 {
            let expected = if i % 2 == 0 {
                format!("new{}", i)
            } else {
                format!("value{}", i)
            };
            assert_eq!(get(store, disk, &format!("key{}", i)), Some(expected));
        }
    };
    check(&store, &disk);
    assert!(store.stale_count() < 50);
    let reopened = KvStore::open(store.file_path().clone(), disk.clone()).unwrap();
    check(&reopened, &disk);
}

#[test]
fn set_twice_is_set_once() {
    let (mut a, mut da) = fresh();
    let (mut b, mut db) = fresh();
    set(&mut a, &mut da, "k", "v");
    set(&mut b, &mut db, "k", "v");
    set(&mut b, &mut db, "k", "v");
    assert_eq!(get(&a, &da, "k"), get(&b, &db, "k"));
    assert!(a.contains_key(&"k".to_string()) && b.contains_key(&"k".to_string()));
}

#[test]
fn stale_append_is_refused() {
    let (mut store, mut disk) = fresh();
    let first = store.prepare_set("a".to_string(), "1".to_string()).unwrap();
    let second = store.prepare_set("b".to_string(), "2".to_string()).unwrap();
    disk.extend_from_slice(first.bytes());
    store.commit(first).unwrap();
    let err = store.commit(second).err().unwrap();
    assert_eq!(*err.kind(), ErrorKind::UnknownError);
    assert_eq!(store.log_len() as usize, disk.len());
}

#[test]
fn open_refuses_what_is_not_a_log() {
    let path = "kvsdb-0123456789abcdef0123456789abcdef.log".to_string();
    let empty = KvStore::open(path.clone(), Vec::new()).unwrap();
    assert_eq!(empty.log_len(), 0);
    let err = KvStore::open(path.clone(), b"garbage".to_vec()).err().unwrap();
    assert_eq!(*err.kind(), ErrorKind::IoError);
    let (mut store, mut disk) = fresh();
    set(&mut store, &mut disk, "a", "1");
    set(&mut store, &mut disk, "b", "2");
    let cut = disk[..disk.len() - 1].to_vec();
    assert_eq!(*KvStore::open(path.clone(), cut).err().unwrap().kind(), ErrorKind::IoError);
    let mut moved = disk.clone();
    let second = store.locate(&"b".to_string()).unwrap().0 as usize;
    moved.drain(..second);
    assert_eq!(*KvStore::open(path, moved).err().unwrap().kind(), ErrorKind::IoError);
}

#[test]
fn get_refuses_wrong_bytes() {
    let (mut store, mut disk) = fresh();
    set(&mut store, &mut disk, "a", "1");
    set(&mut store, &mut disk, "b", "2");
    let (offset, len) = store.locate(&"b".to_string()).unwrap();
    let wrong = disk[..(len as usize).min(disk.len())].to_vec();
    assert!(offset > 0);
    let err = store.get(&"b".to_string(), wrong).err().unwrap();
    assert_eq!(*err.kind(), ErrorKind::IoError);
}

#[test]
fn compaction_of_wrong_bytes_fails_and_keeps_the_store() {
    let (mut store, mut disk) = fresh();
    set(&mut store, &mut disk, "a", "1");
    let err = store
        .copy_active_records(b"junk".to_vec(), "kvsdb-x.compact".to_string())
        .err().unwrap();
    assert_eq!(*err.kind(), ErrorKind::IoError);
    assert_eq!(get(&store, &disk, "a"), Some("1".to_string()));
}

#[test]
fn error_kinds() {
    let e = Error::new(ErrorKind::KeyNotPresent);
    assert_eq!(*e.kind(), ErrorKind::KeyNotPresent);
    assert_eq!(ErrorKind::IoError.description(), "An I/O error occurred");
    assert_eq!(ErrorKind::KeyNotPresent.description(), "Key not present in database");
    assert_eq!(ErrorKind::UnknownError.description(), "An unknown error occurred");
}

#[test]
fn empty_and_multiline_keys_and_values() {
    let (mut store, mut disk) = fresh();
    set(&mut store, &mut disk, "", "");
    set(&mut store, &mut disk, "two\nlines", "∑ and\r\nmore");
    assert_eq!(get(&store, &disk, ""), Some(String::new()));
    assert_eq!(get(&store, &disk, "two\nlines"), Some("∑ and\r\nmore".to_string()));
    let reopened = kvs::KvStore::open(store.file_path().clone(), disk.clone()).unwrap();
    assert_eq!(get(&reopened, &disk, "two\nlines"), Some("∑ and\r\nmore".to_string()));
    assert_eq!(reopened.stale_count(), 0);
}

#[test]
fn reopen_after_compaction() {
    let (mut store, mut disk) = fresh();
    store.set_compaction_thresholds(2, 1, 1);
    set(&mut store, &mut disk, "a", "1");
    set(&mut store, &mut disk, "b", "1");
    set(&mut store, &mut disk, "a", "2");
    assert_eq!(store.stale_count(), 1);
    set(&mut store, &mut disk, "b", "2");
    assert_eq!(store.stale_count(), 0);
    remove(&mut store, &mut disk, "a").unwrap();
    let reopened = KvStore::open(store.file_path().clone(), disk.clone()).unwrap();
    assert_eq!(get(&reopened, &disk, "a"), None);
    assert_eq!(get(&reopened, &disk, "b"), Some("2".to_string()));
    assert_eq!(reopened.stale_count(), store.stale_count());
}

#[test]
fn compaction_keeps_live_records_in_log_order() {
    let (mut store, mut disk) = fresh();
    store.set_compaction_thresholds(3, 1, 3);
    set(&mut store, &mut disk, "a", "1");
    set(&mut store, &mut disk, "b", "1");
    set(&mut store, &mut disk, "c", "1");
    set(&mut store, &mut disk, "a", "2");
    assert_eq!(store.stale_count(), 0);
    let mut de = kvs::de::Deserializer::new(disk.clone());
    let mut keys = Vec::new();
    let mut offset = 0u64;
    while let Some(rec) = kvs::record::read_record(&mut de).unwrap() {
        assert_eq!(rec.db_key, offset);
        offset = de.position() as u64;
        keys.push((rec.key, rec.value));
    }
    let expected: Vec<(String, Option<String>)> = vec![
        ("b".into(), Some("1".into())),
        ("c".into(), Some("1".into())),
        ("a".into(), Some("2".into())),
    ];
    assert_eq!(keys, expected);
}

#[test]
fn live_key_with_undecodable_bytes_is_an_error() {
    let (mut store, mut disk) = fresh();
    set(&mut store, &mut disk, "a", "1");
    let err = store.get(&"a".to_string(), Vec::new()).err().unwrap();
    assert_eq!(*err.kind(), ErrorKind::IoError);
}

#[test]
fn compaction_of_a_cut_log_fails() {
    let (mut store, mut disk) = fresh();
    set(&mut store, &mut disk, "a", "1");
    set(&mut store, &mut disk, "b", "2");
    let cut = disk[..disk.len() - 3].to_vec();
    let err = store
        .copy_active_records(cut, "kvsdb-x.compact".to_string())
        .err()
        .unwrap();
    assert_eq!(*err.kind(), ErrorKind::IoError);
}
