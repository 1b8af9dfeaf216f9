//! The log-structured store: round trips, removal, persistence across
//! reopen, ranges, scopes and compaction.

use allotize::engine::{log_path, KvStore, KvsError, RangeBound};
use allotize::storage::Folder;

fn fresh_store() -> KvStore {
    KvStore::open(Folder::new()).unwrap()
}

#[test]
fn set_then_get() {
    let mut s = fresh_store();
    s.set("key13".to_string(), "value1".to_string()).unwrap();
    assert_eq!(s.get("key13").unwrap(), Some("value1".to_string()));
    s.set("key13".to_string(), "value2".to_string()).unwrap();
    assert_eq!(s.get("key13").unwrap(), Some("value2".to_string()));
}

#[test]
fn overwrite_keeps_latest() {
    let mut s = fresh_store();
    s.set("k".to_string(), "v1".to_string()).unwrap();
    s.set("k".to_string(), "v2".to_string()).unwrap();
    assert_eq!(s.get("k").unwrap(), Some("v2".to_string()));
}

#[test]
fn reopen_keeps_values() {
    let mut s = fresh_store();
    s.set("key4".to_string(), "value1".to_string()).unwrap();
    let folder = s.into_folder();
    let s2 = KvStore::open(folder).unwrap();
    assert_eq!(s2.get("key4").unwrap(), Some("value1".to_string()));
}

#[test]
fn reopen_after_many_operations() {
    let mut s = fresh_store();
    s.set("a".to_string(), "1".to_string()).unwrap();
    s.set("b".to_string(), "2".to_string()).unwrap();
    s.set("a".to_string(), "3".to_string()).unwrap();
    s.remove("b".to_string()).unwrap();
    s.set("c".to_string(), "4".to_string()).unwrap();
    let s2 = KvStore::open(s.into_folder()).unwrap();
    assert_eq!(s2.get("a").unwrap(), Some("3".to_string()));
    assert_eq!(s2.get("b").unwrap(), None);
    assert_eq!(s2.get("c").unwrap(), Some("4".to_string()));
}

#[test]
fn remove_missing_key() {
    let mut s = fresh_store();
    assert_eq!(s.remove("keybad".to_string()), Err(KvsError::KeyNotFound));
}

#[test]
fn set_remove_then_remove_again() {
    let mut s = fresh_store();
    s.set("k".to_string(), "v".to_string()).unwrap();
    s.remove("k".to_string()).unwrap();
    assert_eq!(s.get("k").unwrap(), None);
    assert_eq!(s.remove("k".to_string()), Err(KvsError::KeyNotFound));
}

#[test]
fn get_missing_is_none() {
    let s = fresh_store();
    assert_eq!(s.get("nothing").unwrap(), None);
}

#[test]
fn range_queries() {
    let mut s = fresh_store();
    s.set("apple".to_string(), "1".to_string()).unwrap();
    s.set("banana".to_string(), "2".to_string()).unwrap();
    s.set("cherry".to_string(), "3".to_string()).unwrap();
    let r = s
        .get_range(
            &RangeBound::Included("apple".to_string()),
            &RangeBound::Excluded("cherry".to_string()),
        )
        .unwrap();
    assert_eq!(r.len(), 2);
    assert_eq!(r[0], ("apple".to_string(), "1".to_string()));
    assert_eq!(r[1], ("banana".to_string(), "2".to_string()));

    let all = s
        .get_range(&RangeBound::Unbounded, &RangeBound::Unbounded)
        .unwrap();
    assert_eq!(all.len(), 3);
    assert_eq!(all[0].0, "apple");
    assert_eq!(all[1].0, "banana");
    assert_eq!(all[2].0, "cherry");
}

#[test]
fn get_all_ascending() {
    let mut s = fresh_store();
    s.set("b".to_string(), "2".to_string()).unwrap();
    s.set("a".to_string(), "1".to_string()).unwrap();
    s.set("c".to_string(), "3".to_string()).unwrap();
    let all = s.get_all().unwrap();
    assert_eq!(
        all,
        vec![
            ("a".to_string(), "1".to_string()),
            ("b".to_string(), "2".to_string()),
            ("c".to_string(), "3".to_string()),
        ]
    );
}

fn folder_bytes(f: &Folder) -> usize {
    let mut total = 0;
    for file in &f.files {
        total += file.data.len();
    }
    total
}

#[test]
fn compaction_shrinks_backing_files() {
    let mut s = fresh_store();
    let big = "x".repeat(1000);
    // Overwrite one key until the stale bytes cross the threshold.
    for _ in 0..40 {
        s.set("k".to_string(), big.clone()).unwrap();
    }
    assert_eq!(s.get("k").unwrap(), Some(big.clone()));
    let folder = s.into_folder();
    // Forty records of a kilobyte were written; compaction keeps the
    // backing bytes near the live record plus at most the threshold of
    // stale bytes, well under the forty kilobytes appended.
    assert!(folder_bytes(&folder) < 20_000);
    let s2 = KvStore::open(folder).unwrap();
    assert_eq!(s2.get("k").unwrap(), Some(big));
}

#[test]
fn compaction_preserves_contents() {
    let mut s = fresh_store();
    let big = "y".repeat(600);
    for i in 0..30 {
        s.set(format!("key{}", i % 3), format!("{}{}", big, i)).unwrap();
    }
    assert_eq!(s.get("key0").unwrap(), Some(format!("{}{}", big, 27)));
    assert_eq!(s.get("key1").unwrap(), Some(format!("{}{}", big, 28)));
    assert_eq!(s.get("key2").unwrap(), Some(format!("{}{}", big, 29)));
}

#[test]
fn scoped_writes_share_the_index() {
    let mut s = fresh_store();
    s.add_substore("cache").unwrap();
    s.set_scoped("k1".to_string(), "v1".to_string(), Some("cache")).unwrap();
    s.set("k2".to_string(), "v2".to_string()).unwrap();
    assert_eq!(s.get_scoped("k1", Some("cache")).unwrap(), Some("v1".to_string()));
    assert_eq!(s.get("k1").unwrap(), Some("v1".to_string()));
    assert_eq!(s.get("k2").unwrap(), Some("v2".to_string()));
    let s2 = KvStore::open(s.into_folder()).unwrap();
    assert_eq!(s2.get("k1").unwrap(), Some("v1".to_string()));
    assert_eq!(s2.get("k2").unwrap(), Some("v2".to_string()));
}

#[test]
fn txn_batches_operations() {
    let s = fresh_store();
    let mut t = s.txn();
    t.set("a".to_string(), "1".to_string()).unwrap();
    assert_eq!(t.get("a").unwrap(), Some("1".to_string()));
    t.remove("a".to_string()).unwrap();
    assert_eq!(t.get("a").unwrap(), None);
    let s = t.finish();
    assert_eq!(s.get("a").unwrap(), None);
}

#[test]
fn log_path_names_generation_files() {
    assert_eq!(log_path("store", 0), "store/0");
    assert_eq!(log_path("store", 42), "store/42");
    assert_eq!(log_path("a/b", 18446744073709551615), "a/b/18446744073709551615");
}

#[test]
fn torn_tail_is_ignored_on_open() {
    let mut s = fresh_store();
    s.set("good".to_string(), "value".to_string()).unwrap();
    let mut folder = s.into_folder();
    // A torn write: garbage at the end of the newest file.
    let last = folder.files.len() - 1;
    folder.files[last].data.extend_from_slice(&[0u8, 17, 3]);
    let s2 = KvStore::open(folder).unwrap();
    assert_eq!(s2.get("good").unwrap(), Some("value".to_string()));
}
