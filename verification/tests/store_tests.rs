use std::collections::BTreeMap;

use kvs::KvsError;
use kvs::codec::Record;
use kvs::codec::encode_record;
use kvs::store::FileOp;
use kvs::store::KvStore;
use kvs::store::SegmentFile;

/// Mirror the store's file instructions onto an in-memory directory.
fn apply_to_dir(dir: &mut BTreeMap<u64, Vec<u8>>, ops: Vec<FileOp>) {
    for op in ops {
        match op {
            FileOp::Create { name } => {
                dir.insert(name, Vec::new());
            }
            FileOp::Append { name, bytes } => {
                dir.entry(name).or_insert_with(Vec::new).extend_from_slice(&bytes);
            }
            FileOp::Remove { name } => {
                dir.remove(&name);
            }
        }
    }
}

fn dir_files(dir: &BTreeMap<u64, Vec<u8>>) -> Vec<SegmentFile> {
    dir.iter().map(|(n, b)| SegmentFile { name: *n, bytes: b.clone() }).collect()
}

fn open_fresh(dir: &mut BTreeMap<u64, Vec<u8>>) -> KvStore {
    let (store, ops) = KvStore::open(dir_files(dir)).expect("open failed");
    apply_to_dir(dir, ops);
    store
}

#[test]
fn set_get_overwrite_remove() {
    let mut dir = BTreeMap::new();
    let mut store = open_fresh(&mut dir);
    let ops = store.set("k".to_owned(), "v1".to_owned()).unwrap();
    apply_to_dir(&mut dir, ops);
    assert_eq!(store.get("k".to_owned()).unwrap(), Some("v1".to_owned()));
    let ops = store.set("k".to_owned(), "v2".to_owned()).unwrap();
    apply_to_dir(&mut dir, ops);
    assert_eq!(store.get("k".to_owned()).unwrap(), Some("v2".to_owned()));
    let ops = store.remove("k".to_owned()).unwrap();
    apply_to_dir(&mut dir, ops);
    assert_eq!(store.get("k".to_owned()).unwrap(), None);
}

#[test]
fn remove_absent_key_fails() {
    let mut dir = BTreeMap::new();
    let mut store = open_fresh(&mut dir);
    let r = store.remove("absent".to_owned());
    assert!(matches!(r, Err(KvsError::NonExistantKey)));
    let ops = store.set("absent".to_owned(), "v".to_owned()).unwrap();
    apply_to_dir(&mut dir, ops);
    assert_eq!(store.get("absent".to_owned()).unwrap(), Some("v".to_owned()));
}

#[test]
fn many_keys_survive_reopen() {
    let mut dir = BTreeMap::new();
    let mut store = open_fresh(&mut dir);
    for i in 0..300u32 {
        let ops = store.set(format!("key{}", i), format!("value{}", i)).unwrap();
        apply_to_dir(&mut dir, ops);
    }
    for i in 0..300u32 {
        assert_eq!(store.get(format!("key{}", i)).unwrap(), Some(format!("value{}", i)));
    }
    drop(store);
    let store2 = open_fresh(&mut dir);
    for i in 0..300u32 {
        assert_eq!(store2.get(format!("key{}", i)).unwrap(), Some(format!("value{}", i)));
    }
}

#[test]
fn tombstone_survives_reopen() {
    let mut dir = BTreeMap::new();
    let mut store = open_fresh(&mut dir);
    let ops = store.set("a".to_owned(), "1".to_owned()).unwrap();
    apply_to_dir(&mut dir, ops);
    let ops = store.set("b".to_owned(), "2".to_owned()).unwrap();
    apply_to_dir(&mut dir, ops);
    let ops = store.remove("a".to_owned()).unwrap();
    apply_to_dir(&mut dir, ops);
    drop(store);
    let store2 = open_fresh(&mut dir);
    assert_eq!(store2.get("a".to_owned()).unwrap(), None);
    assert_eq!(store2.get("b".to_owned()).unwrap(), Some("2".to_owned()));
}

#[test]
fn rotation_retires_active_segment() {
    let mut dir = BTreeMap::new();
    let mut store = open_fresh(&mut dir);
    store.rotation_threshold = 200;
    let blob = "x".repeat(300);
    for _ in 0..3 {
        let ops = store.set("k".to_owned(), blob.clone()).unwrap();
        apply_to_dir(&mut dir, ops);
    }
    assert!(store.segments.len() >= 2, "no rotation happened");
    assert_eq!(store.get("k".to_owned()).unwrap(), Some(blob));
}

#[test]
fn compaction_leaves_one_segment() {
    let mut dir = BTreeMap::new();
    let mut store = open_fresh(&mut dir);
    store.rotation_threshold = 100;
    store.compaction_threshold = 2;
    for i in 0..40u32 {
        let ops = store.set(format!("k{}", i % 5), format!("padpadpadpadpadpad{}", i)).unwrap();
        apply_to_dir(&mut dir, ops);
    }
    let ops = store.compact().unwrap();
    apply_to_dir(&mut dir, ops);
    assert_eq!(store.segments.len(), 1);
    assert_eq!(dir.len(), 1, "directory must hold exactly one segment");
    for i in 35..40u32 {
        assert_eq!(
            store.get(format!("k{}", i % 5)).unwrap(),
            Some(format!("padpadpadpadpadpad{}", i))
        );
    }
}

#[test]
fn compaction_is_size_reducing() {
    let mut dir = BTreeMap::new();
    let mut store = open_fresh(&mut dir);
    for i in 0..20u32 {
        let ops = store.set("samekey".to_owned(), format!("version{}", i)).unwrap();
        apply_to_dir(&mut dir, ops);
    }
    let before: usize = dir.values().map(|b| b.len()).sum();
    let ops = store.compact().unwrap();
    apply_to_dir(&mut dir, ops);
    let after: usize = dir.values().map(|b| b.len()).sum();
    // one live key: the directory shrinks to that record alone
    let live = encode_record(&Record::Put("samekey".to_owned(), "version19".to_owned())).unwrap();
    assert_eq!(after, live.len());
    assert!(after <= before);
}

#[test]
fn compacted_directory_replays_to_same_store() {
    let mut dir = BTreeMap::new();
    let mut store = open_fresh(&mut dir);
    for i in 0..10u32 {
        let ops = store.set(format!("k{}", i), format!("v{}", i)).unwrap();
        apply_to_dir(&mut dir, ops);
    }
    let ops = store.remove("k3".to_owned()).unwrap();
    apply_to_dir(&mut dir, ops);
    let ops = store.compact().unwrap();
    apply_to_dir(&mut dir, ops);
    drop(store);
    let store2 = open_fresh(&mut dir);
    assert_eq!(store2.get("k3".to_owned()).unwrap(), None);
    for i in [0u32, 1, 2, 4, 5, 6, 7, 8, 9] {
        assert_eq!(store2.get(format!("k{}", i)).unwrap(), Some(format!("v{}", i)));
    }
}

#[test]
fn compaction_writes_replacement_before_unlinking() {
    let mut dir = BTreeMap::new();
    let mut store = open_fresh(&mut dir);
    for i in 0..5u32 {
        let ops = store.set(format!("k{}", i), format!("v{}", i)).unwrap();
        apply_to_dir(&mut dir, ops);
    }
    let ops = store.compact().unwrap();
    assert!(matches!(ops[0], FileOp::Create { .. }));
    assert!(matches!(ops[1], FileOp::Append { .. }));
    for op in &ops[2..] {
        assert!(matches!(op, FileOp::Remove { .. }));
    }
    apply_to_dir(&mut dir, ops);
    assert_eq!(dir.len(), 1);
}

#[test]
fn open_rejects_corrupt_segment() {
    let files = vec![SegmentFile { name: 7, bytes: vec![0xc1, 0xff, 0x00] }];
    let r = KvStore::open(files);
    assert!(matches!(r, Err(KvsError::SerializationError(_))));
}

#[test]
fn open_empty_directory_creates_segment() {
    let mut dir = BTreeMap::new();
    let store = open_fresh(&mut dir);
    assert_eq!(dir.len(), 1);
    assert_eq!(store.get("anything".to_owned()).unwrap(), None);
}
