use kvs::{DirFile, KVStoreError, KvStore};

fn open_empty() -> KvStore {
    KvStore::open(Vec::new()).expect("opening an empty directory succeeds")
}

fn file(name: &str, contents: &str) -> DirFile {
    DirFile { name: name.to_string(), contents: contents.to_string() }
}

fn reopen(store: &KvStore) -> KvStore {
    KvStore::open(store.files()).expect("reopening a store's own image succeeds")
}

#[test]
fn set_get_remove_roundtrip() {
    let mut store = open_empty();
    store.set("k".to_string(), "v".to_string()).unwrap();
    assert_eq!(store.get("k".to_string()).unwrap(), Some("v".to_string()));
    store.remove("k".to_string()).unwrap();
    assert_eq!(store.get("k".to_string()).unwrap(), None);
}

#[test]
fn second_set_wins() {
    let mut store = open_empty();
    store.set("k".to_string(), "v1".to_string()).unwrap();
    store.set("k".to_string(), "v2".to_string()).unwrap();
    assert_eq!(store.get("k".to_string()).unwrap(), Some("v2".to_string()));
}

#[test]
fn set_remove_set_restores() {
    let mut store = open_empty();
    store.set("k".to_string(), "v".to_string()).unwrap();
    store.remove("k".to_string()).unwrap();
    store.set("k".to_string(), "v".to_string()).unwrap();
    assert_eq!(store.get("k".to_string()).unwrap(), Some("v".to_string()));
}

#[test]
fn remove_absent_fails_and_writes_nothing() {
    let mut store = open_empty();
    store.set("a".to_string(), "1".to_string()).unwrap();
    let before = store.files();
    let r = store.remove("missing".to_string());
    assert!(matches!(r, Err(KVStoreError::KeyNotFound)));
    let after = store.files();
    assert_eq!(before.len(), after.len());
    for (b, a) in before.iter().zip(after.iter()) {
        assert_eq!(b.name, a.name);
        assert_eq!(b.contents, a.contents);
    }
}

#[test]
fn open_empty_directory() {
    let mut store = open_empty();
    assert_eq!(store.get("anything".to_string()).unwrap(), None);
    assert_eq!(store.current_file_number, 0);
}

#[test]
fn reopen_returns_last_value() {
    let mut store = open_empty();
    store.set("1".to_string(), "a".to_string()).unwrap();
    store.set("1".to_string(), "b".to_string()).unwrap();
    store.set("1".to_string(), "c".to_string()).unwrap();
    let mut second = reopen(&store);
    assert_eq!(second.get("1".to_string()).unwrap(), Some("c".to_string()));
}

#[test]
fn crash_without_close_loses_nothing() {
    let mut store = open_empty();
    store.set("k".to_string(), "v".to_string()).unwrap();
    // a crash keeps the files but not the process: drop the store and
    // rebuild everything from its directory image
    let image = store.files();
    drop(store);
    let mut second = KvStore::open(image).unwrap();
    assert_eq!(second.get("k".to_string()).unwrap(), Some("v".to_string()));
}

#[test]
fn reopen_preserves_every_key() {
    let mut store = open_empty();
    for i in 0..50 {
        store.set(format!("key{}", i), format!("value{}", i)).unwrap();
    }
    store.remove("key7".to_string()).unwrap();
    let mut second = reopen(&store);
    for i in 0..50 {
        let expected = if i == 7 { None } else { Some(format!("value{}", i)) };
        assert_eq!(second.get(format!("key{}", i)).unwrap(), expected);
    }
}

#[test]
fn foreign_backend_directory_is_refused() {
    let r = KvStore::open(vec![file("db", "opaque bytes of the other engine")]);
    assert!(matches!(r, Err(KVStoreError::ChangeEngineError)));
    let r = KvStore::open(vec![file("conf", "x")]);
    assert!(matches!(r, Err(KVStoreError::ChangeEngineError)));
}

#[test]
fn unrelated_files_are_ignored() {
    let mut store = KvStore::open(vec![
        file("readme.txt", "not a segment at all"),
        file("data_01.txt", "leading zero means not a segment"),
        file("notes.md", "S"),
    ])
    .unwrap();
    assert_eq!(store.get("readme".to_string()).unwrap(), None);
    store.set("k".to_string(), "v".to_string()).unwrap();
    assert_eq!(store.get("k".to_string()).unwrap(), Some("v".to_string()));
    // the store writes only its own segment files
    for f in store.files() {
        assert!(f.name.starts_with("data_") && f.name.ends_with(".txt"));
    }
}

#[test]
fn malformed_segment_is_a_codec_error() {
    let r = KvStore::open(vec![file("data_0.txt", "garbage that is no record")]);
    assert!(matches!(r, Err(KVStoreError::Serde(_))));
}

#[test]
fn truncated_tail_is_a_codec_error() {
    let mut store = open_empty();
    store.set("k".to_string(), "v".to_string()).unwrap();
    let mut image = store.files();
    // tear the final record in half
    let torn = image[0].contents.len() / 2;
    image[0].contents.truncate(torn);
    let r = KvStore::open(image);
    assert!(matches!(r, Err(KVStoreError::Serde(_))));
}

#[test]
fn waste_past_threshold_triggers_one_compaction() {
    let mut store = open_empty();
    let value = "x".repeat(100);
    store.set("k".to_string(), value.clone()).unwrap();
    assert_eq!(store.current_file_number, 0);
    // each overwrite wastes one 142-character record; the eighth pushes the
    // counter past 1024 and compaction runs exactly once
    for _ in 0..7 {
        store.set("k".to_string(), value.clone()).unwrap();
    }
    assert_eq!(store.current_file_number, 0);
    assert_eq!(store.useless_size, 994);
    store.set("k".to_string(), value.clone()).unwrap();
    assert_eq!(store.current_file_number, 2);
    assert_eq!(store.useless_size, 0);
    assert_eq!(store.get("k".to_string()).unwrap(), Some(value));
}

#[test]
fn segment_numbers_never_fall_back() {
    let mut store = open_empty();
    let value = "y".repeat(200);
    for i in 0..40 {
        store.set(format!("k{}", i % 3), value.clone()).unwrap();
    }
    let highest = store.current_file_number;
    assert!(highest > 0);
    let second = reopen(&store);
    assert!(second.current_file_number >= highest);
}

#[test]
fn thousand_keys_overwritten_stay_compact() {
    let mut store = open_empty();
    for i in 0..1000 {
        store.set(format!("{}", i), format!("{}", i)).unwrap();
    }
    for i in 0..1000 {
        store.set(format!("{}", i), "x".to_string()).unwrap();
    }
    assert_eq!(store.get("500".to_string()).unwrap(), Some("x".to_string()));
    // rewrites have been reclaimed: the waste estimate sits under the
    // threshold instead of holding a thousand dead records
    assert!(store.useless_size <= 1024);
    for i in (0..1000).step_by(97) {
        assert_eq!(store.get(format!("{}", i)).unwrap(), Some("x".to_string()));
    }
}
