use s3_store::entities::ObjectRecord;
use s3_store::listing::{ListEntry, Page};
use s3_store::storage::StorageProvider;

fn put(store: &mut StorageProvider, bucket: &str, key: &str) {
    let rec = ObjectRecord {
        id: 1,
        key: key.to_string(),
        size: 4,
        etag: format!("etag-{key}"),
        last_modified: 0,
        bucket_name: bucket.to_string(),
        file_id: format!("file-{key}"),
    };
    store.put_object_record(rec).unwrap();
}

fn names(page: &Page) -> Vec<String> {
    page.entries
        .iter()
        .map(|e| match e {
            ListEntry::Object(rec) => rec.key.clone(),
            ListEntry::CommonPrefix(s) => s.clone(),
        })
        .collect()
}

#[test]
fn prefix_keeps_matching_keys_only() {
    let mut store = StorageProvider::new();
    store.create_bucket("test", None).unwrap();
    put(&mut store, "test", "sample.jpg");
    put(&mut store, "test", "other.png");
    let page = store.list_objects("test", None, None, None, Some("sam"));
    assert_eq!(names(&page), vec!["sample.jpg".to_string()]);
    assert!(!page.is_truncated);
    assert!(page.next_marker.is_none());
}

#[test]
fn marker_is_exclusive() {
    let mut store = StorageProvider::new();
    store.create_bucket("test", None).unwrap();
    put(&mut store, "test", "a");
    put(&mut store, "test", "b");
    put(&mut store, "test", "c");
    let page = store.list_objects("test", None, Some("b"), None, None);
    assert_eq!(names(&page), vec!["c".to_string()]);
}

#[test]
fn delimiter_groups_shared_prefixes_once() {
    let mut store = StorageProvider::new();
    store.create_bucket("test", None).unwrap();
    put(&mut store, "test", "a/b");
    put(&mut store, "test", "a/c");
    put(&mut store, "test", "d");
    let page = store.list_objects("test", Some('/'), None, None, None);
    assert_eq!(names(&page), vec!["a/".to_string(), "d".to_string()]);
    assert!(matches!(page.entries[0], ListEntry::CommonPrefix(_)));
    assert!(matches!(page.entries[1], ListEntry::Object(_)));
    assert!(!page.is_truncated);
}

#[test]
fn max_keys_above_limit_is_clamped() {
    let mut store = StorageProvider::new();
    store.create_bucket("test", None).unwrap();
    put(&mut store, "test", "a");
    put(&mut store, "test", "b");
    put(&mut store, "test", "c");
    let clamped = store.list_objects("test", None, None, Some(4000), None);
    let exact = store.list_objects("test", None, None, Some(1000), None);
    let unset = store.list_objects("test", None, None, None, None);
    assert_eq!(names(&clamped), names(&exact));
    assert_eq!(names(&clamped), names(&unset));
    assert_eq!(clamped.is_truncated, exact.is_truncated);
    assert!(clamped.entries.len() <= 1000);
}

#[test]
fn truncated_page_names_resume_marker() {
    let mut store = StorageProvider::new();
    store.create_bucket("test", None).unwrap();
    put(&mut store, "test", "a");
    put(&mut store, "test", "b");
    put(&mut store, "test", "c");
    let page = store.list_objects("test", None, None, Some(2), None);
    assert_eq!(names(&page), vec!["a".to_string(), "b".to_string()]);
    assert!(page.is_truncated);
    assert_eq!(page.next_marker.as_deref(), Some("b"));
    let rest = store.list_objects("test", None, None, Some(2), None);
    let marker = page.next_marker.clone().unwrap();
    let resumed = store.list_objects("test", None, Some(marker.as_str()), Some(2), None);
    assert_eq!(names(&resumed), vec!["c".to_string()]);
    assert!(!resumed.is_truncated);
    assert_eq!(names(&rest), names(&page));
}

#[test]
fn truncated_group_consumes_terminal_member() {
    let mut store = StorageProvider::new();
    store.create_bucket("test", None).unwrap();
    put(&mut store, "test", "a/1");
    put(&mut store, "test", "a/2");
    put(&mut store, "test", "b");
    let page = store.list_objects("test", Some('/'), None, Some(1), None);
    assert_eq!(names(&page), vec!["a/".to_string()]);
    assert!(page.is_truncated);
    assert_eq!(page.next_marker.as_deref(), Some("a/2"));
    let marker = page.next_marker.clone().unwrap();
    let resumed = store.list_objects("test", Some('/'), Some(marker.as_str()), Some(1), None);
    assert_eq!(names(&resumed), vec!["b".to_string()]);
    assert!(!resumed.is_truncated);
}

#[test]
fn delimiter_after_prefix_only() {
    let mut store = StorageProvider::new();
    store.create_bucket("test", None).unwrap();
    put(&mut store, "test", "photos/2023/jan.png");
    put(&mut store, "test", "photos/2023/feb.png");
    put(&mut store, "test", "photos/readme");
    let page = store.list_objects("test", Some('/'), None, None, Some("photos/"));
    assert_eq!(
        names(&page),
        vec!["photos/2023/".to_string(), "photos/readme".to_string()]
    );
    assert!(matches!(page.entries[0], ListEntry::CommonPrefix(_)));
    assert!(matches!(page.entries[1], ListEntry::Object(_)));
}

#[test]
fn listing_unknown_bucket_is_empty() {
    let store = StorageProvider::new();
    let page = store.list_objects("ghost", None, None, None, None);
    assert_eq!(page.entries.len(), 0);
    assert!(!page.is_truncated);
    assert!(page.next_marker.is_none());
}

#[test]
fn listing_is_sorted_ascending() {
    let mut store = StorageProvider::new();
    store.create_bucket("test", None).unwrap();
    put(&mut store, "test", "pear");
    put(&mut store, "test", "apple");
    put(&mut store, "test", "mango");
    let page = store.list_objects("test", None, None, None, None);
    assert_eq!(
        names(&page),
        vec!["apple".to_string(), "mango".to_string(), "pear".to_string()]
    );
}

#[test]
fn max_keys_zero_returns_nothing() {
    let mut store = StorageProvider::new();
    store.create_bucket("test", None).unwrap();
    put(&mut store, "test", "a");
    let page = store.list_objects("test", None, None, Some(0), None);
    assert_eq!(page.entries.len(), 0);
    assert!(page.is_truncated);
    assert!(page.next_marker.is_none());
}

#[test]
fn prefix_without_matches() {
    let mut store = StorageProvider::new();
    store.create_bucket("test", None).unwrap();
    put(&mut store, "test", "alpha");
    let page = store.list_objects("test", None, None, None, Some("zzz"));
    assert_eq!(page.entries.len(), 0);
    assert!(!page.is_truncated);
}

#[test]
fn marker_and_prefix_combine() {
    let mut store = StorageProvider::new();
    store.create_bucket("test", None).unwrap();
    put(&mut store, "test", "log/2023");
    put(&mut store, "test", "log/2024");
    put(&mut store, "test", "log/2025");
    put(&mut store, "test", "other");
    let page = store.list_objects("test", None, Some("log/2023"), None, Some("log/"));
    assert_eq!(names(&page), vec!["log/2024".to_string(), "log/2025".to_string()]);
}

#[test]
fn pagination_walks_every_key_once() {
    let mut store = StorageProvider::new();
    store.create_bucket("test", None).unwrap();
    let keys = ["a", "b", "c", "d", "e", "f", "g"];
    for k in keys {
        put(&mut store, "test", k);
    }
    let mut seen: Vec<String> = Vec::new();
    let mut marker: Option<String> = None;
    loop {
        let page = store.list_objects("test", None, marker.as_deref(), Some(3), None);
        seen.extend(names(&page));
        if !page.is_truncated {
            break;
        }
        marker = page.next_marker.clone();
        assert!(marker.is_some());
    }
    let expected: Vec<String> = keys.iter().map(|k| k.to_string()).collect();
    assert_eq!(seen, expected);
}

#[test]
fn key_ending_in_delimiter_is_a_group() {
    let mut store = StorageProvider::new();
    store.create_bucket("test", None).unwrap();
    put(&mut store, "test", "dir/");
    put(&mut store, "test", "file");
    let page = store.list_objects("test", Some('/'), None, None, None);
    assert_eq!(names(&page), vec!["dir/".to_string(), "file".to_string()]);
    assert!(matches!(page.entries[0], ListEntry::CommonPrefix(_)));
    assert!(matches!(page.entries[1], ListEntry::Object(_)));
}
