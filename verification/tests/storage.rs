use s3_store::entities::ObjectRecord;
use s3_store::error::StorageErr;
use s3_store::storage::StorageProvider;

fn record(bucket: &str, key: &str, size: u64, etag: &str) -> ObjectRecord {
    ObjectRecord {
        id: 7,
        key: key.to_string(),
        size,
        etag: etag.to_string(),
        last_modified: 1_662_921_288_000,
        bucket_name: bucket.to_string(),
        file_id: "blob-handle".to_string(),
    }
}

#[test]
fn create_bucket_twice_conflicts() {
    let mut store = StorageProvider::new();
    assert!(store.create_bucket("alpha", None).is_ok());
    let second = store.create_bucket("alpha", None);
    assert!(matches!(second, Err(StorageErr::BucketAlreadyExists)));
    let listed = store.list_buckets().unwrap();
    assert_eq!(listed.len(), 1);
}

#[test]
fn delete_missing_bucket_fails_not_found() {
    let mut store = StorageProvider::new();
    let r = store.delete_bucket("missing");
    assert!(matches!(r, Err(StorageErr::BucketNotFound)));
}

#[test]
fn delete_bucket_emptiness_gate() {
    let mut store = StorageProvider::new();
    store.create_bucket("b", None).unwrap();
    store.put_object_record(record("b", "k", 3, "etag-1")).unwrap();
    let blocked = store.delete_bucket("b");
    assert!(matches!(blocked, Err(StorageErr::BucketNotEmpty)));
    store.delete_object("b", "k").unwrap();
    assert!(store.delete_bucket("b").is_ok());
    assert!(matches!(store.head_bucket("b"), Err(StorageErr::BucketNotFound)));
}

#[test]
fn head_bucket_checks_existence_only() {
    let mut store = StorageProvider::new();
    store.create_bucket("present", None).unwrap();
    assert!(store.head_bucket("present").is_ok());
    assert!(matches!(store.head_bucket("absent"), Err(StorageErr::BucketNotFound)));
    assert_eq!(store.list_buckets().unwrap().len(), 1);
}

#[test]
fn create_bucket_defaults_region() {
    let mut store = StorageProvider::new();
    store.create_bucket("plain", None).unwrap();
    store.create_bucket("placed", Some("eu-west-1".to_string())).unwrap();
    let listed = store.list_buckets().unwrap();
    assert_eq!(listed[0].region, "Europe");
    assert_eq!(listed[1].region, "eu-west-1");
}

#[test]
fn create_bucket_at_keeps_date() {
    let mut store = StorageProvider::new();
    store.create_bucket_at("dated", None, 1_576_107_167_000).unwrap();
    let listed = store.list_buckets().unwrap();
    assert_eq!(listed[0].creation_date, 1_576_107_167_000);
    assert_eq!(listed[0].name, "dated");
}

#[test]
fn delete_object_reports_each_failure() {
    let mut store = StorageProvider::new();
    assert!(matches!(store.delete_object("nope", "k"), Err(StorageErr::BucketNotFound)));
    store.create_bucket("b", None).unwrap();
    assert!(matches!(store.delete_object("b", "k"), Err(StorageErr::ObjectNotFound)));
    store.put_object_record(record("b", "k", 1, "e")).unwrap();
    assert!(store.delete_object("b", "k").is_ok());
    assert!(matches!(store.delete_object("b", "k"), Err(StorageErr::ObjectNotFound)));
}

#[test]
fn delete_objects_in_input_order() {
    let mut store = StorageProvider::new();
    store.create_bucket("b", None).unwrap();
    store.put_object_record(record("b", "k1", 1, "e1")).unwrap();
    let results = store.delete_objects("b", vec!["k1".to_string(), "k2".to_string()]);
    assert_eq!(results.len(), 2);
    assert!(matches!(results[0], Ok(())));
    assert!(matches!(results[1], Err(StorageErr::ObjectNotFound)));
    let page = store.list_objects("b", None, None, None, None);
    assert_eq!(page.entries.len(), 0);
}

#[test]
fn delete_objects_without_bucket() {
    let mut store = StorageProvider::new();
    let results = store.delete_objects("ghost", vec!["a".to_string(), "b".to_string()]);
    assert_eq!(results.len(), 2);
    assert!(matches!(results[0], Err(StorageErr::BucketNotFound)));
    assert!(matches!(results[1], Err(StorageErr::BucketNotFound)));
}

#[test]
fn delete_objects_same_key_twice() {
    let mut store = StorageProvider::new();
    store.create_bucket("b", None).unwrap();
    store.put_object_record(record("b", "k", 1, "e")).unwrap();
    let results = store.delete_objects("b", vec!["k".to_string(), "k".to_string()]);
    assert!(matches!(results[0], Ok(())));
    assert!(matches!(results[1], Err(StorageErr::ObjectNotFound)));
}

#[test]
fn put_object_record_overwrites_same_key() {
    let mut store = StorageProvider::new();
    store.create_bucket("b", None).unwrap();
    store.put_object_record(record("b", "k", 1, "old")).unwrap();
    store.put_object_record(record("b", "k", 9, "new")).unwrap();
    let page = store.list_objects("b", None, None, None, None);
    assert_eq!(page.entries.len(), 1);
    match &page.entries[0] {
        s3_store::listing::ListEntry::Object(rec) => {
            assert_eq!(rec.etag, "new");
            assert_eq!(rec.size, 9);
        },
        other => panic!("expected an object entry, got {:?}", other),
    }
}

#[test]
fn put_object_stamps_fresh_metadata() {
    let mut store = StorageProvider::new();
    store.create_bucket("b", None).unwrap();
    store
        .put_object("b", "key", 42, "etag-x".to_string(), "file-x".to_string())
        .unwrap();
    let page = store.list_objects("b", None, None, None, None);
    assert_eq!(page.entries.len(), 1);
    match &page.entries[0] {
        s3_store::listing::ListEntry::Object(rec) => {
            assert_eq!(rec.key, "key");
            assert_eq!(rec.size, 42);
            assert_eq!(rec.etag, "etag-x");
            assert_eq!(rec.file_id, "file-x");
            assert_eq!(rec.bucket_name, "b");
            assert!(rec.last_modified >= 0);
        },
        other => panic!("expected an object entry, got {:?}", other),
    }
}

#[test]
fn put_object_into_missing_bucket() {
    let mut store = StorageProvider::new();
    let r = store.put_object("nope", "k", 1, "e".to_string(), "f".to_string());
    assert!(matches!(r, Err(StorageErr::BucketNotFound)));
}

#[test]
fn copy_object_duplicates_metadata_only() {
    let mut store = StorageProvider::new();
    store.create_bucket("src", None).unwrap();
    store.create_bucket("dst", None).unwrap();
    store.put_object_record(record("src", "orig", 11, "etag-o")).unwrap();
    store.copy_object("dst", "copy", "src", "orig").unwrap();
    let page = store.list_objects("dst", None, None, None, None);
    assert_eq!(page.entries.len(), 1);
    match &page.entries[0] {
        s3_store::listing::ListEntry::Object(rec) => {
            assert_eq!(rec.key, "copy");
            assert_eq!(rec.size, 11);
            assert_eq!(rec.etag, "etag-o");
            assert_eq!(rec.file_id, "blob-handle");
            assert_eq!(rec.last_modified, 1_662_921_288_000);
            assert_eq!(rec.bucket_name, "dst");
        },
        other => panic!("expected an object entry, got {:?}", other),
    }
    let src_page = store.list_objects("src", None, None, None, None);
    assert_eq!(src_page.entries.len(), 1);
}

#[test]
fn copy_object_failures() {
    let mut store = StorageProvider::new();
    store.create_bucket("src", None).unwrap();
    assert!(matches!(
        store.copy_object("dst", "c", "ghost", "o"),
        Err(StorageErr::BucketNotFound)
    ));
    assert!(matches!(
        store.copy_object("dst", "c", "src", "missing"),
        Err(StorageErr::ObjectNotFound)
    ));
    store.put_object_record(record("src", "o", 1, "e")).unwrap();
    assert!(matches!(
        store.copy_object("ghost", "c", "src", "o"),
        Err(StorageErr::BucketNotFound)
    ));
}

#[test]
fn created_bucket_listed_exactly_once() {
    let mut store = StorageProvider::new();
    store.create_bucket("other", None).unwrap();
    store.create_bucket("X", None).unwrap();
    let listed = store.list_buckets().unwrap();
    let matches: Vec<_> = listed.iter().filter(|b| b.name == "X").collect();
    assert_eq!(matches.len(), 1);
    assert!(matches[0].creation_date >= 0);
}

#[test]
fn same_key_in_two_buckets() {
    let mut store = StorageProvider::new();
    store.create_bucket("one", None).unwrap();
    store.create_bucket("two", None).unwrap();
    store.put_object_record(record("one", "shared", 1, "a")).unwrap();
    store.put_object_record(record("two", "shared", 2, "b")).unwrap();
    store.delete_object("one", "shared").unwrap();
    let page = store.list_objects("two", None, None, None, None);
    assert_eq!(page.entries.len(), 1);
}
