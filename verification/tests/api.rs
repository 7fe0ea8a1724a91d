use s3_store::api::{create_bucket_response, delete_bucket_response, generate_request_id,
    list_buckets_response};
use s3_store::entities::{BucketInfo, CreateBucketConfiguration, LocationInfo, ObjectRecord};
use s3_store::error::{map_create_error, map_delete_error, BaseError, CreateBucketError,
    DeleteBucketError, StorageErr};
use s3_store::storage::StorageProvider;

fn payload_with_location(name: &str) -> CreateBucketConfiguration {
    CreateBucketConfiguration {
        location_constraint: None,
        location: Some(LocationInfo {
            name: Some(name.to_string()),
            location_type: Some("Directory".to_string()),
        }),
        bucket: Some(BucketInfo { data_redundancy: None, bucket_type: None }),
    }
}

#[test]
fn request_id_shape() {
    let id = generate_request_id();
    assert_eq!(id.chars().count(), 16);
    for c in id.chars() {
        assert!(c.is_ascii_uppercase() || c.is_ascii_digit(), "unexpected character {c}");
    }
}

#[test]
fn create_response_returns_location_header() {
    let mut store = StorageProvider::new();
    let r = create_bucket_response(&mut store, "bucket", None, "RID0000000000001".to_string());
    assert_eq!(r.unwrap(), "/bucket");
    assert!(store.head_bucket("bucket").is_ok());
}

#[test]
fn create_response_takes_region_from_payload() {
    let mut store = StorageProvider::new();
    let payload = Some(payload_with_location("Europe"));
    create_bucket_response(&mut store, "bucket", payload, "RID0000000000002".to_string())
        .unwrap();
    let listed = store.list_buckets().unwrap();
    assert_eq!(listed[0].region, "Europe");
}

#[test]
fn create_response_conflict_carries_resource_and_token() {
    let mut store = StorageProvider::new();
    create_bucket_response(&mut store, "bucket", None, "RID0000000000003".to_string())
        .unwrap();
    let r = create_bucket_response(&mut store, "bucket", None, "RIDCONFLICT00004".to_string());
    match r {
        Err(e) => {
            assert_eq!(e.status_code(), 409);
            assert_eq!(e.error_code(), "BucketAlreadyExists");
            let xml = e.to_xml_error();
            assert_eq!(xml.code, "BucketAlreadyExists");
            assert_eq!(xml.resource, "bucket");
            assert_eq!(xml.request_id, "RIDCONFLICT00004");
        },
        Ok(loc) => panic!("conflict reported success with location {loc}"),
    }
}

#[test]
fn delete_response_distinguishes_failures() {
    let mut store = StorageProvider::new();
    let missing = delete_bucket_response(&mut store, "bucket", "RID0000000000005".to_string());
    match missing {
        Err(e) => {
            assert_eq!(e.status_code(), 404);
            assert_eq!(e.error_code(), "NoSuchBucket");
            assert_eq!(e.message(), "The specified bucket does not exist.");
        },
        Ok(()) => panic!("deleting a missing bucket reported success"),
    }
    store.create_bucket("bucket", None).unwrap();
    store
        .put_object_record(ObjectRecord {
            id: 3,
            key: "k".to_string(),
            size: 1,
            etag: "e".to_string(),
            last_modified: 0,
            bucket_name: "bucket".to_string(),
            file_id: "f".to_string(),
        })
        .unwrap();
    let blocked = delete_bucket_response(&mut store, "bucket", "RID0000000000006".to_string());
    match blocked {
        Err(e) => {
            assert_eq!(e.status_code(), 409);
            assert_eq!(e.error_code(), "BucketNotEmpty");
            assert_eq!(e.message(), "The bucket that you tried to delete is not empty.");
        },
        Ok(()) => panic!("deleting a non-empty bucket reported success"),
    }
    store.delete_object("bucket", "k").unwrap();
    assert!(delete_bucket_response(&mut store, "bucket", "RID0000000000007".to_string()).is_ok());
}

#[test]
fn list_response_renders_dates_and_owner() {
    let mut store = StorageProvider::new();
    store
        .create_bucket_at("DOC-EXAMPLE-BUCKET", Some("Europe".to_string()), 1_576_107_167_000)
        .unwrap();
    store
        .create_bucket_at("DOC-EXAMPLE-BUCKET2", Some("Europe".to_string()), 1_576_107_167_000)
        .unwrap();
    let body = list_buckets_response(&store, "RID0000000000008".to_string()).unwrap();
    assert_eq!(body.buckets.buckets.len(), 2);
    assert_eq!(body.buckets.buckets[0].name, "DOC-EXAMPLE-BUCKET");
    assert_eq!(body.buckets.buckets[1].name, "DOC-EXAMPLE-BUCKET2");
    assert_eq!(body.buckets.buckets[0].creation_date, "2019-12-11T23:32:47+00:00");
    assert_eq!(body.owner.id, "AIDACKCEVSQ6C2EXAMPLE");
    assert_eq!(body.owner.display_name, "Account+Name");
}

#[test]
fn base_error_table() {
    let e = BaseError::InternalError {
        request_id: "RID0000000000009".to_string(),
        resource: "/".to_string(),
    };
    assert_eq!(e.status_code(), 500);
    assert_eq!(e.error_code(), "InternalError");
    assert_eq!(e.message(), "An internal error occurred. Try again.");
    let xml = e.to_xml_error();
    assert_eq!(xml.code, "InternalError");
    assert_eq!(xml.message, "An internal error occurred. Try again.");
    assert_eq!(xml.resource, "/");
    assert_eq!(xml.request_id, "RID0000000000009");
}

#[test]
fn create_error_table_covers_unreachable_ownership_row() {
    let owned = CreateBucketError::BucketAlreadyOwnedByYou {
        request_id: "RID0000000000010".to_string(),
        resource: "bucket".to_string(),
    };
    assert_eq!(owned.status_code(), 409);
    assert_eq!(owned.error_code(), "BucketAlreadyOwnedByYou");
    assert!(owned.message().starts_with("The bucket that you tried to create already exists"));
}

#[test]
fn storage_errors_map_to_protocol_rows() {
    let c = map_create_error(
        StorageErr::BucketAlreadyExists,
        "R1".to_string(),
        "bucket".to_string(),
    );
    assert!(matches!(c, CreateBucketError::BucketAlreadyExists { .. }));
    let c2 = map_create_error(
        StorageErr::IOErr("backend gone".to_string()),
        "R2".to_string(),
        "bucket".to_string(),
    );
    assert!(matches!(c2, CreateBucketError::InternalError { .. }));
    assert_eq!(c2.status_code(), 500);
    assert_eq!(c2.message(), "An internal error occurred. Try again.");

    let d = map_delete_error(StorageErr::BucketNotFound, "R3".to_string(), "b".to_string());
    assert!(matches!(d, DeleteBucketError::NoSuchBucket { .. }));
    let d2 = map_delete_error(StorageErr::BucketNotEmpty, "R4".to_string(), "b".to_string());
    assert!(matches!(d2, DeleteBucketError::BucketNotEmpty { .. }));
    let d3 = map_delete_error(
        StorageErr::IOErr("backend gone".to_string()),
        "R5".to_string(),
        "b".to_string(),
    );
    assert!(matches!(d3, DeleteBucketError::InternalError { .. }));
}

#[test]
fn internal_error_hides_backend_detail() {
    let c = map_create_error(
        StorageErr::IOErr("connection refused".to_string()),
        "R6".to_string(),
        "bucket".to_string(),
    );
    let xml = c.to_xml_error();
    assert_eq!(xml.message, "An internal error occurred. Try again.");
    assert!(!xml.message.contains("connection refused"));
}
