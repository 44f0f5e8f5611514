use sevino::dict::Dict;
use sevino::disk::{BucketDir, DiskOp};
use sevino::error::{ErrorKind, StorageError};
use sevino::layout::generate_object_id;
use sevino::models::{Object, ObjectMetadata, Timestamp};
use sevino::services::{BucketService, DeduplicationMode, ObjectService, StorageService};
use sevino::utils::generate_etag;

fn at(seconds: i64) -> Timestamp {
    Timestamp { seconds, nanos: 0 }
}

fn service_with_bucket(name: &str) -> ObjectService {
    let mut buckets = BucketService::new(StorageService::empty("/data".to_string()));
    buckets.create_bucket_at(name.to_string(), at(1)).unwrap();
    let mut objects = ObjectService::new(buckets.into_storage());
    objects.take_journal();
    objects
}

fn metadata_of(pairs: &[(&str, &str)]) -> Dict<String> {
    let mut d = Dict::new();
    for (k, v) in pairs {
        d.insert(k.to_string(), v.to_string());
    }
    d
}

fn put(objects: &mut ObjectService, key: &str, data: &[u8], mode: DeduplicationMode, now: i64) -> Result<Object, StorageError> {
    objects.put_object_with_deduplication_at(
        "b",
        key,
        data.to_vec(),
        "application/octet-stream",
        Dict::new(),
        mode,
        at(now),
    )
}

#[test]
fn put_get_delete_object() {
    let mut objects = service_with_bucket("b");
    let object = objects
        .put_object_at("b", "hello.txt", b"Hello".to_vec(), "application/octet-stream", Dict::new(), at(10))
        .unwrap();
    assert_eq!(object.etag, "\"8b1a9953c4611296a827abf8c47804d7\"");
    assert_eq!(object.size, 5);
    assert_eq!(object.key, "hello.txt");
    assert_eq!(object.bucket_name, "b");
    assert_eq!(object.content_type, "text/plain");
    assert_eq!(object.created_at, at(10));
    assert_eq!(object.last_modified, at(10));
    let (bytes, metadata) = objects.get_object("b", "hello.txt").unwrap();
    assert_eq!(bytes, b"Hello");
    assert_eq!(metadata.etag, "\"8b1a9953c4611296a827abf8c47804d7\"");
    assert_eq!(metadata.content_type, "text/plain");
    assert_eq!(metadata.size, 5);
    assert_eq!(metadata.reference_count, 0);
    assert_eq!(metadata.data_holder_id, None);
    assert_eq!(metadata.version_id, None);
    assert!(!metadata.is_delete_marker);
    assert_eq!(objects.delete_object("b", "hello.txt"), Ok(()));
    let gone = objects.get_object("b", "hello.txt").unwrap_err();
    assert_eq!(
        gone,
        StorageError::ObjectNotFound { key: "hello.txt".to_string(), bucket: "b".to_string() }
    );
    assert_eq!(gone.kind(), ErrorKind::NotFound);
}

#[test]
fn content_type_named_by_the_caller_is_kept() {
    let mut objects = service_with_bucket("b");
    let object = objects
        .put_object_at("b", "hello.txt", b"Hello".to_vec(), "text/markdown", Dict::new(), at(10))
        .unwrap();
    assert_eq!(object.content_type, "text/markdown");
}

#[test]
fn put_into_a_missing_bucket_fails() {
    let mut objects = service_with_bucket("b");
    let e = put(&mut objects, "k", b"x", DeduplicationMode::Allow, 5);
    assert!(e.is_ok());
    let e = objects
        .put_object_at("nope", "k", b"x".to_vec(), "text/plain", Dict::new(), at(5))
        .unwrap_err();
    assert_eq!(e, StorageError::BucketNotFound("nope".to_string()));
}

#[test]
fn put_under_an_invalid_key_fails() {
    let mut objects = service_with_bucket("b");
    let e = put(&mut objects, "a/../b", b"x", DeduplicationMode::Allow, 5).unwrap_err();
    assert_eq!(e, StorageError::InvalidKey("Object key cannot contain '..'".to_string()));
    assert_eq!(e.kind(), ErrorKind::InvalidKey);
    let e = put(&mut objects, "", b"x", DeduplicationMode::Allow, 5).unwrap_err();
    assert_eq!(e, StorageError::InvalidKey("Object key cannot be empty".to_string()));
    assert_eq!(objects.storage().get_bucket_object_count("b"), 0);
}

#[test]
fn deduplication_reject_across_keys() {
    let mut objects = service_with_bucket("b");
    put(&mut objects, "a", b"X", DeduplicationMode::Allow, 10).unwrap();
    let refused = put(&mut objects, "b", b"X", DeduplicationMode::Reject, 11).unwrap_err();
    assert_eq!(
        refused,
        StorageError::DuplicateContent { key: "a".to_string(), etag: generate_etag(b"X") }
    );
    assert_eq!(refused.kind(), ErrorKind::DuplicateContent);
    let message = refused.message();
    assert!(message.contains("'a'"));
    assert!(message.contains(&generate_etag(b"X")));
    assert!(objects.get_object("b", "b").is_err());
    let accepted = put(&mut objects, "b", b"Y", DeduplicationMode::Reject, 12).unwrap();
    assert_eq!(accepted.etag, generate_etag(b"Y"));
}

#[test]
fn reject_lets_the_same_key_put_its_bytes_again() {
    let mut objects = service_with_bucket("b");
    put(&mut objects, "a", b"X", DeduplicationMode::Reject, 10).unwrap();
    let again = put(&mut objects, "a", b"X", DeduplicationMode::Reject, 11).unwrap();
    assert_eq!(again.created_at, at(10));
    assert_eq!(again.last_modified, at(11));
}

#[test]
fn allow_stores_the_same_bytes_twice() {
    let mut objects = service_with_bucket("b");
    put(&mut objects, "a", b"X", DeduplicationMode::Allow, 10).unwrap();
    put(&mut objects, "b", b"X", DeduplicationMode::Allow, 11).unwrap();
    let (_, a) = objects.get_object("b", "a").unwrap();
    let (bytes, b) = objects.get_object("b", "b").unwrap();
    assert_eq!(bytes, b"X");
    assert_eq!(a.data_holder_id, None);
    assert_eq!(b.data_holder_id, None);
    assert_eq!(a.reference_count, 0);
    assert_eq!(objects.storage().find_objects_by_etag("b", &generate_etag(b"X")).len(), 2);
}

#[test]
fn deduplication_reference_and_refcount() {
    let mut objects = service_with_bucket("b");
    put(&mut objects, "a", b"DATA", DeduplicationMode::Allow, 10).unwrap();
    objects.take_journal();
    let second = put(&mut objects, "b", b"DATA", DeduplicationMode::Reference, 11).unwrap();
    assert_eq!(second.key, "b");
    assert_eq!(second.etag, generate_etag(b"DATA"));
    assert_eq!(second.size, 4);
    let journal = objects.take_journal();
    assert!(journal.iter().all(|op| !matches!(op, DiskOp::WriteData { .. })));
    let b = objects.get_object_metadata("b", "b").unwrap();
    assert_eq!(b.data_holder_id, Some(generate_object_id("b", "a")));
    assert_eq!(b.reference_count, 0);
    let a = objects.get_object_metadata("b", "a").unwrap();
    assert_eq!(a.reference_count, 1);
    assert_eq!(a.data_holder_id, None);
    let (bytes, read) = objects.get_object("b", "b").unwrap();
    assert_eq!(bytes, b"DATA");
    assert_eq!(read.key, "b");
    let refused = objects.delete_object("b", "a").unwrap_err();
    assert_eq!(refused, StorageError::HasReferences { key: "a".to_string(), count: 1 });
    assert_eq!(refused.kind(), ErrorKind::HasReferences);
    assert_eq!(objects.delete_object("b", "b"), Ok(()));
    assert_eq!(objects.get_object_metadata("b", "a").unwrap().reference_count, 0);
    assert_eq!(objects.delete_object("b", "a"), Ok(()));
    assert_eq!(objects.storage().get_bucket_object_count("b"), 0);
}

#[test]
fn reference_without_duplicates_stores_the_bytes() {
    let mut objects = service_with_bucket("b");
    put(&mut objects, "only", b"DATA", DeduplicationMode::Reference, 10).unwrap();
    let m = objects.get_object_metadata("b", "only").unwrap();
    assert_eq!(m.data_holder_id, None);
    assert_eq!(objects.get_object("b", "only").unwrap().0, b"DATA");
}

#[test]
fn reference_to_a_reference_names_the_data_holder() {
    let mut objects = service_with_bucket("b");
    put(&mut objects, "a", b"DATA", DeduplicationMode::Allow, 10).unwrap();
    put(&mut objects, "r1", b"DATA", DeduplicationMode::Reference, 11).unwrap();
    put(&mut objects, "r2", b"DATA", DeduplicationMode::Reference, 12).unwrap();
    let holder = generate_object_id("b", "a");
    assert_eq!(objects.get_object_metadata("b", "r1").unwrap().data_holder_id, Some(holder.clone()));
    assert_eq!(objects.get_object_metadata("b", "r2").unwrap().data_holder_id, Some(holder.clone()));
    assert_eq!(objects.get_object_metadata("b", "a").unwrap().reference_count, 2);
    let refs = objects.find_references_to_object("b", &holder);
    let mut keys: Vec<String> = refs.into_iter().map(|m| m.key).collect();
    keys.sort();
    assert_eq!(keys, vec!["r1", "r2"]);
}

#[test]
fn reference_prefers_the_holder_with_most_references() {
    let mut objects = service_with_bucket("b");
    put(&mut objects, "first", b"DATA", DeduplicationMode::Allow, 10).unwrap();
    put(&mut objects, "second", b"DATA", DeduplicationMode::Allow, 11).unwrap();
    put(&mut objects, "r1", b"DATA", DeduplicationMode::Reference, 12).unwrap();
    // with equal counts the first object found is taken
    assert_eq!(
        objects.get_object_metadata("b", "r1").unwrap().data_holder_id,
        Some(generate_object_id("b", "first"))
    );
    put(&mut objects, "r2", b"DATA", DeduplicationMode::Reference, 13).unwrap();
    assert_eq!(
        objects.get_object_metadata("b", "r2").unwrap().data_holder_id,
        Some(generate_object_id("b", "first"))
    );
    assert_eq!(objects.get_object_metadata("b", "first").unwrap().reference_count, 2);
    assert_eq!(objects.get_object_metadata("b", "second").unwrap().reference_count, 0);
}

#[test]
fn put_then_get_gives_bytes_with_the_etag_answered() {
    let mut objects = service_with_bucket("b");
    for (key, data, mode) in [
        ("k1", &b"one"[..], DeduplicationMode::Allow),
        ("k2", &b"one"[..], DeduplicationMode::Reference),
        ("k3", &b"three"[..], DeduplicationMode::Reject),
        ("k1", &b"one"[..], DeduplicationMode::Allow),
    ] {
        let object = put(&mut objects, key, data, mode, 10).unwrap();
        let (bytes, metadata) = objects.get_object("b", key).unwrap();
        assert_eq!(generate_etag(&bytes), object.etag);
        assert_eq!(metadata.size as usize, bytes.len());
        assert_eq!(metadata.key, object.key);
    }
}

#[test]
fn put_then_delete_restores_the_indexes() {
    let mut objects = service_with_bucket("b");
    put(&mut objects, "keep", b"kept", DeduplicationMode::Allow, 10).unwrap();
    let before = objects.storage().get_bucket_object_count("b");
    put(&mut objects, "temp", b"gone soon", DeduplicationMode::Allow, 11).unwrap();
    assert_eq!(objects.storage().get_bucket_object_count("b"), before + 1);
    objects.delete_object("b", "temp").unwrap();
    assert_eq!(objects.storage().get_bucket_object_count("b"), before);
    assert_eq!(objects.storage().find_object_id_by_key("b", "temp"), None);
    assert!(objects.storage().find_objects_by_etag("b", &generate_etag(b"gone soon")).is_empty());
    assert!(!objects.storage().is_etag_exists("b", &generate_etag(b"gone soon")));
    assert!(objects.storage().validate_index_consistency("b"));
}

#[test]
fn same_bytes_under_same_key_touch_the_metadata_only() {
    let mut objects = service_with_bucket("b");
    objects
        .put_object_at("b", "k", b"same".to_vec(), "text/plain", metadata_of(&[("v", "1")]), at(10))
        .unwrap();
    objects.take_journal();
    let again = objects
        .put_object_at("b", "k", b"same".to_vec(), "image/png", metadata_of(&[("v", "2")]), at(20))
        .unwrap();
    assert_eq!(again.created_at, at(10));
    assert_eq!(again.last_modified, at(20));
    assert_eq!(again.content_type, "text/plain");
    assert_eq!(again.user_metadata.get("v"), Some(&"2".to_string()));
    let journal = objects.take_journal();
    assert_eq!(journal.len(), 1);
    assert!(matches!(journal[0], DiskOp::WriteSidecar { .. }));
    let m = objects.get_object_metadata("b", "k").unwrap();
    assert_eq!(m.created_at, at(10));
    assert_eq!(m.last_modified, at(20));
    assert_eq!(objects.storage().get_bucket_object_count("b"), 1);
}

#[test]
fn new_bytes_under_the_same_key_replace_the_object() {
    let mut objects = service_with_bucket("b");
    put(&mut objects, "k", b"old", DeduplicationMode::Allow, 10).unwrap();
    let replaced = put(&mut objects, "k", b"new!", DeduplicationMode::Allow, 20).unwrap();
    assert_eq!(replaced.created_at, at(20));
    assert_eq!(replaced.size, 4);
    assert_eq!(objects.get_object("b", "k").unwrap().0, b"new!");
    assert_eq!(objects.storage().get_bucket_object_count("b"), 1);
    assert!(objects.storage().find_objects_by_etag("b", &generate_etag(b"old")).is_empty());
    assert_eq!(objects.storage().find_objects_by_etag("b", &generate_etag(b"new!")).len(), 1);
}

#[test]
fn new_bytes_under_a_key_that_references_rely_on_are_refused() {
    let mut objects = service_with_bucket("b");
    put(&mut objects, "a", b"DATA", DeduplicationMode::Allow, 10).unwrap();
    put(&mut objects, "r", b"DATA", DeduplicationMode::Reference, 11).unwrap();
    let refused = put(&mut objects, "a", b"other", DeduplicationMode::Allow, 12).unwrap_err();
    assert_eq!(refused, StorageError::HasReferences { key: "a".to_string(), count: 1 });
    assert_eq!(objects.get_object("b", "a").unwrap().0, b"DATA");
    assert_eq!(objects.get_object("b", "r").unwrap().0, b"DATA");
}

#[test]
fn new_bytes_under_a_reference_release_its_holder() {
    let mut objects = service_with_bucket("b");
    put(&mut objects, "a", b"DATA", DeduplicationMode::Allow, 10).unwrap();
    put(&mut objects, "r", b"DATA", DeduplicationMode::Reference, 11).unwrap();
    put(&mut objects, "r", b"own bytes", DeduplicationMode::Allow, 12).unwrap();
    assert_eq!(objects.get_object_metadata("b", "a").unwrap().reference_count, 0);
    let r = objects.get_object_metadata("b", "r").unwrap();
    assert_eq!(r.data_holder_id, None);
    assert_eq!(objects.get_object("b", "r").unwrap().0, b"own bytes");
    assert_eq!(objects.delete_object("b", "a"), Ok(()));
}

#[test]
fn put_writes_data_then_metadata() {
    let mut objects = service_with_bucket("b");
    put(&mut objects, "hello.txt", b"Hello", DeduplicationMode::Allow, 10).unwrap();
    let id = "bb8b32988198e2279c1917d3f00b838de1f84c4937af39af6147a1723e029a67";
    let journal = objects.take_journal();
    assert_eq!(journal.len(), 2);
    match &journal[0] {
        DiskOp::WriteData { path, data } => {
            assert_eq!(path, &format!("/data/b/bb8b/32/{}", id));
            assert_eq!(data, b"Hello");
        }
        other => panic!("unexpected change of the tree: {:?}", other),
    }
    match &journal[1] {
        DiskOp::WriteSidecar { path, metadata } => {
            assert_eq!(path, &format!("/data/b/.sevino.meta/objects/{}.json", id));
            assert_eq!(metadata.key, "hello.txt");
            assert_eq!(metadata.bucket_name, "b");
        }
        other => panic!("unexpected change of the tree: {:?}", other),
    }
    objects.delete_object("b", "hello.txt").unwrap();
    let journal = objects.take_journal();
    assert_eq!(journal.len(), 2);
    match (&journal[0], &journal[1]) {
        (DiskOp::RemoveFile { path: data }, DiskOp::RemoveFile { path: sidecar }) => {
            assert_eq!(data, &format!("/data/b/bb8b/32/{}", id));
            assert_eq!(sidecar, &format!("/data/b/.sevino.meta/objects/{}.json", id));
        }
        other => panic!("unexpected changes of the tree: {:?}", other),
    }
}

#[test]
fn put_if_not_exists_refuses_the_same_bytes() {
    let mut objects = service_with_bucket("b");
    objects
        .put_object_if_not_exists_at("b", "k", b"one".to_vec(), "text/plain", Dict::new(), at(1))
        .unwrap();
    let refused = objects
        .put_object_if_not_exists_at("b", "k", b"one".to_vec(), "text/plain", Dict::new(), at(2))
        .unwrap_err();
    assert_eq!(refused, StorageError::ObjectAlreadyExists("k".to_string()));
    assert_eq!(refused.kind(), ErrorKind::AlreadyExists);
    let replaced = objects
        .put_object_if_not_exists_at("b", "k", b"two".to_vec(), "text/plain", Dict::new(), at(3))
        .unwrap();
    assert_eq!(replaced.etag, generate_etag(b"two"));
}

#[test]
fn put_if_etag_mismatch_refuses_where_the_etag_is_the_one_named() {
    let mut objects = service_with_bucket("b");
    put(&mut objects, "k", b"one", DeduplicationMode::Allow, 1).unwrap();
    let current = generate_etag(b"one");
    let refused = objects
        .put_object_if_etag_mismatch_at("b", "k", b"two".to_vec(), "text/plain", Dict::new(), &current, at(2))
        .unwrap_err();
    assert_eq!(
        refused,
        StorageError::PreconditionFailed { expected: current.clone(), found: current.clone() }
    );
    assert_eq!(refused.kind(), ErrorKind::PreconditionFailed);
    assert_eq!(objects.get_object("b", "k").unwrap().0, b"one");
    let other = generate_etag(b"something else");
    objects
        .put_object_if_etag_mismatch_at("b", "k", b"two".to_vec(), "text/plain", Dict::new(), &other, at(3))
        .unwrap();
    assert_eq!(objects.get_object("b", "k").unwrap().0, b"two");
    objects
        .put_object_if_etag_mismatch_at("b", "new", b"n".to_vec(), "text/plain", Dict::new(), &other, at(4))
        .unwrap();
}

#[test]
fn get_and_delete_need_the_bucket_and_the_key() {
    let mut objects = service_with_bucket("b");
    assert_eq!(
        objects.get_object("nope", "k").unwrap_err(),
        StorageError::BucketNotFound("nope".to_string())
    );
    assert_eq!(
        objects.delete_object("nope", "k").unwrap_err(),
        StorageError::BucketNotFound("nope".to_string())
    );
    let missing = StorageError::ObjectNotFound { key: "k".to_string(), bucket: "b".to_string() };
    assert_eq!(objects.get_object_metadata("b", "k").unwrap_err(), missing);
    assert_eq!(objects.delete_object("b", "k").unwrap_err(), missing);
    assert_eq!(missing.message(), "Object 'k' not found in bucket 'b'");
}

#[test]
fn a_reference_whose_holder_is_gone_dangles() {
    let mut objects = service_with_bucket("b");
    put(&mut objects, "a", b"DATA", DeduplicationMode::Allow, 10).unwrap();
    put(&mut objects, "r", b"DATA", DeduplicationMode::Reference, 11).unwrap();
    let mut storage = objects.into_storage();
    storage.delete_object_metadata("b", &generate_object_id("b", "a"));
    let objects = ObjectService::new(storage);
    let e = objects.get_object("b", "r").unwrap_err();
    assert_eq!(e, StorageError::DanglingReference("r".to_string()));
    assert_eq!(e.kind(), ErrorKind::DanglingReference);
    assert_eq!(e.status(), 500);
}

#[test]
fn metadata_without_bytes_is_data_missing() {
    let mut objects = service_with_bucket("b");
    put(&mut objects, "a", b"DATA", DeduplicationMode::Allow, 10).unwrap();
    let mut storage = objects.into_storage();
    storage.delete_object_data("b", &generate_object_id("b", "a"));
    let objects = ObjectService::new(storage);
    let e = objects.get_object("b", "a").unwrap_err();
    assert_eq!(e, StorageError::DataMissing);
    assert_eq!(e.kind(), ErrorKind::DataMissing);
}

#[test]
fn an_indexed_key_without_metadata_is_not_found() {
    let mut objects = service_with_bucket("b");
    put(&mut objects, "a", b"DATA", DeduplicationMode::Allow, 10).unwrap();
    let mut storage = objects.into_storage();
    storage.delete_object_metadata("b", &generate_object_id("b", "a"));
    assert!(!storage.validate_index_consistency("b"));
    let objects = ObjectService::new(storage);
    assert_eq!(objects.get_object("b", "a").unwrap_err(), StorageError::MetadataNotFound);
}

#[test]
fn update_changes_what_is_given_and_the_time() {
    let mut objects = service_with_bucket("b");
    objects
        .put_object_at("b", "k", b"bytes".to_vec(), "text/plain", metadata_of(&[("a", "1")]), at(10))
        .unwrap();
    let updated = objects
        .update_object_metadata_at("b", "k", Some("text/html".to_string()), None, Some("\"custom\"".to_string()), at(20))
        .unwrap();
    assert_eq!(updated.content_type, "text/html");
    assert_eq!(updated.user_metadata.get("a"), Some(&"1".to_string()));
    assert_eq!(updated.last_modified, at(20));
    assert_eq!(updated.created_at, at(10));
    assert_eq!(updated.etag, generate_etag(b"bytes"));
    let updated = objects
        .update_object_metadata_at("b", "k", None, Some(metadata_of(&[("b", "2")])), None, at(30))
        .unwrap();
    assert_eq!(updated.content_type, "text/html");
    assert_eq!(updated.user_metadata.get("a"), None);
    assert_eq!(updated.user_metadata.get("b"), Some(&"2".to_string()));
    let stored = objects.get_object_metadata("b", "k").unwrap();
    assert_eq!(stored.last_modified, at(30));
    assert_eq!(
        objects.update_object_metadata_at("b", "x", None, None, None, at(40)).unwrap_err(),
        StorageError::ObjectNotFound { key: "x".to_string(), bucket: "b".to_string() }
    );
}

#[test]
fn duplicate_content_is_told_by_key_and_etag() {
    let mut objects = service_with_bucket("b");
    put(&mut objects, "a", b"X", DeduplicationMode::Allow, 10).unwrap();
    put(&mut objects, "b", b"X", DeduplicationMode::Allow, 11).unwrap();
    put(&mut objects, "c", b"Y", DeduplicationMode::Allow, 12).unwrap();
    let etag = generate_etag(b"X");
    assert!(objects.is_duplicate_content("b", "a", &etag));
    assert!(!objects.is_duplicate_content("b", "c", &etag));
    assert!(!objects.is_duplicate_content("b", "zzz", &etag));
    assert_eq!(objects.find_duplicate_content_keys("b", &etag, None), vec!["a", "b"]);
    assert_eq!(objects.find_duplicate_content_keys("b", &etag, Some("a")), vec!["b"]);
    assert!(objects.find_duplicate_content_keys("b", &generate_etag(b"Z"), None).is_empty());
}

#[test]
fn versions_of_a_key_come_newest_first() {
    let mut objects = service_with_bucket("b");
    put(&mut objects, "k", b"bytes", DeduplicationMode::Allow, 10).unwrap();
    put(&mut objects, "other", b"more", DeduplicationMode::Allow, 11).unwrap();
    let versions = objects.list_object_versions("b", "k");
    assert_eq!(versions.len(), 1);
    assert_eq!(versions[0].key, "k");
    assert!(objects.list_object_versions("b", "none").is_empty());
    assert_eq!(
        objects.get_object_version("b", "k", "0001").unwrap_err(),
        StorageError::VersionNotFound
    );
}

#[test]
fn a_version_stored_under_its_own_identifier_is_found() {
    let mut storage = StorageService::empty("/data".to_string());
    let id = format!("{}_{}", generate_object_id("b", "k"), "v1");
    let older = ObjectMetadata {
        key: "k".to_string(),
        bucket_name: "b".to_string(),
        size: 3,
        content_type: "text/plain".to_string(),
        etag: generate_etag(b"old"),
        created_at: at(5),
        last_modified: at(5),
        user_metadata: Dict::new(),
        version_id: Some("v1".to_string()),
        is_delete_marker: false,
        reference_count: 0,
        data_holder_id: None,
    };
    let mut newer = older.clone();
    newer.created_at = at(9);
    newer.version_id = None;
    storage.save_object_metadata("b", &id, &older);
    storage.write_object_data("b", &id, &b"old".to_vec());
    storage.save_object_metadata("b", &generate_object_id("b", "k"), &newer);
    let objects = ObjectService::new(storage);
    let (bytes, metadata) = objects.get_object_version("b", "k", "v1").unwrap();
    assert_eq!(bytes, b"old");
    assert_eq!(metadata.version_id, Some("v1".to_string()));
    let versions = objects.list_object_versions("b", "k");
    assert_eq!(versions.len(), 2);
    assert_eq!(versions[0].created_at, at(9));
    assert_eq!(versions[1].created_at, at(5));
    let mut storage = objects.into_storage();
    storage.delete_object_data("b", &id);
    let objects = ObjectService::new(storage);
    assert_eq!(objects.get_object_version("b", "k", "v1").unwrap_err(), StorageError::DataMissing);
}

#[test]
fn restart_rebuilds_registry_and_indexes() {
    let mut objects = service_with_bucket("b");
    put(&mut objects, "a", b"DATA", DeduplicationMode::Allow, 10).unwrap();
    put(&mut objects, "r", b"DATA", DeduplicationMode::Reference, 11).unwrap();
    put(&mut objects, "c", b"else", DeduplicationMode::Allow, 12).unwrap();
    objects.delete_object("b", "c").unwrap();
    // the tree as the changes written down leave it
    let mut tree: Dict<BucketDir> = Dict::new();
    let mut dir = BucketDir::new();
    dir.bucket_file = BucketService::new(StorageService::empty("/data".to_string()))
        .create_bucket_at("b".to_string(), at(1))
        .ok();
    for key in ["a", "r"] {
        let id = generate_object_id("b", key);
        dir.sidecars.insert(id.clone(), objects.get_object_metadata("b", key).unwrap());
        if let Some(bytes) = objects.storage().read_object_data("b", &id) {
            dir.data.insert(id, bytes);
        }
    }
    tree.insert("b".to_string(), dir);
    tree.insert(".trash".to_string(), BucketDir::new());
    tree.insert("plain".to_string(), BucketDir::new());
    let restarted = StorageService::new_at("/data".to_string(), tree, at(99));
    assert!(restarted.has_bucket("b"));
    assert!(restarted.has_bucket("plain"));
    assert!(!restarted.has_bucket(".trash"));
    assert_eq!(restarted.find_bucket("b").unwrap().created_at, at(1));
    assert_eq!(restarted.find_bucket("plain").unwrap().created_at, at(99));
    for key in ["a", "r"] {
        assert_eq!(
            restarted.find_object_id_by_key("b", key),
            objects.storage().find_object_id_by_key("b", key)
        );
    }
    assert_eq!(restarted.find_object_id_by_key("b", "c"), None);
    assert_eq!(restarted.get_bucket_object_count("b"), 2);
    assert_eq!(restarted.get_bucket_object_count("plain"), 0);
    let etag = generate_etag(b"DATA");
    let mut rebuilt = restarted.find_objects_by_etag("b", &etag);
    let mut running = objects.storage().find_objects_by_etag("b", &etag);
    rebuilt.sort();
    running.sort();
    assert_eq!(rebuilt, running);
    assert!(restarted.find_objects_by_etag("b", &generate_etag(b"else")).is_empty());
    let restarted = ObjectService::new(restarted);
    assert_eq!(restarted.get_object("b", "r").unwrap().0, b"DATA");
    assert_eq!(restarted.get_object_metadata("b", "a").unwrap().reference_count, 1);
}

#[test]
fn the_key_index_can_be_rebuilt() {
    let mut objects = service_with_bucket("b");
    put(&mut objects, "a", b"DATA", DeduplicationMode::Allow, 10).unwrap();
    put(&mut objects, "b", b"more", DeduplicationMode::Allow, 11).unwrap();
    let mut storage = objects.into_storage();
    storage.remove_object_from_index("b", "a");
    assert_eq!(storage.find_object_id_by_key("b", "a"), None);
    assert!(!storage.validate_index_consistency("b"));
    storage.rebuild_object_index();
    assert_eq!(storage.find_object_id_by_key("b", "a"), Some(generate_object_id("b", "a")));
    assert_eq!(storage.get_bucket_object_count("b"), 2);
    assert!(storage.validate_index_consistency("b"));
}

#[test]
fn index_entries_come_and_go() {
    let mut storage = StorageService::empty("/data".to_string());
    assert!(storage.is_bucket_empty("b"));
    storage.add_object_to_index("b", "k", "id-1");
    storage.add_object_to_index("b", "k", "id-2");
    assert_eq!(storage.find_object_id_by_key("b", "k"), Some("id-2".to_string()));
    assert_eq!(storage.get_bucket_object_count("b"), 1);
    assert!(!storage.is_bucket_empty("b"));
    storage.remove_object_from_index("b", "k");
    storage.remove_object_from_index("b", "k");
    assert!(storage.is_bucket_empty("b"));
    storage.add_etag_to_index("b", "e", "x");
    storage.add_etag_to_index("b", "e", "y");
    storage.add_etag_to_index("b", "e", "x");
    assert_eq!(storage.find_objects_by_etag("b", "e"), vec!["x", "y", "x"]);
    storage.remove_etag_from_index("b", "e", "x");
    assert_eq!(storage.find_objects_by_etag("b", "e"), vec!["y", "x"]);
    storage.remove_etag_from_index("b", "e", "zzz");
    storage.remove_etag_from_index("b", "other", "x");
    assert_eq!(storage.find_objects_by_etag("b", "e"), vec!["y", "x"]);
    storage.remove_etag_from_index("b", "e", "y");
    storage.remove_etag_from_index("b", "e", "x");
    assert!(!storage.is_etag_exists("b", "e"));
    assert!(storage.take_journal().is_empty());
}

#[test]
fn object_made_now_and_its_metadata() {
    let object = Object::new(
        "k".to_string(),
        "b".to_string(),
        3,
        "text/plain".to_string(),
        "\"e\"".to_string(),
        metadata_of(&[("a", "1")]),
    );
    assert_eq!(object.created_at, object.last_modified);
    let metadata = ObjectMetadata::from(object.clone());
    assert_eq!(metadata.key, "k");
    assert_eq!(metadata.bucket_name, "b");
    assert_eq!(metadata.size, 3);
    assert_eq!(metadata.user_metadata.get("a"), Some(&"1".to_string()));
    assert_eq!(metadata.version_id, None);
    assert!(!metadata.is_delete_marker);
    assert_eq!(metadata.reference_count, 0);
    assert_eq!(metadata.data_holder_id, None);
    let back = metadata.to_object();
    assert_eq!(back.key, object.key);
    assert_eq!(back.created_at, object.created_at);
}

#[test]
fn puts_by_the_clock_store_the_object() {
    let mut objects = service_with_bucket("b");
    let object = objects
        .put_object("b", "k", b"bytes".to_vec(), "text/plain", Dict::new())
        .unwrap();
    assert_eq!(object.created_at, object.last_modified);
    let referenced = objects
        .put_object_with_deduplication("b", "r", b"bytes".to_vec(), "text/plain", Dict::new(), DeduplicationMode::Reference)
        .unwrap();
    assert_eq!(referenced.etag, object.etag);
    assert!(objects
        .put_object_if_not_exists("b", "k", b"bytes".to_vec(), "text/plain", Dict::new())
        .is_err());
    assert!(objects
        .put_object_if_etag_mismatch("b", "k", b"bytes".to_vec(), "text/plain", Dict::new(), &object.etag)
        .is_err());
    let updated = objects
        .update_object_metadata("b", "k", Some("text/html".to_string()), None, None)
        .unwrap();
    assert_eq!(updated.content_type, "text/html");
}

#[test]
fn force_delete_takes_the_references_along() {
    let mut objects = service_with_bucket("b");
    put(&mut objects, "a", b"DATA", DeduplicationMode::Allow, 10).unwrap();
    put(&mut objects, "r1", b"DATA", DeduplicationMode::Reference, 11).unwrap();
    put(&mut objects, "r2", b"DATA", DeduplicationMode::Reference, 12).unwrap();
    put(&mut objects, "other", b"else", DeduplicationMode::Allow, 13).unwrap();
    assert_eq!(
        objects.force_delete_object_with_references("b", "none").unwrap_err(),
        StorageError::ObjectNotFound { key: "none".to_string(), bucket: "b".to_string() }
    );
    assert_eq!(objects.force_delete_object_with_references("b", "a"), Ok(()));
    for key in ["a", "r1", "r2"] {
        assert!(objects.get_object("b", key).is_err());
    }
    assert_eq!(objects.storage().get_bucket_object_count("b"), 1);
    assert!(!objects.storage().is_etag_exists("b", &generate_etag(b"DATA")));
    assert!(objects.storage().validate_index_consistency("b"));
    assert_eq!(objects.get_object("b", "other").unwrap().0, b"else");
    assert_eq!(objects.force_delete_object_with_references("b", "other"), Ok(()));
    assert_eq!(objects.storage().get_bucket_object_count("b"), 0);
}

#[test]
fn the_storage_service_names_objects_as_the_layout_does() {
    assert_eq!(
        StorageService::generate_object_id("b", "hello.txt"),
        "bb8b32988198e2279c1917d3f00b838de1f84c4937af39af6147a1723e029a67"
    );
    assert_eq!(StorageService::generate_object_id("b", "a"), generate_object_id("b", "a"));
}

#[test]
fn a_key_that_ends_in_a_slash_gets_the_type_of_its_file_name() {
    let mut objects = service_with_bucket("b");
    let object = put(&mut objects, "notes.txt/", b"text", DeduplicationMode::Allow, 10).unwrap();
    assert_eq!(object.content_type, "text/plain");
    assert_eq!(objects.get_object_metadata("b", "notes.txt/").unwrap().content_type, "text/plain");
}
