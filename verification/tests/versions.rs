use sevino::dict::Dict;
use sevino::disk::DiskOp;
use sevino::layout::{generate_object_id, versioned_object_id};
use sevino::models::Timestamp;
use sevino::services::{BucketService, ObjectService, StorageService};
use sevino::text::hexadecimal_text;
use sevino::utils::generate_etag;

fn moment(seconds: i64, nanos: u32) -> Timestamp {
    Timestamp { seconds, nanos }
}

fn service() -> ObjectService {
    let mut buckets = BucketService::new(StorageService::empty("/data".to_string()));
    buckets.create_bucket_at("b".to_string(), moment(1, 0)).unwrap();
    let mut objects = ObjectService::new(buckets.into_storage());
    objects.take_journal();
    objects
}

#[test]
fn hexadecimal_digits_are_padded_with_zeros() {
    assert_eq!(hexadecimal_text(0, 16), "0000000000000000");
    assert_eq!(hexadecimal_text(255, 16), "00000000000000ff");
    assert_eq!(hexadecimal_text(255, 2), "ff");
    assert_eq!(hexadecimal_text(255, 0), "ff");
    assert_eq!(hexadecimal_text(0, 0), "0");
    assert_eq!(hexadecimal_text(4096, 3), "1000");
    assert_eq!(hexadecimal_text(0xdead_beef, 1), "deadbeef");
    assert_eq!(hexadecimal_text(u128::MAX, 16), "ffffffffffffffffffffffffffffffff");
    assert_eq!(hexadecimal_text(10, 1), "a");
    assert_eq!(hexadecimal_text(15, 1), "f");
    assert_eq!(hexadecimal_text(16, 1), "10");
}

#[test]
fn a_version_is_named_by_the_nanoseconds_of_its_moment() {
    assert_eq!(ObjectService::generate_version_id_at(moment(0, 0)), "0000000000000000");
    assert_eq!(ObjectService::generate_version_id_at(moment(1, 0)), "000000003b9aca00");
    assert_eq!(ObjectService::generate_version_id_at(moment(5, 7)), "000000012a05f207");
    assert_eq!(
        ObjectService::generate_version_id_at(moment(1_700_000_000, 123)),
        "17979cfe362a007b"
    );
    assert_eq!(
        ObjectService::generate_version_id_at(moment(i64::MAX, 999_999_999)),
        "1dcd64ffffffffffffffffff"
    );
}

#[test]
fn the_identifier_of_a_version_follows_that_of_its_object() {
    assert_eq!(
        versioned_object_id("b", "hello.txt", "17979cfe362a007b"),
        "bb8b32988198e2279c1917d3f00b838de1f84c4937af39af6147a1723e029a67_17979cfe362a007b"
    );
}

#[test]
fn without_versions_the_put_is_a_plain_put() {
    let mut objects = service();
    let object = objects
        .put_object_with_versioning_at("b", "k.txt", b"one".to_vec(), "application/octet-stream", Dict::new(), false, moment(-5, 0))
        .unwrap();
    assert_eq!(object.content_type, "text/plain");
    assert_eq!(object.created_at, moment(-5, 0));
    let metadata = objects.get_object_metadata("b", "k.txt").unwrap();
    assert_eq!(metadata.version_id, None);
    assert_eq!(
        objects.storage().find_object_id_by_key("b", "k.txt"),
        Some(generate_object_id("b", "k.txt"))
    );
    // the same bytes under another key are stored again
    objects
        .put_object_with_versioning_at("b", "other", b"one".to_vec(), "text/plain", Dict::new(), false, moment(6, 0))
        .unwrap();
    assert_eq!(objects.storage().find_objects_by_etag("b", &generate_etag(b"one")).len(), 2);
}

#[test]
fn a_version_is_stored_under_its_own_identifier() {
    let mut objects = service();
    let now = moment(1_700_000_000, 123);
    let object = objects
        .put_object_with_versioning_at("b", "hello.txt", b"Hello".to_vec(), "application/octet-stream", Dict::new(), true, now)
        .unwrap();
    assert_eq!(object.etag, "\"8b1a9953c4611296a827abf8c47804d7\"");
    assert_eq!(object.size, 5);
    assert_eq!(object.content_type, "text/plain");
    assert_eq!(object.created_at, now);
    let id = "bb8b32988198e2279c1917d3f00b838de1f84c4937af39af6147a1723e029a67_17979cfe362a007b";
    assert_eq!(objects.storage().find_object_id_by_key("b", "hello.txt"), Some(id.to_string()));
    assert_eq!(objects.storage().find_objects_by_etag("b", &object.etag), vec![id]);
    let journal = objects.take_journal();
    assert_eq!(journal.len(), 2);
    match &journal[0] {
        DiskOp::WriteData { path, data } => {
            assert_eq!(path, &format!("/data/b/bb8b/32/{}", id));
            assert_eq!(data, b"Hello");
        }
        other => panic!("unexpected change of the tree: {:?}", other),
    }
    match &journal[1] {
        DiskOp::WriteSidecar { path, metadata } => {
            assert_eq!(path, &format!("/data/b/.sevino.meta/objects/{}.json", id));
            assert_eq!(metadata.version_id, Some("17979cfe362a007b".to_string()));
            assert_eq!(metadata.data_holder_id, None);
            assert_eq!(metadata.reference_count, 0);
        }
        other => panic!("unexpected change of the tree: {:?}", other),
    }
    let (bytes, metadata) = objects.get_object_version("b", "hello.txt", "17979cfe362a007b").unwrap();
    assert_eq!(bytes, b"Hello");
    assert_eq!(metadata.version_id, Some("17979cfe362a007b".to_string()));
    let (bytes, metadata) = objects.get_object("b", "hello.txt").unwrap();
    assert_eq!(bytes, b"Hello");
    assert_eq!(metadata.version_id, Some("17979cfe362a007b".to_string()));
}

#[test]
fn versions_of_a_key_stand_side_by_side() {
    let mut objects = service();
    objects.put_object_at("b", "k", b"first".to_vec(), "text/plain", Dict::new(), moment(10, 0)).unwrap();
    objects
        .put_object_with_versioning_at("b", "k", b"second".to_vec(), "text/plain", Dict::new(), true, moment(20, 0))
        .unwrap();
    objects
        .put_object_with_versioning_at("b", "k", b"third".to_vec(), "text/plain", Dict::new(), true, moment(30, 5))
        .unwrap();
    let versions = objects.list_object_versions("b", "k");
    assert_eq!(versions.len(), 3);
    assert_eq!(versions[0].created_at, moment(30, 5));
    assert_eq!(versions[1].created_at, moment(20, 0));
    assert_eq!(versions[2].created_at, moment(10, 0));
    assert_eq!(versions[0].version_id, Some(ObjectService::generate_version_id_at(moment(30, 5))));
    assert_eq!(versions[2].version_id, None);
    assert_eq!(objects.get_object("b", "k").unwrap().0, b"third");
    let second = ObjectService::generate_version_id_at(moment(20, 0));
    assert_eq!(objects.get_object_version("b", "k", &second).unwrap().0, b"second");
    assert_eq!(objects.storage().get_bucket_object_count("b"), 1);
    assert!(!objects.storage().validate_index_consistency("b"));
}

#[test]
fn the_bytes_a_key_holds_are_not_stored_as_a_version_again() {
    let mut objects = service();
    let mut labels = Dict::new();
    labels.insert("n".to_string(), "2".to_string());
    objects
        .put_object_with_versioning_at("b", "k", b"same".to_vec(), "text/plain", Dict::new(), true, moment(20, 0))
        .unwrap();
    objects.take_journal();
    let again = objects
        .put_object_with_versioning_at("b", "k", b"same".to_vec(), "text/plain", labels, true, moment(30, 0))
        .unwrap();
    assert_eq!(again.created_at, moment(20, 0));
    assert_eq!(again.last_modified, moment(30, 0));
    assert_eq!(again.user_metadata.get("n"), Some(&"2".to_string()));
    let journal = objects.take_journal();
    assert_eq!(journal.len(), 1);
    assert!(matches!(journal[0], DiskOp::WriteSidecar { .. }));
    assert_eq!(objects.list_object_versions("b", "k").len(), 1);
}

#[test]
fn a_version_needs_an_object_key_and_a_bucket() {
    let mut objects = service();
    let e = objects
        .put_object_with_versioning_at("b", "a/../b", b"x".to_vec(), "text/plain", Dict::new(), true, moment(1, 0))
        .unwrap_err();
    assert_eq!(e.message(), "Object key cannot contain '..'");
    let e = objects
        .put_object_with_versioning_at("nope", "k", b"x".to_vec(), "text/plain", Dict::new(), true, moment(1, 0))
        .unwrap_err();
    assert_eq!(e.message(), "Bucket 'nope' not found");
    assert!(objects.take_journal().is_empty());
}

#[test]
fn a_version_put_by_the_clock_can_be_read_back() {
    let mut objects = service();
    let object = objects
        .put_object_with_versioning("b", "k", b"bytes".to_vec(), "text/plain", Dict::new(), true)
        .unwrap();
    let metadata = objects.get_object_metadata("b", "k").unwrap();
    let version = metadata.version_id.clone().unwrap();
    assert!(version.len() >= 16);
    assert!(version.chars().all(|c| c.is_ascii_digit() || ('a'..='f').contains(&c)));
    assert_eq!(version, ObjectService::generate_version_id_at(object.created_at));
    assert_eq!(objects.get_object_version("b", "k", &version).unwrap().0, b"bytes");
    let plain = objects
        .put_object_with_versioning("b", "p", b"bytes".to_vec(), "text/plain", Dict::new(), false)
        .unwrap();
    assert_eq!(plain.key, "p");
    assert_eq!(objects.get_object_metadata("b", "p").unwrap().version_id, None);
}

#[test]
fn a_version_is_deleted_under_its_key() {
    let mut objects = service();
    objects
        .put_object_with_versioning_at("b", "k", b"bytes".to_vec(), "text/plain", Dict::new(), true, moment(20, 0))
        .unwrap();
    assert_eq!(objects.delete_object("b", "k"), Ok(()));
    assert!(objects.get_object("b", "k").is_err());
    let version = ObjectService::generate_version_id_at(moment(20, 0));
    assert!(objects.get_object_version("b", "k", &version).is_err());
    assert_eq!(objects.storage().get_bucket_object_count("b"), 0);
}
