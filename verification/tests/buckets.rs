use sevino::dict::Dict;
use sevino::disk::DiskOp;
use sevino::error::{ErrorKind, StorageError};
use sevino::models::{Bucket, Timestamp};
use sevino::services::{BucketService, ObjectService, StorageService};

fn at(seconds: i64) -> Timestamp {
    Timestamp { seconds, nanos: 0 }
}

fn empty_service() -> BucketService {
    BucketService::new(StorageService::empty("/data".to_string()))
}

#[test]
fn create_list_delete_bucket() {
    let mut buckets = empty_service();
    let created = buckets.create_bucket_at("photos".to_string(), at(100)).unwrap();
    assert_eq!(created.name, "photos");
    assert_eq!(created.created_at, at(100));
    assert_eq!(created.metadata.len(), 0);
    let listed = buckets.list_buckets();
    assert_eq!(listed.len(), 1);
    assert_eq!(listed[0].name, "photos");
    assert_eq!(buckets.get_bucket("photos").unwrap().name, "photos");
    assert_eq!(buckets.delete_bucket("photos"), Ok(()));
    assert!(buckets.list_buckets().is_empty());
    assert!(buckets.get_bucket("photos").is_none());
    let again = buckets.delete_bucket("photos").unwrap_err();
    assert_eq!(again, StorageError::BucketNotFound("photos".to_string()));
    assert_eq!(again.message(), "Bucket 'photos' not found");
    assert_eq!(again.kind(), ErrorKind::NotFound);
}

#[test]
fn invalid_bucket_name() {
    let mut buckets = empty_service();
    let digit = buckets.create_bucket_at("1bad".to_string(), at(1)).unwrap_err();
    assert_eq!(digit.kind(), ErrorKind::InvalidName);
    assert_eq!(digit.message(), "Bucket name cannot start with a number");
    let hyphen = buckets.create_bucket_at("-bad".to_string(), at(1)).unwrap_err();
    assert_eq!(hyphen.kind(), ErrorKind::InvalidName);
    assert_eq!(hyphen.message(), "Bucket name cannot start or end with a hyphen");
    assert!(buckets.list_buckets().is_empty());
    assert!(buckets.take_journal().is_empty());
}

#[test]
fn bucket_cannot_be_created_twice() {
    let mut buckets = empty_service();
    buckets.create_bucket_at("b".to_string(), at(1)).unwrap();
    let again = buckets.create_bucket_at("b".to_string(), at(2)).unwrap_err();
    assert_eq!(again, StorageError::BucketAlreadyExists("b".to_string()));
    assert_eq!(again.message(), "Bucket 'b' already exists");
    assert_eq!(buckets.get_bucket("b").unwrap().created_at, at(1));
}

#[test]
fn creating_a_bucket_writes_its_description() {
    let mut buckets = empty_service();
    buckets.create_bucket_at("b".to_string(), at(7)).unwrap();
    let journal = buckets.take_journal();
    assert_eq!(journal.len(), 1);
    match &journal[0] {
        DiskOp::WriteBucket { path, bucket } => {
            assert_eq!(path, "/data/b/.sevino.meta/bucket.json");
            assert_eq!(bucket.name, "b");
            assert_eq!(bucket.created_at, at(7));
        }
        other => panic!("unexpected change of the tree: {:?}", other),
    }
    assert!(buckets.take_journal().is_empty());
}

#[test]
fn deleting_a_bucket_removes_its_directory() {
    let mut buckets = empty_service();
    buckets.create_bucket_at("b".to_string(), at(7)).unwrap();
    buckets.take_journal();
    buckets.delete_bucket("b").unwrap();
    let journal = buckets.take_journal();
    assert_eq!(journal.len(), 1);
    match &journal[0] {
        DiskOp::RemoveDirAll { path } => assert_eq!(path, "/data/b"),
        other => panic!("unexpected change of the tree: {:?}", other),
    }
}

#[test]
fn bucket_non_empty_guard() {
    let mut buckets = empty_service();
    buckets.create_bucket_at("b".to_string(), at(1)).unwrap();
    let mut objects = ObjectService::new(buckets.into_storage());
    objects
        .put_object_at("b", "any", b"bytes".to_vec(), "application/octet-stream", Dict::new(), at(2))
        .unwrap();
    let mut buckets = BucketService::new(objects.into_storage());
    let refused = buckets.delete_bucket("b").unwrap_err();
    assert_eq!(refused, StorageError::NotEmpty("b".to_string()));
    assert_eq!(refused.kind(), ErrorKind::NotEmpty);
    assert!(refused.message().starts_with("Cannot delete non-empty bucket"));
    assert!(buckets.get_bucket("b").is_some());
    let mut objects = ObjectService::new(buckets.into_storage());
    objects.delete_object("b", "any").unwrap();
    let mut buckets = BucketService::new(objects.into_storage());
    assert_eq!(buckets.delete_bucket("b"), Ok(()));
}

#[test]
fn buckets_are_listed_each_once() {
    let mut buckets = empty_service();
    for name in ["alpha", "beta", "gamma"] {
        buckets.create_bucket_at(name.to_string(), at(1)).unwrap();
    }
    let mut names: Vec<String> = buckets.list_buckets().into_iter().map(|b| b.name).collect();
    names.sort();
    assert_eq!(names, vec!["alpha", "beta", "gamma"]);
}

#[test]
fn bucket_made_now_has_no_metadata() {
    let b = Bucket::new("fresh".to_string());
    assert_eq!(b.name, "fresh");
    assert_eq!(b.metadata.len(), 0);
    let copy = b.clone();
    assert_eq!(copy.name, "fresh");
    assert_eq!(copy.created_at, b.created_at);
}

#[test]
fn bucket_created_by_the_clock_is_registered() {
    let mut buckets = empty_service();
    let created = buckets.create_bucket("clocked".to_string()).unwrap();
    assert_eq!(buckets.get_bucket("clocked").unwrap().created_at, created.created_at);
}
