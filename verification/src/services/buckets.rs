//! The bucket service: create, list, look up and delete buckets.

use crate::error::{Failure, StorageError};
use crate::models::{current_time, Bucket, BucketView, Timestamp};
use crate::services::objects::unit_outcome;
use crate::services::storage::{is_listing_of, StorageService};
use crate::state::StoreView;
use crate::utils::validate_bucket_name;
use vstd::prelude::*;
use vstd::string::*;

verus! {

/// The answer of an operation that gives a bucket, as plain values.
pub open spec fn bucket_outcome(r: Result<Bucket, StorageError>) -> Result<BucketView, Failure> {
    match r {
        Ok(bucket) => Ok(bucket@),
        Err(e) => Err(e@),
    }
}

/// The bucket service.
#[derive(Debug)]
pub struct BucketService {
    storage: StorageService,
}

impl View for BucketService {
    type V = StoreView;

    closed spec fn view(&self) -> StoreView {
        self.storage@
    }
}

impl BucketService {
    /// The bucket service over `storage`.
    pub fn new(storage: StorageService) -> (r: Self)
        ensures
            r@ == storage@,
    {
        BucketService { storage }
    }

    /// Gives the storage back.
    pub fn into_storage(self) -> (r: StorageService)
        ensures
            r@ == self@,
    {
        self.storage
    }

    /// The storage that the service works on.
    pub fn storage(&self) -> (r: &StorageService)
        ensures
            r@ == self@,
    {
        &self.storage
    }

    /// Hands out the changes of the tree written down so far and starts the
    /// journal anew.
    pub fn take_journal(&mut self) -> (r: Vec<crate::disk::DiskOp>)
        ensures
            r.deep_view() == old(self)@.journal,
            final(self)@ == old(self)@.without_journal(),
    {
        self.storage.take_journal()
    }

    /// The registered buckets, each once, in no particular order.
    pub fn list_buckets(&self) -> (r: Vec<Bucket>)
        ensures
            is_listing_of(r.deep_view(), self@.buckets),
    {
        self.storage.list_buckets()
    }

    /// Creates the bucket `name` at the moment `now`.
    pub fn create_bucket_at(&mut self, name: String, now: Timestamp) -> (r: Result<
        Bucket,
        StorageError,
    >)
        ensures
            (final(self)@, bucket_outcome(r)) == old(self)@.create_bucket(name@, now),
    {
        match validate_bucket_name(name.as_str()) {
            Ok(_) => {},
            Err(complaint) => {
                return Err(StorageError::InvalidName(complaint));
            },
        }
        if self.storage.has_bucket(name.as_str()) {
            return Err(StorageError::BucketAlreadyExists(name));
        }
        let bucket = Bucket::new_at(name, now);
        self.storage.save_bucket_metadata(&bucket);
        self.storage.register_bucket(bucket.clone());
        Ok(bucket)
    }

    /// Creates the bucket `name` at the moment the clock shows.
    pub fn create_bucket(&mut self, name: String) -> (r: Result<Bucket, StorageError>)
        ensures
            exists|now: Timestamp|
                (final(self)@, bucket_outcome(r)) == old(self)@.create_bucket(name@, now),
    {
        let now = current_time();
        self.create_bucket_at(name, now)
    }

    /// The registered bucket of this name.
    pub fn get_bucket(&self, name: &str) -> (r: Option<Bucket>)
        ensures
            r.deep_view() == if self@.buckets.contains_key(name@) {
                Some(self@.buckets[name@])
            } else {
                None
            },
    {
        self.storage.find_bucket(name)
    }

    /// Deletes the bucket `name`, which must hold no object.
    pub fn delete_bucket(&mut self, name: &str) -> (r: Result<(), StorageError>)
        ensures
            (final(self)@, unit_outcome(r)) == old(self)@.delete_bucket(name@),
    {
        if !self.storage.has_bucket(name) {
            return Err(StorageError::BucketNotFound(name.to_owned()));
        }
        if !self.storage.is_bucket_empty(name) {
            return Err(StorageError::NotEmpty(name.to_owned()));
        }
        self.storage.delete_bucket_directory(name);
        self.storage.unregister_bucket(name);
        Ok(())
    }
}

} // verus!
