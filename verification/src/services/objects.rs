//! The object service: put with a deduplication policy, get through data
//! holders, delete by reference count, and the reading and changing of
//! metadata.

use crate::dict::Dict;
use crate::error::{Failure, StorageError};
use crate::layout::{generate_object_id, versioned_object_id};
use crate::models::{current_time, Object, ObjectMetadata, ObjectMetadataView, ObjectView, Timestamp};
use crate::rules::{nanoseconds_of, version_id_of, Holder};
use crate::services::storage::StorageService;
use crate::services::DeduplicationMode;
use crate::state::StoreView;
use crate::text::{hexadecimal_text, same_text};
use crate::utils::{generate_etag, get_mime_type, validate_object_key};
use vstd::prelude::*;
use vstd::string::*;

verus! {

/// An optional text as plain values.
pub open spec fn text_option(text: Option<&str>) -> Option<Seq<char>> {
    match text {
        Some(t) => Some(t@),
        None => None,
    }
}

/// The answer of an operation that gives an object, as plain values.
pub open spec fn object_outcome(r: Result<Object, StorageError>) -> Result<ObjectView, Failure> {
    match r {
        Ok(object) => Ok(object@),
        Err(e) => Err(e@),
    }
}

/// The answer of an operation that gives metadata, as plain values.
pub open spec fn metadata_outcome(r: Result<ObjectMetadata, StorageError>) -> Result<
    ObjectMetadataView,
    Failure,
> {
    match r {
        Ok(metadata) => Ok(metadata@),
        Err(e) => Err(e@),
    }
}

/// The answer of an operation that gives bytes and metadata, as plain values.
pub open spec fn data_outcome(r: Result<(Vec<u8>, ObjectMetadata), StorageError>) -> Result<
    (Seq<u8>, ObjectMetadataView),
    Failure,
> {
    match r {
        Ok(found) => Ok((found.0@, found.1@)),
        Err(e) => Err(e@),
    }
}

/// The answer of an operation that gives nothing, as plain values.
pub open spec fn unit_outcome(r: Result<(), StorageError>) -> Result<(), Failure> {
    match r {
        Ok(_) => Ok(()),
        Err(e) => Err(e@),
    }
}

/// A data holder chosen for a new reference.
pub struct ChosenHolder {
    pub id: String,
    pub count: u32,
}

impl View for ChosenHolder {
    type V = Holder;

    open spec fn view(&self) -> Holder {
        Holder { id: self.id@, count: self.count }
    }
}

/// A chosen holder, where there is one, as plain values.
pub open spec fn holder_option(holder: Option<ChosenHolder>) -> Option<Holder> {
    match holder {
        Some(h) => Some(h@),
        None => None,
    }
}

/// The object service.
#[derive(Debug)]
pub struct ObjectService {
    pub(crate) storage: StorageService,
}

impl View for ObjectService {
    type V = StoreView;

    closed spec fn view(&self) -> StoreView {
        self.storage@
    }
}

impl ObjectService {
    /// The object service over `storage`.
    pub fn new(storage: StorageService) -> (r: Self)
        ensures
            r@ == storage@,
    {
        ObjectService { storage }
    }

    /// Gives the storage back.
    pub fn into_storage(self) -> (r: StorageService)
        ensures
            r@ == self@,
    {
        self.storage
    }

    /// The storage that the service works on.
    pub fn storage(&self) -> (r: &StorageService)
        ensures
            r@ == self@,
    {
        &self.storage
    }

    /// Hands out the changes of the tree written down so far and starts the
    /// journal anew.
    pub fn take_journal(&mut self) -> (r: Vec<crate::disk::DiskOp>)
        ensures
            r.deep_view() == old(self)@.journal,
            final(self)@ == old(self)@.without_journal(),
    {
        self.storage.take_journal()
    }

    /// The metadata of the object under `key`.
    pub fn get_object_metadata(&self, bucket_name: &str, key: &str) -> (r: Result<
        ObjectMetadata,
        StorageError,
    >)
        ensures
            metadata_outcome(r) == self@.get_object_metadata(bucket_name@, key@),
    {
        if !self.storage.has_bucket(bucket_name) {
            return Err(StorageError::BucketNotFound(bucket_name.to_owned()));
        }
        let object_id = match self.storage.find_object_id_by_key(bucket_name, key) {
            Some(id) => id,
            None => {
                return Err(
                    StorageError::ObjectNotFound {
                        key: key.to_owned(),
                        bucket: bucket_name.to_owned(),
                    },
                );
            },
        };
        match self.storage.load_object_metadata(bucket_name, object_id.as_str()) {
            Some(metadata) => Ok(metadata),
            None => Err(StorageError::MetadataNotFound),
        }
    }

    /// The bytes and the metadata of the object under `key`.
    pub fn get_object(&self, bucket_name: &str, key: &str) -> (r: Result<
        (Vec<u8>, ObjectMetadata),
        StorageError,
    >)
        ensures
            data_outcome(r) == self@.get_object(bucket_name@, key@),
    {
        let metadata = match self.get_object_metadata(bucket_name, key) {
            Ok(metadata) => metadata,
            Err(e) => {
                return Err(e);
            },
        };
        let data_id = match &metadata.data_holder_id {
            Some(holder) => {
                if self.storage.load_object_metadata(bucket_name, holder.as_str()).is_none() {
                    return Err(StorageError::DanglingReference(key.to_owned()));
                }
                holder.clone()
            },
            None => match self.storage.find_object_id_by_key(bucket_name, key) {
                Some(id) => id,
                None => {
                    return Err(StorageError::MetadataNotFound);
                },
            },
        };
        match self.storage.read_object_data(bucket_name, data_id.as_str()) {
            Some(data) => Ok((data, metadata)),
            None => Err(StorageError::DataMissing),
        }
    }

    /// Whether `key` holds content with the entity tag `etag`.
    pub fn is_duplicate_content(&self, bucket_name: &str, key: &str, etag: &str) -> (r: bool)
        ensures
            r == self@.is_duplicate_content(bucket_name@, key@, etag@),
    {
        match self.storage.find_object_id_by_key(bucket_name, key) {
            Some(id) => match self.storage.load_object_metadata(bucket_name, id.as_str()) {
                Some(metadata) => same_text(metadata.etag.as_str(), etag),
                None => false,
            },
            None => false,
        }
    }

    /// The keys, other than `exclude_key`, whose content has the entity tag
    /// `etag`.
    pub fn find_duplicate_content_keys(
        &self,
        bucket_name: &str,
        etag: &str,
        exclude_key: Option<&str>,
    ) -> (r: Vec<String>)
        ensures
            r.deep_view() == self@.find_duplicate_content_keys(
                bucket_name@,
                etag@,
                text_option(exclude_key),
            ),
    {
        let ids = self.storage.find_objects_by_etag(bucket_name, etag);
        let mut keys: Vec<String> = Vec::new();
        let ghost all = ids.deep_view();
        let ghost exclude = text_option(exclude_key);
        proof {
            assert(keys.deep_view() =~= Seq::<Seq<char>>::empty());
            assert(all.take(0).len() == 0);
        }
        let mut i: usize = 0;
        while i < ids.len()
            invariant
                i <= ids.len(),
                all == ids.deep_view(),
                exclude == text_option(exclude_key),
                keys.deep_view() == self@.keys_of_objects(bucket_name@, all.take(i as int), exclude),
            decreases ids.len() - i,
        {
            proof {
                assert(all.take(i + 1).drop_last() =~= all.take(i as int));
                assert(all.take(i + 1).last() == ids[i as int]@);
            }
            match self.storage.load_object_metadata(bucket_name, ids[i].as_str()) {
                Some(metadata) => {
                    let excluded = match exclude_key {
                        Some(e) => same_text(metadata.key.as_str(), e),
                        None => false,
                    };
                    if !excluded {
                        let ghost before = keys.deep_view();
                        keys.push(metadata.key);
                        proof {
                            assert(keys.deep_view() =~= before.push(metadata.key@));
                        }
                    }
                },
                None => {},
            }
            i += 1;
        }
        proof {
            assert(all.take(i as int) =~= all);
        }
        keys
    }

    fn release(&mut self, bucket_name: &str, holder: &str)
        ensures
            final(self)@ == old(self)@.release(bucket_name@, holder@),
    {
        match self.storage.load_object_metadata(bucket_name, holder) {
            Some(metadata) => {
                if metadata.reference_count > 0 {
                    let mut metadata = metadata;
                    metadata.reference_count = metadata.reference_count - 1;
                    self.storage.save_object_metadata(bucket_name, holder, &metadata);
                }
            },
            None => {},
        }
    }

    fn remove_object(
        &mut self,
        bucket_name: &str,
        key: &str,
        object_id: &str,
        metadata: &ObjectMetadata,
    ) -> (r: Result<(), StorageError>)
        ensures
            (final(self)@, unit_outcome(r)) == old(self)@.remove_object(
                bucket_name@,
                key@,
                object_id@,
                metadata@,
            ),
    {
        match &metadata.data_holder_id {
            Some(holder) => {
                self.storage.remove_object_from_index(bucket_name, key);
                self.storage.remove_etag_from_index(
                    bucket_name,
                    metadata.etag.as_str(),
                    object_id,
                );
                self.storage.delete_object_metadata(bucket_name, object_id);
                self.release(bucket_name, holder.as_str());
                Ok(())
            },
            None => {
                if metadata.reference_count > 0 {
                    return Err(
                        StorageError::HasReferences {
                            key: key.to_owned(),
                            count: metadata.reference_count,
                        },
                    );
                }
                self.storage.remove_object_from_index(bucket_name, key);
                self.storage.remove_etag_from_index(
                    bucket_name,
                    metadata.etag.as_str(),
                    object_id,
                );
                self.storage.delete_object_data(bucket_name, object_id);
                self.storage.delete_object_metadata(bucket_name, object_id);
                Ok(())
            },
        }
    }

    /// Deletes the object under `key`. A reference goes and its data holder
    /// loses one reference; a data holder goes with its bytes, unless
    /// references rely on it.
    pub fn delete_object(&mut self, bucket_name: &str, key: &str) -> (r: Result<(), StorageError>)
        ensures
            (final(self)@, unit_outcome(r)) == old(self)@.delete_object(bucket_name@, key@),
    {
        let metadata = match self.get_object_metadata(bucket_name, key) {
            Ok(metadata) => metadata,
            Err(e) => {
                return Err(e);
            },
        };
        let object_id = match self.storage.find_object_id_by_key(bucket_name, key) {
            Some(id) => id,
            None => {
                return Err(StorageError::MetadataNotFound);
            },
        };
        self.remove_object(bucket_name, key, object_id.as_str(), &metadata)
    }

    fn evict(&mut self, bucket_name: &str, object_id: &str) -> (r: Result<(), StorageError>)
        ensures
            (final(self)@, unit_outcome(r)) == old(self)@.evict(bucket_name@, object_id@),
    {
        match self.storage.load_object_metadata(bucket_name, object_id) {
            Some(metadata) => self.remove_object(
                bucket_name,
                metadata.key.as_str(),
                object_id,
                &metadata,
            ),
            None => Ok(()),
        }
    }

    fn holder_for(&self, bucket_name: &str, object_id: &str, key: &str) -> (r: Option<
        ChosenHolder,
    >)
        ensures
            holder_option(r) == self@.holder_for(bucket_name@, object_id@, key@),
    {
        let metadata = match self.storage.load_object_metadata(bucket_name, object_id) {
            Some(metadata) => metadata,
            None => {
                return None;
            },
        };
        if same_text(metadata.key.as_str(), key) {
            return None;
        }
        let holder_id = match metadata.data_holder_id {
            Some(h) => h,
            None => object_id.to_owned(),
        };
        match self.storage.load_object_metadata(bucket_name, holder_id.as_str()) {
            Some(holder) => {
                if holder.data_holder_id.is_none() && holder.reference_count < u32::MAX {
                    Some(ChosenHolder { id: holder_id, count: holder.reference_count })
                } else {
                    None
                }
            },
            None => None,
        }
    }

    fn best_holder(&self, bucket_name: &str, etag: &str, key: &str) -> (r: Option<ChosenHolder>)
        ensures
            holder_option(r) == self@.best_holder(
                bucket_name@,
                self@.ids_with_etag(bucket_name@, etag@),
                key@,
            ),
    {
        let ids = self.storage.find_objects_by_etag(bucket_name, etag);
        let ghost all = ids.deep_view();
        let mut best: Option<ChosenHolder> = None;
        proof {
            assert(all.take(0).len() == 0);
        }
        let mut i: usize = 0;
        while i < ids.len()
            invariant
                i <= ids.len(),
                all == ids.deep_view(),
                holder_option(best) == self@.best_holder(bucket_name@, all.take(i as int), key@),
            decreases ids.len() - i,
        {
            proof {
                assert(all.take(i + 1).drop_last() =~= all.take(i as int));
                assert(all.take(i + 1).last() == ids[i as int]@);
            }
            let here = self.holder_for(bucket_name, ids[i].as_str(), key);
            best =
            match (best, here) {
                (Some(p), Some(c)) => if c.count > p.count {
                    Some(c)
                } else {
                    Some(p)
                },
                (Some(p), None) => Some(p),
                (None, c) => c,
            };
            i += 1;
        }
        proof {
            assert(all.take(i as int) =~= all);
        }
        best
    }

    fn store_object(
        &mut self,
        bucket_name: &str,
        key: &str,
        object_id: &str,
        data: &Vec<u8>,
        metadata: &ObjectMetadata,
        holder: &Option<ChosenHolder>,
    )
        requires
            holder matches Some(h) ==> old(self)@.sidecars(bucket_name@).contains_key(h.id@)
                && h.count == old(self)@.sidecars(bucket_name@)[h.id@].reference_count && h.count
                < u32::MAX,
        ensures
            final(self)@ == old(self)@.store_object(
                bucket_name@,
                key@,
                object_id@,
                data@,
                metadata@,
                holder_option(*holder),
            ),
    {
        match holder {
            Some(h) => {
                match self.storage.load_object_metadata(bucket_name, h.id.as_str()) {
                    Some(held) => {
                        let mut held = held;
                        held.reference_count = h.count + 1;
                        self.storage.save_object_metadata(bucket_name, h.id.as_str(), &held);
                    },
                    None => {},
                }
            },
            None => {
                self.storage.write_object_data(bucket_name, object_id, data);
            },
        }
        self.storage.save_object_metadata(bucket_name, object_id, metadata);
        self.storage.add_object_to_index(bucket_name, key, object_id);
        self.storage.add_etag_to_index(bucket_name, metadata.etag.as_str(), object_id);
    }

    /// Puts `data` under `key` at the moment `now`, under the policy
    /// `deduplication_mode`.
    pub fn put_object_with_deduplication_at(
        &mut self,
        bucket_name: &str,
        key: &str,
        data: Vec<u8>,
        content_type: &str,
        user_metadata: Dict<String>,
        deduplication_mode: DeduplicationMode,
        now: Timestamp,
    ) -> (r: Result<Object, StorageError>)
        ensures
            (final(self)@, object_outcome(r)) == old(self)@.put_object(
                bucket_name@,
                key@,
                data@,
                content_type@,
                user_metadata@,
                deduplication_mode,
                now,
            ),
    {
        match validate_object_key(key) {
            Ok(_) => {},
            Err(complaint) => {
                return Err(StorageError::InvalidKey(complaint));
            },
        }
        if !self.storage.has_bucket(bucket_name) {
            return Err(StorageError::BucketNotFound(bucket_name.to_owned()));
        }
        let etag = generate_etag(data.as_slice());
        if self.is_duplicate_content(bucket_name, key, etag.as_str()) {
            let old_id = match self.storage.find_object_id_by_key(bucket_name, key) {
                Some(id) => id,
                None => {
                    return Err(StorageError::MetadataNotFound);
                },
            };
            let mut metadata = match self.storage.load_object_metadata(
                bucket_name,
                old_id.as_str(),
            ) {
                Some(metadata) => metadata,
                None => {
                    return Err(StorageError::MetadataNotFound);
                },
            };
            metadata.last_modified = now;
            metadata.user_metadata = user_metadata;
            self.storage.save_object_metadata(bucket_name, old_id.as_str(), &metadata);
            return Ok(metadata.to_object());
        }
        let others = self.find_duplicate_content_keys(bucket_name, etag.as_str(), Some(key));
        if deduplication_mode == DeduplicationMode::Reject && others.len() > 0 {
            return Err(StorageError::DuplicateContent { key: others[0].clone(), etag });
        }
        let object_id = generate_object_id(bucket_name, key);
        match self.evict(bucket_name, object_id.as_str()) {
            Ok(_) => {},
            Err(e) => {
                return Err(e);
            },
        }
        let holder = if deduplication_mode == DeduplicationMode::Reference {
            self.best_holder(bucket_name, etag.as_str(), key)
        } else {
            None
        };
        proof {
            self@.lemma_best_holder(bucket_name@, self@.ids_with_etag(bucket_name@, etag@), key@);
        }
        let content_type = if same_text(content_type, "application/octet-stream") {
            get_mime_type(key)
        } else {
            content_type.to_owned()
        };
        let metadata = ObjectMetadata {
            key: key.to_owned(),
            bucket_name: bucket_name.to_owned(),
            size: data.len() as u64,
            content_type,
            etag,
            created_at: now,
            last_modified: now,
            user_metadata,
            version_id: None,
            is_delete_marker: false,
            reference_count: 0,
            data_holder_id: match &holder {
                Some(h) => Some(h.id.clone()),
                None => None,
            },
        };
        self.store_object(bucket_name, key, object_id.as_str(), &data, &metadata, &holder);
        Ok(metadata.to_object())
    }

    /// Puts `data` under `key` at the moment the clock shows, under the
    /// policy `deduplication_mode`.
    pub fn put_object_with_deduplication(
        &mut self,
        bucket_name: &str,
        key: &str,
        data: Vec<u8>,
        content_type: &str,
        user_metadata: Dict<String>,
        deduplication_mode: DeduplicationMode,
    ) -> (r: Result<Object, StorageError>)
        ensures
            exists|now: Timestamp|
                (final(self)@, object_outcome(r)) == old(self)@.put_object(
                    bucket_name@,
                    key@,
                    data@,
                    content_type@,
                    user_metadata@,
                    deduplication_mode,
                    now,
                ),
    {
        let now = current_time();
        self.put_object_with_deduplication_at(
            bucket_name,
            key,
            data,
            content_type,
            user_metadata,
            deduplication_mode,
            now,
        )
    }

    /// The version that the moment `now` names: its nanoseconds since the
    /// beginning of 1970 in hexadecimal digits, sixteen at least.
    pub fn generate_version_id_at(now: Timestamp) -> (r: String)
        requires
            now.seconds >= 0,
        ensures
            r@ == version_id_of(now),
    {
        let seconds: u128 = now.seconds as u128;
        let nanos: u128 = now.nanos as u128;
        let total: u128 = seconds * 1_000_000_000u128 + nanos;
        proof {
            assert(total as nat == nanoseconds_of(now));
        }
        hexadecimal_text(total, 16)
    }

    /// Puts `data` under `key` at the moment `now`: as the version that the
    /// moment names where versions are asked for, and as every put stores
    /// them otherwise, whatever other keys hold. A version is named by a
    /// moment at or after the beginning of 1970.
    pub fn put_object_with_versioning_at(
        &mut self,
        bucket_name: &str,
        key: &str,
        data: Vec<u8>,
        content_type: &str,
        user_metadata: Dict<String>,
        enable_versioning: bool,
        now: Timestamp,
    ) -> (r: Result<Object, StorageError>)
        requires
            enable_versioning ==> now.seconds >= 0,
        ensures
            (final(self)@, object_outcome(r)) == old(self)@.put_object_with_versioning(
                bucket_name@,
                key@,
                data@,
                content_type@,
                user_metadata@,
                enable_versioning,
                now,
            ),
    {
        if !enable_versioning {
            return self.put_object_with_deduplication_at(
                bucket_name,
                key,
                data,
                content_type,
                user_metadata,
                DeduplicationMode::Allow,
                now,
            );
        }
        match validate_object_key(key) {
            Ok(_) => {},
            Err(complaint) => {
                return Err(StorageError::InvalidKey(complaint));
            },
        }
        if !self.storage.has_bucket(bucket_name) {
            return Err(StorageError::BucketNotFound(bucket_name.to_owned()));
        }
        let etag = generate_etag(data.as_slice());
        if self.is_duplicate_content(bucket_name, key, etag.as_str()) {
            let old_id = match self.storage.find_object_id_by_key(bucket_name, key) {
                Some(id) => id,
                None => {
                    return Err(StorageError::MetadataNotFound);
                },
            };
            let mut metadata = match self.storage.load_object_metadata(
                bucket_name,
                old_id.as_str(),
            ) {
                Some(metadata) => metadata,
                None => {
                    return Err(StorageError::MetadataNotFound);
                },
            };
            metadata.last_modified = now;
            metadata.user_metadata = user_metadata;
            self.storage.save_object_metadata(bucket_name, old_id.as_str(), &metadata);
            return Ok(metadata.to_object());
        }
        let version = Self::generate_version_id_at(now);
        let object_id = versioned_object_id(bucket_name, key, version.as_str());
        let content_type = if same_text(content_type, "application/octet-stream") {
            get_mime_type(key)
        } else {
            content_type.to_owned()
        };
        let metadata = ObjectMetadata {
            key: key.to_owned(),
            bucket_name: bucket_name.to_owned(),
            size: data.len() as u64,
            content_type,
            etag,
            created_at: now,
            last_modified: now,
            user_metadata,
            version_id: Some(version),
            is_delete_marker: false,
            reference_count: 0,
            data_holder_id: None,
        };
        self.store_object(bucket_name, key, object_id.as_str(), &data, &metadata, &None);
        Ok(metadata.to_object())
    }

    /// Puts `data` under `key` at the moment the clock shows, as a version
    /// where versions are asked for. Where the clock shows a moment before
    /// 1970, which names no version, nothing is stored and the put fails.
    pub fn put_object_with_versioning(
        &mut self,
        bucket_name: &str,
        key: &str,
        data: Vec<u8>,
        content_type: &str,
        user_metadata: Dict<String>,
        enable_versioning: bool,
    ) -> (r: Result<Object, StorageError>)
        ensures
            exists|now: Timestamp|
                if enable_versioning && now.seconds < 0 {
                    final(self)@ == old(self)@ && object_outcome(r) == Err::<ObjectView, Failure>(
                        Failure::IoFailure("the clock stands before 1970"@),
                    )
                } else {
                    (final(self)@, object_outcome(r)) == old(self)@.put_object_with_versioning(
                        bucket_name@,
                        key@,
                        data@,
                        content_type@,
                        user_metadata@,
                        enable_versioning,
                        now,
                    )
                },
    {
        let now = current_time();
        if enable_versioning && now.seconds < 0 {
            let ghost refused = self@.put_object_with_versioning(
                bucket_name@,
                key@,
                data@,
                content_type@,
                user_metadata@,
                enable_versioning,
                now,
            );
            return Err(StorageError::IoFailure("the clock stands before 1970".to_string()));
        }
        self.put_object_with_versioning_at(
            bucket_name,
            key,
            data,
            content_type,
            user_metadata,
            enable_versioning,
            now,
        )
    }

    /// Puts `data` under `key` at the moment `now`, storing the bytes
    /// whatever other keys hold.
    pub fn put_object_at(
        &mut self,
        bucket_name: &str,
        key: &str,
        data: Vec<u8>,
        content_type: &str,
        user_metadata: Dict<String>,
        now: Timestamp,
    ) -> (r: Result<Object, StorageError>)
        ensures
            (final(self)@, object_outcome(r)) == old(self)@.put_object(
                bucket_name@,
                key@,
                data@,
                content_type@,
                user_metadata@,
                DeduplicationMode::Allow,
                now,
            ),
    {
        self.put_object_with_deduplication_at(
            bucket_name,
            key,
            data,
            content_type,
            user_metadata,
            DeduplicationMode::Allow,
            now,
        )
    }

    /// Puts `data` under `key` at the moment the clock shows, storing the
    /// bytes whatever other keys hold.
    pub fn put_object(
        &mut self,
        bucket_name: &str,
        key: &str,
        data: Vec<u8>,
        content_type: &str,
        user_metadata: Dict<String>,
    ) -> (r: Result<Object, StorageError>)
        ensures
            exists|now: Timestamp|
                (final(self)@, object_outcome(r)) == old(self)@.put_object(
                    bucket_name@,
                    key@,
                    data@,
                    content_type@,
                    user_metadata@,
                    DeduplicationMode::Allow,
                    now,
                ),
    {
        let now = current_time();
        self.put_object_at(bucket_name, key, data, content_type, user_metadata, now)
    }

    /// Puts `data` under `key` at the moment `now` unless the key holds these
    /// bytes already.
    pub fn put_object_if_not_exists_at(
        &mut self,
        bucket_name: &str,
        key: &str,
        data: Vec<u8>,
        content_type: &str,
        user_metadata: Dict<String>,
        now: Timestamp,
    ) -> (r: Result<Object, StorageError>)
        ensures
            (final(self)@, object_outcome(r)) == old(self)@.put_object_if_not_exists(
                bucket_name@,
                key@,
                data@,
                content_type@,
                user_metadata@,
                now,
            ),
    {
        let etag = generate_etag(data.as_slice());
        if self.is_duplicate_content(bucket_name, key, etag.as_str()) {
            return Err(StorageError::ObjectAlreadyExists(key.to_owned()));
        }
        self.put_object_at(bucket_name, key, data, content_type, user_metadata, now)
    }

    /// Puts `data` under `key` at the moment the clock shows unless the key
    /// holds these bytes already.
    pub fn put_object_if_not_exists(
        &mut self,
        bucket_name: &str,
        key: &str,
        data: Vec<u8>,
        content_type: &str,
        user_metadata: Dict<String>,
    ) -> (r: Result<Object, StorageError>)
        ensures
            exists|now: Timestamp|
                (final(self)@, object_outcome(r)) == old(self)@.put_object_if_not_exists(
                    bucket_name@,
                    key@,
                    data@,
                    content_type@,
                    user_metadata@,
                    now,
                ),
    {
        let now = current_time();
        self.put_object_if_not_exists_at(bucket_name, key, data, content_type, user_metadata, now)
    }

    /// Puts `data` under `key` at the moment `now` unless the key holds
    /// content with the entity tag `expected_etag`.
    pub fn put_object_if_etag_mismatch_at(
        &mut self,
        bucket_name: &str,
        key: &str,
        data: Vec<u8>,
        content_type: &str,
        user_metadata: Dict<String>,
        expected_etag: &str,
        now: Timestamp,
    ) -> (r: Result<Object, StorageError>)
        ensures
            (final(self)@, object_outcome(r)) == old(self)@.put_object_if_etag_mismatch(
                bucket_name@,
                key@,
                data@,
                content_type@,
                user_metadata@,
                expected_etag@,
                now,
            ),
    {
        if self.is_duplicate_content(bucket_name, key, expected_etag) {
            return Err(
                StorageError::PreconditionFailed {
                    expected: expected_etag.to_owned(),
                    found: expected_etag.to_owned(),
                },
            );
        }
        self.put_object_at(bucket_name, key, data, content_type, user_metadata, now)
    }

    /// Puts `data` under `key` at the moment the clock shows unless the key
    /// holds content with the entity tag `expected_etag`.
    pub fn put_object_if_etag_mismatch(
        &mut self,
        bucket_name: &str,
        key: &str,
        data: Vec<u8>,
        content_type: &str,
        user_metadata: Dict<String>,
        expected_etag: &str,
    ) -> (r: Result<Object, StorageError>)
        ensures
            exists|now: Timestamp|
                (final(self)@, object_outcome(r)) == old(self)@.put_object_if_etag_mismatch(
                    bucket_name@,
                    key@,
                    data@,
                    content_type@,
                    user_metadata@,
                    expected_etag@,
                    now,
                ),
    {
        let now = current_time();
        self.put_object_if_etag_mismatch_at(
            bucket_name,
            key,
            data,
            content_type,
            user_metadata,
            expected_etag,
            now,
        )
    }

    /// Changes the metadata of the object under `key` in the parts that are
    /// given and sets the time of its last change to `now`. An entity tag
    /// offered with the update is not taken over.
    pub fn update_object_metadata_at(
        &mut self,
        bucket_name: &str,
        key: &str,
        content_type: Option<String>,
        user_metadata: Option<Dict<String>>,
        custom_etag: Option<String>,
        now: Timestamp,
    ) -> (r: Result<Object, StorageError>)
        ensures
            (final(self)@, object_outcome(r)) == old(self)@.update_object_metadata(
                bucket_name@,
                key@,
                content_type.deep_view(),
                user_metadata.deep_view(),
                now,
            ),
    {
        let mut metadata = match self.get_object_metadata(bucket_name, key) {
            Ok(metadata) => metadata,
            Err(e) => {
                return Err(e);
            },
        };
        let object_id = match self.storage.find_object_id_by_key(bucket_name, key) {
            Some(id) => id,
            None => {
                return Err(StorageError::MetadataNotFound);
            },
        };
        match content_type {
            Some(t) => {
                metadata.content_type = t;
            },
            None => {},
        }
        match user_metadata {
            Some(m) => {
                metadata.user_metadata = m;
            },
            None => {},
        }
        metadata.last_modified = now;
        self.storage.save_object_metadata(bucket_name, object_id.as_str(), &metadata);
        Ok(metadata.to_object())
    }

    /// Changes the metadata of the object under `key` in the parts that are
    /// given and sets the time of its last change to what the clock shows.
    pub fn update_object_metadata(
        &mut self,
        bucket_name: &str,
        key: &str,
        content_type: Option<String>,
        user_metadata: Option<Dict<String>>,
        custom_etag: Option<String>,
    ) -> (r: Result<Object, StorageError>)
        ensures
            exists|now: Timestamp|
                (final(self)@, object_outcome(r)) == old(self)@.update_object_metadata(
                    bucket_name@,
                    key@,
                    content_type.deep_view(),
                    user_metadata.deep_view(),
                    now,
                ),
    {
        let now = current_time();
        self.update_object_metadata_at(
            bucket_name,
            key,
            content_type,
            user_metadata,
            custom_etag,
            now,
        )
    }
}

} // verus!
