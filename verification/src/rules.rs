//! What each operation of the bucket and object services does to the state
//! of the store and what it answers, stated over plain values.

use crate::error::Failure;
use crate::layout::{object_id_of, versioned_id_of};
use crate::listing::glob_matches;
use crate::models::{BucketView, ObjectMetadataView, ObjectView, Timestamp};
use crate::services::DeduplicationMode;
use crate::state::StoreView;
use crate::text::{first_occurrence, hexadecimal, zero_padded};
use crate::utils::{
    bucket_name_complaint, etag_of, mime_of, object_key_complaint, valid_bucket_name,
    valid_object_key,
};
use vstd::prelude::*;

verus! {

/// A data holder that a new reference may name, with the references it has.
pub struct Holder {
    pub id: Seq<char>,
    pub count: u32,
}

/// The content type of a new object: the one the caller names, or the one
/// inferred from the key where the caller names only a stream of bytes.
pub open spec fn effective_content_type(content_type: Seq<char>, key: Seq<char>) -> Seq<char> {
    if content_type == "application/octet-stream"@ {
        mime_of(key)
    } else {
        content_type
    }
}

/// Metadata touched by a put of the bytes it describes: the time of the last
/// change and the user's metadata are new, all else stays.
pub open spec fn touched(
    metadata: ObjectMetadataView,
    user_metadata: Map<Seq<char>, Seq<char>>,
    now: Timestamp,
) -> ObjectMetadataView {
    ObjectMetadataView { last_modified: now, user_metadata, ..metadata }
}

/// Metadata with the parts replaced that an update names.
pub open spec fn updated(
    metadata: ObjectMetadataView,
    content_type: Option<Seq<char>>,
    user_metadata: Option<Map<Seq<char>, Seq<char>>>,
    now: Timestamp,
) -> ObjectMetadataView {
    ObjectMetadataView {
        content_type: match content_type {
            Some(t) => t,
            None => metadata.content_type,
        },
        user_metadata: match user_metadata {
            Some(m) => m,
            None => metadata.user_metadata,
        },
        last_modified: now,
        ..metadata
    }
}

/// The metadata of an object made at `now`, which nothing refers to. With a
/// `holder` it is a reference to the object named there.
pub open spec fn new_metadata(
    bucket: Seq<char>,
    key: Seq<char>,
    size: u64,
    content_type: Seq<char>,
    etag: Seq<char>,
    user_metadata: Map<Seq<char>, Seq<char>>,
    now: Timestamp,
    holder: Option<Seq<char>>,
) -> ObjectMetadataView {
    ObjectMetadataView {
        key,
        bucket_name: bucket,
        size,
        content_type,
        etag,
        created_at: now,
        last_modified: now,
        user_metadata,
        version_id: None,
        is_delete_marker: false,
        reference_count: 0,
        data_holder_id: holder,
    }
}

/// The nanoseconds from the beginning of 1970 to a moment at or after it.
pub open spec fn nanoseconds_of(now: Timestamp) -> nat {
    (now.seconds * 1_000_000_000 + now.nanos) as nat
}

/// The version that a moment at or after the beginning of 1970 names: its
/// nanoseconds since then in hexadecimal digits, sixteen at least.
pub open spec fn version_id_of(now: Timestamp) -> Seq<char> {
    zero_padded(hexadecimal(nanoseconds_of(now)), 16)
}

/// Metadata that bears the version `version`.
pub open spec fn versioned(metadata: ObjectMetadataView, version: Seq<char>) -> ObjectMetadataView {
    ObjectMetadataView { version_id: Some(version), ..metadata }
}

/// Metadata with its count of references set to `count`.
pub open spec fn counted(metadata: ObjectMetadataView, count: u32) -> ObjectMetadataView {
    ObjectMetadataView { reference_count: count, ..metadata }
}

impl StoreView {
    /// A bucket is created: the name must be a bucket name that is not
    /// registered; the bucket's description is written and the bucket
    /// registered.
    pub open spec fn create_bucket(self, name: Seq<char>, now: Timestamp) -> (
        StoreView,
        Result<BucketView, Failure>,
    ) {
        if !valid_bucket_name(name) {
            (self, Err(Failure::InvalidName(bucket_name_complaint(name))))
        } else if self.buckets.contains_key(name) {
            (self, Err(Failure::BucketAlreadyExists(name)))
        } else {
            let bucket = BucketView::fresh(name, now);
            (self.save_bucket_metadata(bucket).register_bucket(bucket), Ok(bucket))
        }
    }

    /// A bucket is deleted: it must be registered and no key of it indexed;
    /// its directory is removed and the bucket taken out of the registry.
    pub open spec fn delete_bucket(self, name: Seq<char>) -> (StoreView, Result<(), Failure>) {
        if !self.buckets.contains_key(name) {
            (self, Err(Failure::BucketNotFound(name)))
        } else if self.object_count(name) != 0 {
            (self, Err(Failure::NotEmpty(name)))
        } else {
            (self.delete_bucket_directory(name).unregister_bucket(name), Ok(()))
        }
    }

    /// The metadata of the object under `key`.
    pub open spec fn get_object_metadata(self, bucket: Seq<char>, key: Seq<char>) -> Result<
        ObjectMetadataView,
        Failure,
    > {
        if !self.buckets.contains_key(bucket) {
            Err(Failure::BucketNotFound(bucket))
        } else if !self.keys(bucket).contains_key(key) {
            Err(Failure::ObjectNotFound { key, bucket })
        } else if !self.sidecars(bucket).contains_key(self.keys(bucket)[key]) {
            Err(Failure::MetadataNotFound)
        } else {
            Ok(self.sidecars(bucket)[self.keys(bucket)[key]])
        }
    }

    /// The bytes and the metadata of the object under `key`. The bytes of a
    /// reference are those of its data holder; the metadata is its own.
    pub open spec fn get_object(self, bucket: Seq<char>, key: Seq<char>) -> Result<
        (Seq<u8>, ObjectMetadataView),
        Failure,
    > {
        match self.get_object_metadata(bucket, key) {
            Err(e) => Err(e),
            Ok(metadata) => {
                let data_id = match metadata.data_holder_id {
                    Some(holder) => holder,
                    None => self.keys(bucket)[key],
                };
                if metadata.data_holder_id is Some && !self.sidecars(bucket).contains_key(data_id) {
                    Err(Failure::DanglingReference(key))
                } else if !self.blobs(bucket).contains_key(data_id) {
                    Err(Failure::DataMissing)
                } else {
                    Ok((self.blobs(bucket)[data_id], metadata))
                }
            },
        }
    }

    /// Whether `key` holds content with the entity tag `etag`.
    pub open spec fn is_duplicate_content(
        self,
        bucket: Seq<char>,
        key: Seq<char>,
        etag: Seq<char>,
    ) -> bool {
        &&& self.keys(bucket).contains_key(key)
        &&& self.sidecars(bucket).contains_key(self.keys(bucket)[key])
        &&& self.sidecars(bucket)[self.keys(bucket)[key]].etag == etag
    }

    /// The keys of the objects `ids`, in order, leaving out those without
    /// metadata and the key `exclude`.
    pub open spec fn keys_of_objects(
        self,
        bucket: Seq<char>,
        ids: Seq<Seq<char>>,
        exclude: Option<Seq<char>>,
    ) -> Seq<Seq<char>>
        decreases ids.len(),
    {
        if ids.len() == 0 {
            Seq::empty()
        } else {
            let before = self.keys_of_objects(bucket, ids.drop_last(), exclude);
            let id = ids.last();
            if self.sidecars(bucket).contains_key(id) && exclude != Some(
                self.sidecars(bucket)[id].key,
            ) {
                before.push(self.sidecars(bucket)[id].key)
            } else {
                before
            }
        }
    }

    /// The keys, other than `exclude`, whose content has the entity tag
    /// `etag`.
    pub open spec fn find_duplicate_content_keys(
        self,
        bucket: Seq<char>,
        etag: Seq<char>,
        exclude: Option<Seq<char>>,
    ) -> Seq<Seq<char>> {
        self.keys_of_objects(bucket, self.ids_with_etag(bucket, etag), exclude)
    }

    /// One reference to the data holder `holder` is given up: its count goes
    /// down by one, but not below zero.
    pub open spec fn release(self, bucket: Seq<char>, holder: Seq<char>) -> StoreView {
        if self.sidecars(bucket).contains_key(holder) && self.sidecars(
            bucket,
        )[holder].reference_count > 0 {
            let metadata = self.sidecars(bucket)[holder];
            self.save_object_metadata(
                bucket,
                holder,
                counted(metadata, (metadata.reference_count - 1) as u32),
            )
        } else {
            self
        }
    }

    /// The object `id`, which has the key `key` and the metadata `metadata`,
    /// is removed. A reference goes and its data holder loses one reference.
    /// A data holder goes with its bytes, unless references rely on it: then
    /// nothing changes and the answer says how many there are.
    pub open spec fn remove_object(
        self,
        bucket: Seq<char>,
        key: Seq<char>,
        id: Seq<char>,
        metadata: ObjectMetadataView,
    ) -> (StoreView, Result<(), Failure>) {
        let unindexed = self.remove_object_from_index(bucket, key).remove_etag_from_index(
            bucket,
            metadata.etag,
            id,
        );
        match metadata.data_holder_id {
            Some(holder) => (
                unindexed.delete_object_metadata(bucket, id).release(bucket, holder),
                Ok(()),
            ),
            None => if metadata.reference_count > 0 {
                (self, Err(Failure::HasReferences { key, count: metadata.reference_count }))
            } else {
                (unindexed.delete_object_data(bucket, id).delete_object_metadata(bucket, id), Ok(()))
            },
        }
    }

    /// The object under `key` is deleted.
    pub open spec fn delete_object(self, bucket: Seq<char>, key: Seq<char>) -> (
        StoreView,
        Result<(), Failure>,
    ) {
        match self.get_object_metadata(bucket, key) {
            Err(e) => (self, Err(e)),
            Ok(metadata) => self.remove_object(bucket, key, self.keys(bucket)[key], metadata),
        }
    }

    /// The place of the object `id` is cleared: the object whose metadata
    /// stands there is removed under the key it names. Nothing happens where
    /// no metadata stands there.
    pub open spec fn evict(self, bucket: Seq<char>, id: Seq<char>) -> (
        StoreView,
        Result<(), Failure>,
    ) {
        if self.sidecars(bucket).contains_key(id) {
            let metadata = self.sidecars(bucket)[id];
            self.remove_object(bucket, metadata.key, id, metadata)
        } else {
            (self, Ok(()))
        }
    }

    /// The data holder that a new reference under `key` may name on account
    /// of the object `id`: the object itself, or the holder it refers to.
    /// None where `id` has no metadata or has the key `key` itself, and none
    /// where the holder is missing, is itself a reference, or cannot count
    /// one reference more.
    pub open spec fn holder_for(self, bucket: Seq<char>, id: Seq<char>, key: Seq<char>) -> Option<
        Holder,
    > {
        if self.sidecars(bucket).contains_key(id) && self.sidecars(bucket)[id].key != key {
            let holder = match self.sidecars(bucket)[id].data_holder_id {
                Some(h) => h,
                None => id,
            };
            if self.sidecars(bucket).contains_key(holder) && self.sidecars(
                bucket,
            )[holder].data_holder_id is None && self.sidecars(bucket)[holder].reference_count
                < u32::MAX {
                Some(Holder { id: holder, count: self.sidecars(bucket)[holder].reference_count })
            } else {
                None
            }
        } else {
            None
        }
    }

    /// Among the holders that the objects `ids` stand for, the one with the
    /// most references; of several with as many, the first.
    pub open spec fn best_holder(self, bucket: Seq<char>, ids: Seq<Seq<char>>, key: Seq<char>) -> Option<
        Holder,
    >
        decreases ids.len(),
    {
        if ids.len() == 0 {
            None
        } else {
            let before = self.best_holder(bucket, ids.drop_last(), key);
            let here = self.holder_for(bucket, ids.last(), key);
            match (before, here) {
                (Some(p), Some(c)) => if c.count > p.count {
                    Some(c)
                } else {
                    Some(p)
                },
                (Some(p), None) => Some(p),
                (None, c) => c,
            }
        }
    }

    /// The holder that `best_holder` finds has metadata, is no reference
    /// itself, has the count found, and can count one reference more.
    pub proof fn lemma_best_holder(self, bucket: Seq<char>, ids: Seq<Seq<char>>, key: Seq<char>)
        ensures
            self.best_holder(bucket, ids, key) matches Some(h) ==> {
                &&& self.sidecars(bucket).contains_key(h.id)
                &&& self.sidecars(bucket)[h.id].data_holder_id is None
                &&& self.sidecars(bucket)[h.id].reference_count == h.count
                &&& h.count < u32::MAX
                &&& exists|i: int| 0 <= i < ids.len() && self.holder_for(bucket, ids[i], key) == Some(h)
            },
        decreases ids.len(),
    {
        if ids.len() > 0 {
            self.lemma_best_holder(bucket, ids.drop_last(), key);
            let before = self.best_holder(bucket, ids.drop_last(), key);
            let here = self.holder_for(bucket, ids.last(), key);
            if let Some(h) = self.best_holder(bucket, ids, key) {
                if here == Some(h) {
                    assert(self.holder_for(bucket, ids[ids.len() - 1], key) == Some(h));
                } else {
                    let i = choose|i: int|
                        0 <= i < ids.drop_last().len() && self.holder_for(
                            bucket,
                            ids.drop_last()[i],
                            key,
                        ) == Some(h);
                    assert(ids[i] == ids.drop_last()[i]);
                }
            }
        }
    }

    /// The place of the object `id` being clear, the bytes `data` are stored
    /// under `key`: as a reference where `holder` names a data holder, which
    /// then counts one reference more, and as an object of its own otherwise.
    pub open spec fn store_object(
        self,
        bucket: Seq<char>,
        key: Seq<char>,
        id: Seq<char>,
        data: Seq<u8>,
        metadata: ObjectMetadataView,
        holder: Option<Holder>,
    ) -> StoreView {
        let written = match holder {
            Some(h) => self.save_object_metadata(
                bucket,
                h.id,
                counted(self.sidecars(bucket)[h.id], (h.count + 1) as u32),
            ),
            None => self.write_object_data(bucket, id, data),
        };
        written.save_object_metadata(bucket, id, metadata).add_object_to_index(
            bucket,
            key,
            id,
        ).add_etag_to_index(bucket, metadata.etag, id)
    }

    /// The bytes `data` are put under `key`.
    ///
    /// The key must be an object key and the bucket registered. Where the key
    /// holds these bytes already, only its metadata is touched. Otherwise,
    /// under `Reject`, the put fails where another key holds the same
    /// content. Else the object that stood in the key's place is removed as a
    /// delete removes it, which fails where references rely on it, and the
    /// bytes are stored: under `Reference` as a reference to the best data
    /// holder of the same content, where there is one, and as an object of
    /// its own in every other case.
    pub open spec fn put_object(
        self,
        bucket: Seq<char>,
        key: Seq<char>,
        data: Seq<u8>,
        content_type: Seq<char>,
        user_metadata: Map<Seq<char>, Seq<char>>,
        mode: DeduplicationMode,
        now: Timestamp,
    ) -> (StoreView, Result<ObjectView, Failure>) {
        let etag = etag_of(data);
        let id = object_id_of(bucket, key);
        if !valid_object_key(key) {
            (self, Err(Failure::InvalidKey(object_key_complaint(key))))
        } else if !self.buckets.contains_key(bucket) {
            (self, Err(Failure::BucketNotFound(bucket)))
        } else if self.is_duplicate_content(bucket, key, etag) {
            let old_id = self.keys(bucket)[key];
            let metadata = touched(self.sidecars(bucket)[old_id], user_metadata, now);
            (self.save_object_metadata(bucket, old_id, metadata), Ok(metadata.object()))
        } else {
            let others = self.find_duplicate_content_keys(bucket, etag, Some(key));
            if mode == DeduplicationMode::Reject && others.len() > 0 {
                (self, Err(Failure::DuplicateContent { key: others[0], etag }))
            } else {
                let (cleared, gone) = self.evict(bucket, id);
                match gone {
                    Err(e) => (self, Err(e)),
                    Ok(_) => {
                        let holder = if mode == DeduplicationMode::Reference {
                            cleared.best_holder(bucket, cleared.ids_with_etag(bucket, etag), key)
                        } else {
                            None
                        };
                        let metadata = new_metadata(
                            bucket,
                            key,
                            data.len() as u64,
                            effective_content_type(content_type, key),
                            etag,
                            user_metadata,
                            now,
                            match holder {
                                Some(h) => Some(h.id),
                                None => None,
                            },
                        );
                        (
                            cleared.store_object(bucket, key, id, data, metadata, holder),
                            Ok(metadata.object()),
                        )
                    },
                }
            }
        }
    }

    /// The bytes `data` are put under `key` as the version that `now` names.
    ///
    /// The key must be an object key and the bucket registered. Where the key
    /// holds these bytes already, only its metadata is touched. Otherwise the
    /// bytes and their metadata, which bears the version, are stored under
    /// the identifier of that version, and the key and the entity tag are
    /// indexed under it. What stood under the key before stays in the tree:
    /// it is the older version. A store that holds a version does not agree
    /// with itself in the sense of `consistent`, which knows one identifier
    /// for each key.
    pub open spec fn put_object_version(
        self,
        bucket: Seq<char>,
        key: Seq<char>,
        data: Seq<u8>,
        content_type: Seq<char>,
        user_metadata: Map<Seq<char>, Seq<char>>,
        now: Timestamp,
    ) -> (StoreView, Result<ObjectView, Failure>) {
        let etag = etag_of(data);
        if !valid_object_key(key) {
            (self, Err(Failure::InvalidKey(object_key_complaint(key))))
        } else if !self.buckets.contains_key(bucket) {
            (self, Err(Failure::BucketNotFound(bucket)))
        } else if self.is_duplicate_content(bucket, key, etag) {
            let old_id = self.keys(bucket)[key];
            let metadata = touched(self.sidecars(bucket)[old_id], user_metadata, now);
            (self.save_object_metadata(bucket, old_id, metadata), Ok(metadata.object()))
        } else {
            let version = version_id_of(now);
            let metadata = versioned(
                new_metadata(
                    bucket,
                    key,
                    data.len() as u64,
                    effective_content_type(content_type, key),
                    etag,
                    user_metadata,
                    now,
                    None,
                ),
                version,
            );
            (
                self.store_object(
                    bucket,
                    key,
                    versioned_id_of(bucket, key, version),
                    data,
                    metadata,
                    None,
                ),
                Ok(metadata.object()),
            )
        }
    }

    /// The bytes `data` are put under `key`: as a version where versions are
    /// asked for, and as every put stores them otherwise, whatever other keys
    /// hold.
    pub open spec fn put_object_with_versioning(
        self,
        bucket: Seq<char>,
        key: Seq<char>,
        data: Seq<u8>,
        content_type: Seq<char>,
        user_metadata: Map<Seq<char>, Seq<char>>,
        enable_versioning: bool,
        now: Timestamp,
    ) -> (StoreView, Result<ObjectView, Failure>) {
        if enable_versioning {
            self.put_object_version(bucket, key, data, content_type, user_metadata, now)
        } else {
            self.put_object(
                bucket,
                key,
                data,
                content_type,
                user_metadata,
                DeduplicationMode::Allow,
                now,
            )
        }
    }

    /// The bytes are put under `key` unless the key holds them already.
    pub open spec fn put_object_if_not_exists(
        self,
        bucket: Seq<char>,
        key: Seq<char>,
        data: Seq<u8>,
        content_type: Seq<char>,
        user_metadata: Map<Seq<char>, Seq<char>>,
        now: Timestamp,
    ) -> (StoreView, Result<ObjectView, Failure>) {
        if self.is_duplicate_content(bucket, key, etag_of(data)) {
            (self, Err(Failure::ObjectAlreadyExists(key)))
        } else {
            self.put_object(
                bucket,
                key,
                data,
                content_type,
                user_metadata,
                DeduplicationMode::Allow,
                now,
            )
        }
    }

    /// The bytes are put under `key` unless the key holds content with the
    /// entity tag `expected`.
    pub open spec fn put_object_if_etag_mismatch(
        self,
        bucket: Seq<char>,
        key: Seq<char>,
        data: Seq<u8>,
        content_type: Seq<char>,
        user_metadata: Map<Seq<char>, Seq<char>>,
        expected: Seq<char>,
        now: Timestamp,
    ) -> (StoreView, Result<ObjectView, Failure>) {
        if self.is_duplicate_content(bucket, key, expected) {
            (self, Err(Failure::PreconditionFailed { expected, found: expected }))
        } else {
            self.put_object(
                bucket,
                key,
                data,
                content_type,
                user_metadata,
                DeduplicationMode::Allow,
                now,
            )
        }
    }

    /// The metadata of the object under `key` is changed in the parts that
    /// the caller names, and the time of its last change set to `now`.
    pub open spec fn update_object_metadata(
        self,
        bucket: Seq<char>,
        key: Seq<char>,
        content_type: Option<Seq<char>>,
        user_metadata: Option<Map<Seq<char>, Seq<char>>>,
        now: Timestamp,
    ) -> (StoreView, Result<ObjectView, Failure>) {
        match self.get_object_metadata(bucket, key) {
            Err(e) => (self, Err(e)),
            Ok(metadata) => {
                let next = updated(metadata, content_type, user_metadata, now);
                (
                    self.save_object_metadata(bucket, self.keys(bucket)[key], next),
                    Ok(next.object()),
                )
            },
        }
    }
}

/// Whether metadata passes the filters of a listing: its key begins with the
/// prefix, its entity tag matches the pattern, and the user's metadata holds
/// each of the pairs; a filter that is not given lets everything pass.
pub open spec fn passes_filters(
    metadata: ObjectMetadataView,
    prefix: Option<Seq<char>>,
    etag_filter: Option<Seq<char>>,
    custom_filters: Seq<(Seq<char>, Seq<char>)>,
) -> bool {
    &&& prefix matches Some(p) ==> p.is_prefix_of(metadata.key)
    &&& etag_filter matches Some(f) ==> glob_matches(f, metadata.etag)
    &&& forall|i: int|
        0 <= i < custom_filters.len() ==> holds_pair(
            metadata.user_metadata,
            #[trigger] custom_filters[i],
        )
}

/// Whether the user's metadata holds the value of the pair under its name.
pub open spec fn holds_pair(user_metadata: Map<Seq<char>, Seq<char>>, pair: (Seq<char>, Seq<char>)) -> bool {
    user_metadata.contains_key(pair.0) && user_metadata[pair.0] == pair.1
}

/// The objects of the metadata that passes the filters, in order.
pub open spec fn retained(
    entries: Seq<ObjectMetadataView>,
    prefix: Option<Seq<char>>,
    etag_filter: Option<Seq<char>>,
    custom_filters: Seq<(Seq<char>, Seq<char>)>,
) -> Seq<ObjectView>
    decreases entries.len(),
{
    if entries.len() == 0 {
        Seq::empty()
    } else {
        let before = retained(entries.drop_last(), prefix, etag_filter, custom_filters);
        if passes_filters(entries.last(), prefix, etag_filter, custom_filters) {
            before.push(entries.last().object())
        } else {
            before
        }
    }
}

/// The directory that a key lies in below its first `from` characters: the
/// key up to the end of the first delimiter that the rest of the key holds.
/// A key whose rest is without the delimiter lies in none.
pub open spec fn directory_of(key: Seq<char>, delimiter: Seq<char>, from: nat) -> Option<
    Seq<char>,
> {
    if from > key.len() {
        None
    } else {
        match first_occurrence(key.skip(from as int), delimiter, 0) {
            Some(at) => Some(key.take(from + at + delimiter.len())),
            None => None,
        }
    }
}

/// How many characters of each key a listing with the prefix `prefix` takes
/// as given.
pub open spec fn prefix_length(prefix: Option<Seq<char>>) -> nat {
    match prefix {
        Some(p) => p.len(),
        None => 0,
    }
}

/// The entry that stands for a directory in a listing.
pub open spec fn directory_entry(directory: Seq<char>, bucket: Seq<char>, now: Timestamp) -> ObjectView {
    ObjectView {
        key: directory,
        bucket_name: bucket,
        size: 0,
        content_type: "application/x-directory"@,
        etag: Seq::empty(),
        created_at: now,
        last_modified: now,
        user_metadata: Map::empty(),
    }
}

/// Whether one of the entries lies in `directory`.
pub open spec fn lies_in(
    entries: Seq<ObjectView>,
    delimiter: Seq<char>,
    from: nat,
    directory: Seq<char>,
) -> bool {
    exists|i: int|
        0 <= i < entries.len() && directory_of((#[trigger] entries[i]).key, delimiter, from)
            == Some(directory)
}

/// The entries with those that lie in a directory rolled up: each directory
/// stands once, where its first entry stood, and the entries that lie in none
/// stand as they are. The delimiter is looked for below the first `from`
/// characters of each key.
pub open spec fn rolled_up(
    entries: Seq<ObjectView>,
    delimiter: Seq<char>,
    from: nat,
    bucket: Seq<char>,
    now: Timestamp,
) -> Seq<ObjectView>
    decreases entries.len(),
{
    if entries.len() == 0 {
        Seq::empty()
    } else {
        let before = rolled_up(entries.drop_last(), delimiter, from, bucket, now);
        match directory_of(entries.last().key, delimiter, from) {
            Some(directory) => if lies_in(entries.drop_last(), delimiter, from, directory) {
                before
            } else {
                before.push(directory_entry(directory, bucket, now))
            },
            None => before.push(entries.last()),
        }
    }
}

/// The metadata with the key `key`, in order.
pub open spec fn with_key(entries: Seq<ObjectMetadataView>, key: Seq<char>) -> Seq<
    ObjectMetadataView,
>
    decreases entries.len(),
{
    if entries.len() == 0 {
        Seq::empty()
    } else {
        let before = with_key(entries.drop_last(), key);
        if entries.last().key == key {
            before.push(entries.last())
        } else {
            before
        }
    }
}

/// The metadata that refers to the data holder `holder`, in order.
pub open spec fn referring(entries: Seq<ObjectMetadataView>, holder: Seq<char>) -> Seq<
    ObjectMetadataView,
>
    decreases entries.len(),
{
    if entries.len() == 0 {
        Seq::empty()
    } else {
        let before = referring(entries.drop_last(), holder);
        if entries.last().data_holder_id == Some(holder) {
            before.push(entries.last())
        } else {
            before
        }
    }
}

/// `metadata` entered into a list that has the newest first: behind every
/// entry that was created at the same time or later.
pub open spec fn entered_by_time(sorted: Seq<ObjectMetadataView>, metadata: ObjectMetadataView) -> Seq<
    ObjectMetadataView,
>
    decreases sorted.len(),
{
    if sorted.len() == 0 {
        seq![metadata]
    } else if sorted.last().created_at.precedes(metadata.created_at) {
        entered_by_time(sorted.drop_last(), metadata).push(sorted.last())
    } else {
        sorted.push(metadata)
    }
}

/// The entries with the newest first; entries created at the same time stay
/// in their order.
pub open spec fn newest_first(entries: Seq<ObjectMetadataView>) -> Seq<ObjectMetadataView>
    decreases entries.len(),
{
    if entries.len() == 0 {
        Seq::empty()
    } else {
        entered_by_time(newest_first(entries.drop_last()), entries.last())
    }
}

/// No entry of the list was created before one that follows it.
pub open spec fn newest_stands_first(entries: Seq<ObjectMetadataView>) -> bool {
    forall|i: int, j: int|
        0 <= i < j < entries.len() ==> !(#[trigger] entries[i]).created_at.precedes(
            (#[trigger] entries[j]).created_at,
        )
}

/// Entering into a list that has the newest first leaves the newest first,
/// and the new entry stands where all behind it were created before it.
pub proof fn lemma_entered_by_time(sorted: Seq<ObjectMetadataView>, metadata: ObjectMetadataView, at: int)
    requires
        0 <= at <= sorted.len(),
        forall|i: int| at <= i < sorted.len() ==> (#[trigger] sorted[i]).created_at.precedes(
            metadata.created_at,
        ),
        at > 0 ==> !sorted[at - 1].created_at.precedes(metadata.created_at),
    ensures
        entered_by_time(sorted, metadata) == sorted.insert(at, metadata),
    decreases sorted.len(),
{
    if sorted.len() == 0 {
        assert(sorted.insert(0, metadata) =~= seq![metadata]);
    } else if at == sorted.len() {
        assert(sorted.insert(at, metadata) =~= sorted.push(metadata));
    } else {
        assert(sorted.last().created_at.precedes(metadata.created_at));
        let shorter = sorted.drop_last();
        assert forall|i: int| at <= i < shorter.len() implies (#[trigger] shorter[i]).created_at.precedes(
            metadata.created_at,
        ) by {
            assert(shorter[i] == sorted[i]);
        }
        lemma_entered_by_time(shorter, metadata, at);
        assert(shorter.insert(at, metadata).push(sorted.last()) =~= sorted.insert(at, metadata));
    }
}

/// A list with the newest first has no entry that was created before one
/// that follows it.
pub proof fn law_newest_first_sorted(entries: Seq<ObjectMetadataView>)
    ensures
        newest_stands_first(newest_first(entries)),
        newest_first(entries).len() == entries.len(),
    decreases entries.len(),
{
    if entries.len() > 0 {
        let sorted = newest_first(entries.drop_last());
        let m = entries.last();
        law_newest_first_sorted(entries.drop_last());
        lemma_entered_sorted(sorted, m);
    }
}

/// Entering into a list that has the newest first leaves the newest first.
pub proof fn lemma_entered_sorted(sorted: Seq<ObjectMetadataView>, metadata: ObjectMetadataView)
    requires
        newest_stands_first(sorted),
    ensures
        newest_stands_first(entered_by_time(sorted, metadata)),
        entered_by_time(sorted, metadata).len() == sorted.len() + 1,
        forall|i: int|
            0 <= i < entered_by_time(sorted, metadata).len() ==> (#[trigger] entered_by_time(
                sorted,
                metadata,
            )[i]) == metadata || sorted.contains(entered_by_time(sorted, metadata)[i]),
    decreases sorted.len(),
{
    let out = entered_by_time(sorted, metadata);
    if sorted.len() == 0 {
    } else if sorted.last().created_at.precedes(metadata.created_at) {
        let shorter = sorted.drop_last();
        assert(newest_stands_first(shorter)) by {
            assert forall|i: int, j: int| 0 <= i < j < shorter.len() implies !(
            #[trigger] shorter[i]).created_at.precedes((#[trigger] shorter[j]).created_at) by {
                assert(shorter[i] == sorted[i] && shorter[j] == sorted[j]);
            }
        }
        lemma_entered_sorted(shorter, metadata);
        let inner = entered_by_time(shorter, metadata);
        assert(out == inner.push(sorted.last()));
        assert forall|i: int, j: int| 0 <= i < j < out.len() implies !(#[trigger] out[i]).created_at.precedes(
            (#[trigger] out[j]).created_at,
        ) by {
            if j < inner.len() {
                assert(out[i] == inner[i] && out[j] == inner[j]);
            } else {
                assert(out[i] == inner[i]);
                if inner[i] != metadata {
                    assert(shorter.contains(inner[i]));
                    let k = choose|k: int| 0 <= k < shorter.len() && shorter[k] == inner[i];
                    assert(sorted[k] == inner[i]);
                    assert(!sorted[k].created_at.precedes(sorted[sorted.len() - 1].created_at));
                }
            }
        }
        assert forall|i: int| 0 <= i < out.len() implies (#[trigger] out[i]) == metadata
            || sorted.contains(out[i]) by {
            if i < inner.len() {
                assert(out[i] == inner[i]);
                if inner[i] != metadata {
                    let k = choose|k: int| 0 <= k < shorter.len() && shorter[k] == inner[i];
                    assert(sorted[k] == inner[i]);
                }
            } else {
                assert(out[i] == sorted[sorted.len() - 1]);
            }
        }
    } else {
        assert(out == sorted.push(metadata));
        assert forall|i: int, j: int| 0 <= i < j < out.len() implies !(#[trigger] out[i]).created_at.precedes(
            (#[trigger] out[j]).created_at,
        ) by {
            if j < sorted.len() {
                assert(out[i] == sorted[i] && out[j] == sorted[j]);
            } else {
                assert(out[i] == sorted[i]);
                assert(!sorted[i].created_at.precedes(sorted[sorted.len() - 1].created_at) || i
                    == sorted.len() - 1);
            }
        }
        assert forall|i: int| 0 <= i < out.len() implies (#[trigger] out[i]) == metadata
            || sorted.contains(out[i]) by {
            if i < sorted.len() {
                assert(out[i] == sorted[i]);
            }
        }
    }
}

impl StoreView {
    /// The objects of `bucket` that a listing gives: of the page asked for,
    /// those that pass the filters; with a delimiter, those that lie in a
    /// directory below the prefix are rolled up.
    pub open spec fn list_objects(
        self,
        bucket: Seq<char>,
        prefix: Option<Seq<char>>,
        delimiter: Option<Seq<char>>,
        max_keys: Option<u32>,
        marker: Option<Seq<char>>,
        etag_filter: Option<Seq<char>>,
        custom_filters: Seq<(Seq<char>, Seq<char>)>,
        now: Timestamp,
    ) -> Result<Seq<ObjectView>, Failure> {
        if !self.buckets.contains_key(bucket) {
            Err(Failure::BucketNotFound(bucket))
        } else {
            let entries = self.list_object_metadata_with_pagination(
                bucket,
                match max_keys {
                    Some(n) => Some(n as usize),
                    None => None,
                },
                marker,
            );
            let kept = retained(entries, prefix, etag_filter, custom_filters);
            Ok(
                match delimiter {
                    Some(d) => rolled_up(kept, d, prefix_length(prefix), bucket, now),
                    None => kept,
                },
            )
        }
    }

    /// The metadata of `bucket` that has the key `key`, the newest first.
    pub open spec fn list_object_versions(self, bucket: Seq<char>, key: Seq<char>) -> Seq<
        ObjectMetadataView,
    > {
        newest_first(with_key(self.list_object_metadata(bucket), key))
    }

    /// The bytes and the metadata stored under `key` and `version`.
    pub open spec fn get_object_version(
        self,
        bucket: Seq<char>,
        key: Seq<char>,
        version: Seq<char>,
    ) -> Result<(Seq<u8>, ObjectMetadataView), Failure> {
        let id = versioned_id_of(bucket, key, version);
        if !self.sidecars(bucket).contains_key(id) {
            Err(Failure::VersionNotFound)
        } else if !self.blobs(bucket).contains_key(id) {
            Err(Failure::DataMissing)
        } else {
            Ok((self.blobs(bucket)[id], self.sidecars(bucket)[id]))
        }
    }

    /// The metadata of `bucket` that refers to the data holder `holder`.
    pub open spec fn find_references_to_object(self, bucket: Seq<char>, holder: Seq<char>) -> Seq<
        ObjectMetadataView,
    > {
        referring(self.list_object_metadata(bucket), holder)
    }

    /// The objects under `keys` are deleted one after the other. The first
    /// delete that fails ends the run, and its answer is the answer.
    pub open spec fn delete_objects(self, bucket: Seq<char>, keys: Seq<Seq<char>>) -> (
        StoreView,
        Result<(), Failure>,
    )
        decreases keys.len(),
    {
        if keys.len() == 0 {
            (self, Ok(()))
        } else {
            let (next, answer) = self.delete_object(bucket, keys[0]);
            match answer {
                Err(e) => (next, Err(e)),
                Ok(_) => next.delete_objects(bucket, keys.drop_first()),
            }
        }
    }

    /// The object under `key` is deleted together with the references that
    /// rely on it: first each reference, in the order in which the bucket
    /// lists them, then the object itself.
    pub open spec fn force_delete_object_with_references(
        self,
        bucket: Seq<char>,
        key: Seq<char>,
    ) -> (StoreView, Result<(), Failure>) {
        if !self.keys(bucket).contains_key(key) {
            (self, Err(Failure::ObjectNotFound { key, bucket }))
        } else {
            let references = self.find_references_to_object(bucket, self.keys(bucket)[key]);
            let (cleared, answer) = self.delete_objects(bucket, keys_in(references));
            match answer {
                Err(e) => (cleared, Err(e)),
                Ok(_) => cleared.delete_object(bucket, key),
            }
        }
    }
}

/// The keys that the entries name, in order.
pub open spec fn keys_in(entries: Seq<ObjectMetadataView>) -> Seq<Seq<char>> {
    entries.map_values(|m: ObjectMetadataView| m.key)
}

} // verus!
