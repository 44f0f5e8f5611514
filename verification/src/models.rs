//! The data model: buckets, objects and the metadata kept beside each object.

use crate::dict::Dict;
use vstd::prelude::*;
use vstd::std_specs::convert::FromSpecImpl;
use vstd::string::*;

verus! {

/// A moment in time: whole seconds since 1970-01-01 00:00:00 UTC and the
/// nanoseconds since the last whole second.
#[derive(Clone, Copy, Debug, PartialEq, Eq, Structural)]
pub struct Timestamp {
    pub seconds: i64,
    pub nanos: u32,
}

impl Timestamp {
    /// `self` is strictly earlier than `other`.
    pub open spec fn precedes(self, other: Timestamp) -> bool {
        self.seconds < other.seconds || (self.seconds == other.seconds && self.nanos
            < other.nanos)
    }

    /// Whether `self` is strictly earlier than `other`.
    pub fn is_before(&self, other: &Timestamp) -> (r: bool)
        ensures
            r == self.precedes(*other),
    {
        self.seconds < other.seconds || (self.seconds == other.seconds && self.nanos
            < other.nanos)
    }
}

/// Reads the clock with `chrono::Utc::now` and takes the moment apart with
/// `timestamp` and `timestamp_subsec_nanos`. Nothing is claimed of the moment
/// read. `Utc::now` gives up where the system clock stands before 1970.
#[verifier::external_body]
pub(crate) fn current_time() -> (now: Timestamp) {
    let moment = chrono::Utc::now();
    Timestamp { seconds: moment.timestamp(), nanos: moment.timestamp_subsec_nanos() }
}

/// A named top-level namespace for objects.
#[derive(Debug)]
pub struct Bucket {
    pub name: String,
    pub created_at: Timestamp,
    pub metadata: Dict<String>,
}

/// What a bucket holds, as plain values.
pub struct BucketView {
    pub name: Seq<char>,
    pub created_at: Timestamp,
    pub metadata: Map<Seq<char>, Seq<char>>,
}

impl View for Bucket {
    type V = BucketView;

    open spec fn view(&self) -> BucketView {
        BucketView { name: self.name@, created_at: self.created_at, metadata: self.metadata@ }
    }
}

impl DeepView for Bucket {
    type V = BucketView;

    open spec fn deep_view(&self) -> BucketView {
        self@
    }
}

impl BucketView {
    /// The bucket that a fresh name gets: created at `now`, without metadata.
    pub open spec fn fresh(name: Seq<char>, now: Timestamp) -> BucketView {
        BucketView { name, created_at: now, metadata: Map::empty() }
    }
}

impl Bucket {
    /// A bucket named `name`, created at `now`, without metadata.
    pub fn new_at(name: String, now: Timestamp) -> (r: Self)
        ensures
            r@ == BucketView::fresh(name@, now),
    {
        Bucket { name, created_at: now, metadata: Dict::new() }
    }

    /// A bucket named `name`, created at the moment the clock shows.
    pub fn new(name: String) -> (r: Self)
        ensures
            r@ == BucketView::fresh(name@, r.created_at),
    {
        Bucket::new_at(name, current_time())
    }
}

impl Clone for Bucket {
    fn clone(&self) -> (r: Self)
        ensures
            r@ == self@,
    {
        Bucket {
            name: self.name.clone(),
            created_at: self.created_at,
            metadata: self.metadata.clone(),
        }
    }
}

/// An object as callers see it: where it is, what it holds and when it
/// changed.
#[derive(Debug)]
pub struct Object {
    pub key: String,
    pub bucket_name: String,
    pub size: u64,
    pub content_type: String,
    pub etag: String,
    pub created_at: Timestamp,
    pub last_modified: Timestamp,
    pub user_metadata: Dict<String>,
}

/// What an object holds, as plain values.
pub struct ObjectView {
    pub key: Seq<char>,
    pub bucket_name: Seq<char>,
    pub size: u64,
    pub content_type: Seq<char>,
    pub etag: Seq<char>,
    pub created_at: Timestamp,
    pub last_modified: Timestamp,
    pub user_metadata: Map<Seq<char>, Seq<char>>,
}

impl View for Object {
    type V = ObjectView;

    open spec fn view(&self) -> ObjectView {
        ObjectView {
            key: self.key@,
            bucket_name: self.bucket_name@,
            size: self.size,
            content_type: self.content_type@,
            etag: self.etag@,
            created_at: self.created_at,
            last_modified: self.last_modified,
            user_metadata: self.user_metadata@,
        }
    }
}

impl DeepView for Object {
    type V = ObjectView;

    open spec fn deep_view(&self) -> ObjectView {
        self@
    }
}

impl ObjectView {
    /// The object that is made at `now`: created and last modified then.
    pub open spec fn fresh(
        key: Seq<char>,
        bucket_name: Seq<char>,
        size: u64,
        content_type: Seq<char>,
        etag: Seq<char>,
        user_metadata: Map<Seq<char>, Seq<char>>,
        now: Timestamp,
    ) -> ObjectView {
        ObjectView {
            key,
            bucket_name,
            size,
            content_type,
            etag,
            created_at: now,
            last_modified: now,
            user_metadata,
        }
    }

    /// The metadata of an object that holds its own data and that nothing
    /// refers to.
    pub open spec fn metadata(self) -> ObjectMetadataView {
        ObjectMetadataView {
            key: self.key,
            bucket_name: self.bucket_name,
            size: self.size,
            content_type: self.content_type,
            etag: self.etag,
            created_at: self.created_at,
            last_modified: self.last_modified,
            user_metadata: self.user_metadata,
            version_id: None,
            is_delete_marker: false,
            reference_count: 0,
            data_holder_id: None,
        }
    }
}

impl Object {
    /// An object made at `now`.
    pub fn new_at(
        key: String,
        bucket_name: String,
        size: u64,
        content_type: String,
        etag: String,
        user_metadata: Dict<String>,
        now: Timestamp,
    ) -> (r: Self)
        ensures
            r@ == ObjectView::fresh(
                key@,
                bucket_name@,
                size,
                content_type@,
                etag@,
                user_metadata@,
                now,
            ),
    {
        Object {
            key,
            bucket_name,
            size,
            content_type,
            etag,
            created_at: now,
            last_modified: now,
            user_metadata,
        }
    }

    /// An object made at the moment the clock shows.
    pub fn new(
        key: String,
        bucket_name: String,
        size: u64,
        content_type: String,
        etag: String,
        user_metadata: Dict<String>,
    ) -> (r: Self)
        ensures
            r@ == ObjectView::fresh(
                key@,
                bucket_name@,
                size,
                content_type@,
                etag@,
                user_metadata@,
                r.created_at,
            ),
    {
        Object::new_at(key, bucket_name, size, content_type, etag, user_metadata, current_time())
    }
}

impl Clone for Object {
    fn clone(&self) -> (r: Self)
        ensures
            r@ == self@,
    {
        Object {
            key: self.key.clone(),
            bucket_name: self.bucket_name.clone(),
            size: self.size,
            content_type: self.content_type.clone(),
            etag: self.etag.clone(),
            created_at: self.created_at,
            last_modified: self.last_modified,
            user_metadata: self.user_metadata.clone(),
        }
    }
}

/// The metadata kept beside each object. An object whose `data_holder_id` is
/// set is a reference: its bytes are those of the object named there. An
/// object without one holds its own bytes, and `reference_count` says how
/// many references name it.
#[derive(Debug)]
pub struct ObjectMetadata {
    pub key: String,
    pub bucket_name: String,
    pub size: u64,
    pub content_type: String,
    pub etag: String,
    pub created_at: Timestamp,
    pub last_modified: Timestamp,
    pub user_metadata: Dict<String>,
    pub version_id: Option<String>,
    pub is_delete_marker: bool,
    pub reference_count: u32,
    pub data_holder_id: Option<String>,
}

/// What an object's metadata holds, as plain values.
pub struct ObjectMetadataView {
    pub key: Seq<char>,
    pub bucket_name: Seq<char>,
    pub size: u64,
    pub content_type: Seq<char>,
    pub etag: Seq<char>,
    pub created_at: Timestamp,
    pub last_modified: Timestamp,
    pub user_metadata: Map<Seq<char>, Seq<char>>,
    pub version_id: Option<Seq<char>>,
    pub is_delete_marker: bool,
    pub reference_count: u32,
    pub data_holder_id: Option<Seq<char>>,
}

impl ObjectMetadataView {
    /// The object that this metadata describes.
    pub open spec fn object(self) -> ObjectView {
        ObjectView {
            key: self.key,
            bucket_name: self.bucket_name,
            size: self.size,
            content_type: self.content_type,
            etag: self.etag,
            created_at: self.created_at,
            last_modified: self.last_modified,
            user_metadata: self.user_metadata,
        }
    }
}

impl View for ObjectMetadata {
    type V = ObjectMetadataView;

    open spec fn view(&self) -> ObjectMetadataView {
        ObjectMetadataView {
            key: self.key@,
            bucket_name: self.bucket_name@,
            size: self.size,
            content_type: self.content_type@,
            etag: self.etag@,
            created_at: self.created_at,
            last_modified: self.last_modified,
            user_metadata: self.user_metadata@,
            version_id: self.version_id.deep_view(),
            is_delete_marker: self.is_delete_marker,
            reference_count: self.reference_count,
            data_holder_id: self.data_holder_id.deep_view(),
        }
    }
}

impl DeepView for ObjectMetadata {
    type V = ObjectMetadataView;

    open spec fn deep_view(&self) -> ObjectMetadataView {
        self@
    }
}

/// A copy of an optional text.
pub fn clone_text_option(text: &Option<String>) -> (r: Option<String>)
    ensures
        r.deep_view() == text.deep_view(),
{
    match text {
        Some(t) => Some(t.clone()),
        None => None,
    }
}

impl Clone for ObjectMetadata {
    fn clone(&self) -> (r: Self)
        ensures
            r@ == self@,
    {
        ObjectMetadata {
            key: self.key.clone(),
            bucket_name: self.bucket_name.clone(),
            size: self.size,
            content_type: self.content_type.clone(),
            etag: self.etag.clone(),
            created_at: self.created_at,
            last_modified: self.last_modified,
            user_metadata: self.user_metadata.clone(),
            version_id: clone_text_option(&self.version_id),
            is_delete_marker: self.is_delete_marker,
            reference_count: self.reference_count,
            data_holder_id: clone_text_option(&self.data_holder_id),
        }
    }
}

impl ObjectMetadata {
    /// The object that this metadata describes.
    pub fn to_object(&self) -> (r: Object)
        ensures
            r@ == self@.object(),
    {
        Object {
            key: self.key.clone(),
            bucket_name: self.bucket_name.clone(),
            size: self.size,
            content_type: self.content_type.clone(),
            etag: self.etag.clone(),
            created_at: self.created_at,
            last_modified: self.last_modified,
            user_metadata: self.user_metadata.clone(),
        }
    }
}

impl From<Object> for ObjectMetadata {
    fn from(obj: Object) -> (r: Self)
        ensures
            r@ == obj@.metadata(),
    {
        ObjectMetadata {
            key: obj.key,
            bucket_name: obj.bucket_name,
            size: obj.size,
            content_type: obj.content_type,
            etag: obj.etag,
            created_at: obj.created_at,
            last_modified: obj.last_modified,
            user_metadata: obj.user_metadata,
            version_id: None,
            is_delete_marker: false,
            reference_count: 0,
            data_holder_id: None,
        }
    }
}

impl FromSpecImpl<Object> for ObjectMetadata {
    open spec fn obeys_from_spec() -> bool {
        true
    }

    open spec fn from_spec(obj: Object) -> ObjectMetadata {
        ObjectMetadata {
            key: obj.key,
            bucket_name: obj.bucket_name,
            size: obj.size,
            content_type: obj.content_type,
            etag: obj.etag,
            created_at: obj.created_at,
            last_modified: obj.last_modified,
            user_metadata: obj.user_metadata,
            version_id: None,
            is_delete_marker: false,
            reference_count: 0,
            data_holder_id: None,
        }
    }
}

} // verus!
