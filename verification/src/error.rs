//! The ways in which an operation of the store can fail.

use crate::text::{decimal, decimal_text};
use vstd::prelude::*;
use vstd::string::*;

verus! {

/// A failure of the store, with what is needed to tell a caller about it.
#[derive(Debug, Clone, PartialEq, Eq)]
pub enum StorageError {
    /// The text is no bucket name; the field says why.
    InvalidName(String),
    /// The text is no object key; the field says why.
    InvalidKey(String),
    /// The text names no deduplication policy.
    InvalidDeduplicationMode(String),
    /// Custom metadata could not be read; the field says why.
    InvalidMetadata(String),
    /// No bucket of this name is registered.
    BucketNotFound(String),
    /// The bucket holds no object under this key.
    ObjectNotFound { key: String, bucket: String },
    /// The index names an object whose metadata is missing.
    MetadataNotFound,
    /// No object is stored under this key and version.
    VersionNotFound,
    /// A bucket of this name is registered already.
    BucketAlreadyExists(String),
    /// The key holds these very bytes already.
    ObjectAlreadyExists(String),
    /// The bucket still holds objects.
    NotEmpty(String),
    /// Another key of the bucket holds the same content.
    DuplicateContent { key: String, etag: String },
    /// The object holds data that `count` references rely on.
    HasReferences { key: String, count: u32 },
    /// The stored entity tag is the one the caller named.
    PreconditionFailed { expected: String, found: String },
    /// The object refers to a data holder whose metadata is missing.
    DanglingReference(String),
    /// The metadata is there and the bytes are not.
    DataMissing,
    /// Reading or writing the directory tree failed; the field says how.
    IoFailure(String),
}

/// A failure of the store, as plain values.
pub enum Failure {
    InvalidName(Seq<char>),
    InvalidKey(Seq<char>),
    InvalidDeduplicationMode(Seq<char>),
    InvalidMetadata(Seq<char>),
    BucketNotFound(Seq<char>),
    ObjectNotFound { key: Seq<char>, bucket: Seq<char> },
    MetadataNotFound,
    VersionNotFound,
    BucketAlreadyExists(Seq<char>),
    ObjectAlreadyExists(Seq<char>),
    NotEmpty(Seq<char>),
    DuplicateContent { key: Seq<char>, etag: Seq<char> },
    HasReferences { key: Seq<char>, count: u32 },
    PreconditionFailed { expected: Seq<char>, found: Seq<char> },
    DanglingReference(Seq<char>),
    DataMissing,
    IoFailure(Seq<char>),
}

/// The kinds of failure that callers tell apart.
#[derive(Debug, Clone, Copy, PartialEq, Eq, Structural)]
pub enum ErrorKind {
    InvalidName,
    InvalidKey,
    InvalidDeduplicationMode,
    InvalidMetadata,
    NotFound,
    AlreadyExists,
    NotEmpty,
    DuplicateContent,
    HasReferences,
    PreconditionFailed,
    DanglingReference,
    DataMissing,
    IoFailure,
}

impl View for StorageError {
    type V = Failure;

    open spec fn view(&self) -> Failure {
        match self {
            StorageError::InvalidName(why) => Failure::InvalidName(why@),
            StorageError::InvalidKey(why) => Failure::InvalidKey(why@),
            StorageError::InvalidDeduplicationMode(mode) => Failure::InvalidDeduplicationMode(
                mode@,
            ),
            StorageError::InvalidMetadata(why) => Failure::InvalidMetadata(why@),
            StorageError::BucketNotFound(bucket) => Failure::BucketNotFound(bucket@),
            StorageError::ObjectNotFound { key, bucket } => Failure::ObjectNotFound {
                key: key@,
                bucket: bucket@,
            },
            StorageError::MetadataNotFound => Failure::MetadataNotFound,
            StorageError::VersionNotFound => Failure::VersionNotFound,
            StorageError::BucketAlreadyExists(bucket) => Failure::BucketAlreadyExists(bucket@),
            StorageError::ObjectAlreadyExists(key) => Failure::ObjectAlreadyExists(key@),
            StorageError::NotEmpty(bucket) => Failure::NotEmpty(bucket@),
            StorageError::DuplicateContent { key, etag } => Failure::DuplicateContent {
                key: key@,
                etag: etag@,
            },
            StorageError::HasReferences { key, count } => Failure::HasReferences {
                key: key@,
                count: *count,
            },
            StorageError::PreconditionFailed { expected, found } => Failure::PreconditionFailed {
                expected: expected@,
                found: found@,
            },
            StorageError::DanglingReference(key) => Failure::DanglingReference(key@),
            StorageError::DataMissing => Failure::DataMissing,
            StorageError::IoFailure(why) => Failure::IoFailure(why@),
        }
    }
}

impl Failure {
    /// The kind of a failure.
    pub open spec fn kind(self) -> ErrorKind {
        match self {
            Failure::InvalidName(_) => ErrorKind::InvalidName,
            Failure::InvalidKey(_) => ErrorKind::InvalidKey,
            Failure::InvalidDeduplicationMode(_) => ErrorKind::InvalidDeduplicationMode,
            Failure::InvalidMetadata(_) => ErrorKind::InvalidMetadata,
            Failure::BucketNotFound(_) => ErrorKind::NotFound,
            Failure::ObjectNotFound { .. } => ErrorKind::NotFound,
            Failure::MetadataNotFound => ErrorKind::NotFound,
            Failure::VersionNotFound => ErrorKind::NotFound,
            Failure::BucketAlreadyExists(_) => ErrorKind::AlreadyExists,
            Failure::ObjectAlreadyExists(_) => ErrorKind::AlreadyExists,
            Failure::NotEmpty(_) => ErrorKind::NotEmpty,
            Failure::DuplicateContent { .. } => ErrorKind::DuplicateContent,
            Failure::HasReferences { .. } => ErrorKind::HasReferences,
            Failure::PreconditionFailed { .. } => ErrorKind::PreconditionFailed,
            Failure::DanglingReference(_) => ErrorKind::DanglingReference,
            Failure::DataMissing => ErrorKind::DataMissing,
            Failure::IoFailure(_) => ErrorKind::IoFailure,
        }
    }

    /// The sentence that tells a caller of a failure.
    pub open spec fn message(self) -> Seq<char> {
        match self {
            Failure::InvalidName(why) => why,
            Failure::InvalidKey(why) => why,
            Failure::InvalidDeduplicationMode(mode) => "Invalid deduplication mode: "@ + mode
                + ". Valid modes are: reject, allow, reference"@,
            Failure::InvalidMetadata(why) => "Invalid custom metadata: "@ + why,
            Failure::BucketNotFound(bucket) => "Bucket '"@ + bucket + "' not found"@,
            Failure::ObjectNotFound { key, bucket } => "Object '"@ + key + "' not found in bucket '"@
                + bucket + "'"@,
            Failure::MetadataNotFound => "Object metadata not found"@,
            Failure::VersionNotFound => "Object version not found"@,
            Failure::BucketAlreadyExists(bucket) => "Bucket '"@ + bucket + "' already exists"@,
            Failure::ObjectAlreadyExists(key) => "Object '"@ + key
                + "' already exists with same content"@,
            Failure::NotEmpty(bucket) => "Cannot delete non-empty bucket '"@ + bucket + "'"@,
            Failure::DuplicateContent { key, etag } => "Content already exists with key '"@ + key
                + "' (ETag: "@ + etag
                + "). Use different content or enable deduplication."@,
            Failure::HasReferences { key, count } => "Cannot delete object '"@ + key
                + "' because it has "@ + decimal(count as nat)
                + " reference(s). Delete all references first."@,
            Failure::PreconditionFailed { expected, found } => "ETag precondition failed: expected '"@
                + expected + "', got '"@ + found + "'"@,
            Failure::DanglingReference(key) => "Data holder for object '"@ + key + "' not found"@,
            Failure::DataMissing => "Object data not found"@,
            Failure::IoFailure(why) => why,
        }
    }
}

impl ErrorKind {
    /// The HTTP status that stands for a kind of failure: 404 where something
    /// is missing, 500 where the store contradicts itself or the directory
    /// tree fails, 400 for everything a caller can mend.
    pub open spec fn status_of(self) -> u16 {
        match self {
            ErrorKind::NotFound => 404,
            ErrorKind::DanglingReference => 500,
            ErrorKind::DataMissing => 500,
            ErrorKind::IoFailure => 500,
            _ => 400,
        }
    }

    /// The HTTP status that stands for this kind of failure.
    pub fn status(&self) -> (r: u16)
        ensures
            r == self.status_of(),
    {
        match self {
            ErrorKind::NotFound => 404,
            ErrorKind::DanglingReference => 500,
            ErrorKind::DataMissing => 500,
            ErrorKind::IoFailure => 500,
            _ => 400,
        }
    }
}

fn sentence(before: &str, middle: &str, after: &str) -> (r: String)
    ensures
        r@ == before@ + middle@ + after@,
{
    let mut out = before.to_owned();
    out.append(middle);
    out.append(after);
    out
}

fn long_sentence(a: &str, b: &str, c: &str, d: &str, e: &str) -> (r: String)
    ensures
        r@ == a@ + b@ + c@ + d@ + e@,
{
    let mut out = a.to_owned();
    out.append(b);
    out.append(c);
    out.append(d);
    out.append(e);
    out
}

impl StorageError {
    /// The kind of this failure.
    pub fn kind(&self) -> (r: ErrorKind)
        ensures
            r == self@.kind(),
    {
        match self {
            StorageError::InvalidName(_) => ErrorKind::InvalidName,
            StorageError::InvalidKey(_) => ErrorKind::InvalidKey,
            StorageError::InvalidDeduplicationMode(_) => ErrorKind::InvalidDeduplicationMode,
            StorageError::InvalidMetadata(_) => ErrorKind::InvalidMetadata,
            StorageError::BucketNotFound(_) => ErrorKind::NotFound,
            StorageError::ObjectNotFound { .. } => ErrorKind::NotFound,
            StorageError::MetadataNotFound => ErrorKind::NotFound,
            StorageError::VersionNotFound => ErrorKind::NotFound,
            StorageError::BucketAlreadyExists(_) => ErrorKind::AlreadyExists,
            StorageError::ObjectAlreadyExists(_) => ErrorKind::AlreadyExists,
            StorageError::NotEmpty(_) => ErrorKind::NotEmpty,
            StorageError::DuplicateContent { .. } => ErrorKind::DuplicateContent,
            StorageError::HasReferences { .. } => ErrorKind::HasReferences,
            StorageError::PreconditionFailed { .. } => ErrorKind::PreconditionFailed,
            StorageError::DanglingReference(_) => ErrorKind::DanglingReference,
            StorageError::DataMissing => ErrorKind::DataMissing,
            StorageError::IoFailure(_) => ErrorKind::IoFailure,
        }
    }

    /// The sentence that tells a caller of this failure.
    pub fn message(&self) -> (r: String)
        ensures
            r@ == self@.message(),
    {
        match self {
            StorageError::InvalidName(why) => why.clone(),
            StorageError::InvalidKey(why) => why.clone(),
            StorageError::InvalidDeduplicationMode(mode) => sentence(
                "Invalid deduplication mode: ",
                mode.as_str(),
                ". Valid modes are: reject, allow, reference",
            ),
            StorageError::InvalidMetadata(why) => {
                let r = sentence("Invalid custom metadata: ", why.as_str(), "");
                proof {
                    reveal_strlit("");
                    assert(r@ =~= "Invalid custom metadata: "@ + why@);
                }
                r
            },
            StorageError::BucketNotFound(bucket) => sentence(
                "Bucket '",
                bucket.as_str(),
                "' not found",
            ),
            StorageError::ObjectNotFound { key, bucket } => long_sentence(
                "Object '",
                key.as_str(),
                "' not found in bucket '",
                bucket.as_str(),
                "'",
            ),
            StorageError::MetadataNotFound => "Object metadata not found".to_string(),
            StorageError::VersionNotFound => "Object version not found".to_string(),
            StorageError::BucketAlreadyExists(bucket) => sentence(
                "Bucket '",
                bucket.as_str(),
                "' already exists",
            ),
            StorageError::ObjectAlreadyExists(key) => sentence(
                "Object '",
                key.as_str(),
                "' already exists with same content",
            ),
            StorageError::NotEmpty(bucket) => sentence(
                "Cannot delete non-empty bucket '",
                bucket.as_str(),
                "'",
            ),
            StorageError::DuplicateContent { key, etag } => long_sentence(
                "Content already exists with key '",
                key.as_str(),
                "' (ETag: ",
                etag.as_str(),
                "). Use different content or enable deduplication.",
            ),
            StorageError::HasReferences { key, count } => {
                let number = decimal_text(*count as u64);
                long_sentence(
                    "Cannot delete object '",
                    key.as_str(),
                    "' because it has ",
                    number.as_str(),
                    " reference(s). Delete all references first.",
                )
            },
            StorageError::PreconditionFailed { expected, found } => long_sentence(
                "ETag precondition failed: expected '",
                expected.as_str(),
                "', got '",
                found.as_str(),
                "'",
            ),
            StorageError::DanglingReference(key) => sentence(
                "Data holder for object '",
                key.as_str(),
                "' not found",
            ),
            StorageError::DataMissing => "Object data not found".to_string(),
            StorageError::IoFailure(why) => why.clone(),
        }
    }

    /// The HTTP status that stands for this failure.
    pub fn status(&self) -> (r: u16)
        ensures
            r == self@.kind().status_of(),
    {
        self.kind().status()
    }
}

} // verus!
