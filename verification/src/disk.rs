//! The picture of the directory tree that the store keeps, and the changes
//! that it writes down for whoever keeps the real tree in step.

use crate::dict::Dict;
use crate::models::{Bucket, ObjectMetadata};
use crate::state::{DirView, DiskOpView};
use vstd::prelude::*;
use vstd::string::*;

verus! {

/// What the directory of one bucket holds.
#[derive(Debug)]
pub struct BucketDir {
    /// The file that describes the bucket, where there is one.
    pub bucket_file: Option<Bucket>,
    /// The metadata files by object identifier.
    pub sidecars: Dict<ObjectMetadata>,
    /// The data files by object identifier.
    pub data: Dict<Vec<u8>>,
}

impl View for BucketDir {
    type V = DirView;

    open spec fn view(&self) -> DirView {
        DirView {
            bucket_file: self.bucket_file.deep_view(),
            sidecars: self.sidecars@,
            data: self.data@,
        }
    }
}

impl DeepView for BucketDir {
    type V = DirView;

    open spec fn deep_view(&self) -> DirView {
        self@
    }
}

impl BucketDir {
    /// A directory that holds nothing.
    pub fn new() -> (r: Self)
        ensures
            r@ == DirView::empty(),
    {
        BucketDir { bucket_file: None, sidecars: Dict::new(), data: Dict::new() }
    }
}

/// One change of the directory tree, to be carried out by whoever keeps the
/// real tree. A write makes the directories above its file as needed.
#[derive(Debug)]
pub enum DiskOp {
    /// Write the description of a bucket.
    WriteBucket { path: String, bucket: Bucket },
    /// Write the metadata of an object.
    WriteSidecar { path: String, metadata: ObjectMetadata },
    /// Write the bytes of an object.
    WriteData { path: String, data: Vec<u8> },
    /// Remove one file.
    RemoveFile { path: String },
    /// Remove a directory with all that is below it.
    RemoveDirAll { path: String },
}

impl View for DiskOp {
    type V = DiskOpView;

    open spec fn view(&self) -> DiskOpView {
        match self {
            DiskOp::WriteBucket { path, bucket } => DiskOpView::WriteBucket {
                path: path@,
                bucket: bucket@,
            },
            DiskOp::WriteSidecar { path, metadata } => DiskOpView::WriteSidecar {
                path: path@,
                metadata: metadata@,
            },
            DiskOp::WriteData { path, data } => DiskOpView::WriteData { path: path@, data: data@ },
            DiskOp::RemoveFile { path } => DiskOpView::RemoveFile { path: path@ },
            DiskOp::RemoveDirAll { path } => DiskOpView::RemoveDirAll { path: path@ },
        }
    }
}

impl DeepView for DiskOp {
    type V = DiskOpView;

    open spec fn deep_view(&self) -> DiskOpView {
        self@
    }
}

/// A copy of `bytes`.
pub fn copy_bytes(bytes: &Vec<u8>) -> (r: Vec<u8>)
    ensures
        r@ == bytes@,
{
    let mut out: Vec<u8> = Vec::with_capacity(bytes.len());
    let mut i: usize = 0;
    while i < bytes.len()
        invariant
            i <= bytes.len(),
            out@ == bytes@.take(i as int),
        decreases bytes.len() - i,
    {
        out.push(bytes[i]);
        proof {
            assert(bytes@.take(i + 1) == bytes@.take(i as int).push(bytes@[i as int]));
        }
        i += 1;
    }
    proof {
        assert(bytes@.take(i as int) == bytes@);
    }
    out
}

/// The view of a byte vector taken element by element is the vector's view.
pub proof fn lemma_bytes_deep_view(bytes: Vec<u8>)
    ensures
        bytes.deep_view() == bytes@,
{
    assert(bytes.deep_view() =~= bytes@);
}

} // verus!
