//! The state of the store as plain values, and what each elementary step does
//! to it. The store holds a registry of buckets, two indexes, and a picture of
//! the directory tree below its root; every change of that picture is written
//! down in a journal, in the order in which the tree has to follow.

use crate::layout::{
    bucket_dir_of, bucket_metadata_path_of, object_data_path_of, object_metadata_path_of,
};
use crate::listing::{listing, page};
use crate::models::{BucketView, ObjectMetadataView};
use vstd::prelude::*;

verus! {

/// What the directory of one bucket holds: the file that describes the bucket,
/// where there is one, the metadata files by object identifier, and the data
/// files by object identifier.
pub struct DirView {
    pub bucket_file: Option<BucketView>,
    pub sidecars: Map<Seq<char>, ObjectMetadataView>,
    pub data: Map<Seq<char>, Seq<u8>>,
}

impl DirView {
    /// A directory that holds nothing.
    pub open spec fn empty() -> DirView {
        DirView { bucket_file: None, sidecars: Map::empty(), data: Map::empty() }
    }
}

/// One change of the directory tree.
pub enum DiskOpView {
    /// Write the description of a bucket, making its directories as needed.
    WriteBucket { path: Seq<char>, bucket: BucketView },
    /// Write the metadata of an object, making its directories as needed.
    WriteSidecar { path: Seq<char>, metadata: ObjectMetadataView },
    /// Write the bytes of an object, making its directories as needed.
    WriteData { path: Seq<char>, data: Seq<u8> },
    /// Remove one file.
    RemoveFile { path: Seq<char> },
    /// Remove a directory with all that is below it.
    RemoveDirAll { path: Seq<char> },
}

/// The first occurrence of `id` taken out of `ids`.
pub open spec fn without_first(ids: Seq<Seq<char>>, id: Seq<char>) -> Seq<Seq<char>>
    decreases ids.len(),
{
    if ids.len() == 0 {
        ids
    } else if ids[0] == id {
        ids.drop_first()
    } else {
        seq![ids[0]] + without_first(ids.drop_first(), id)
    }
}

/// The state of the store.
pub struct StoreView {
    /// The root of the directory tree.
    pub data_dir: Seq<char>,
    /// The registered buckets by name.
    pub buckets: Map<Seq<char>, BucketView>,
    /// For each bucket that holds objects, the identifier of each key.
    pub object_index: Map<Seq<char>, Map<Seq<char>, Seq<char>>>,
    /// For each bucket that holds objects, the identifiers of the objects
    /// with each entity tag.
    pub etag_index: Map<Seq<char>, Map<Seq<char>, Seq<Seq<char>>>>,
    /// The directories of the tree by bucket name.
    pub disk: Map<Seq<char>, DirView>,
    /// The changes of the tree that have not been handed out yet.
    pub journal: Seq<DiskOpView>,
}

impl StoreView {
    /// A store without buckets over an empty tree.
    pub open spec fn empty(data_dir: Seq<char>) -> StoreView {
        StoreView {
            data_dir,
            buckets: Map::empty(),
            object_index: Map::empty(),
            etag_index: Map::empty(),
            disk: Map::empty(),
            journal: Seq::empty(),
        }
    }

    /// The directory of `bucket`; the empty one where the tree has none.
    pub open spec fn dir(self, bucket: Seq<char>) -> DirView {
        if self.disk.contains_key(bucket) {
            self.disk[bucket]
        } else {
            DirView::empty()
        }
    }

    /// The metadata files of `bucket`.
    pub open spec fn sidecars(self, bucket: Seq<char>) -> Map<Seq<char>, ObjectMetadataView> {
        self.dir(bucket).sidecars
    }

    /// The data files of `bucket`.
    pub open spec fn blobs(self, bucket: Seq<char>) -> Map<Seq<char>, Seq<u8>> {
        self.dir(bucket).data
    }

    /// The key index of `bucket`.
    pub open spec fn keys(self, bucket: Seq<char>) -> Map<Seq<char>, Seq<char>> {
        if self.object_index.contains_key(bucket) {
            self.object_index[bucket]
        } else {
            Map::empty()
        }
    }

    /// The entity-tag index of `bucket`.
    pub open spec fn etags(self, bucket: Seq<char>) -> Map<Seq<char>, Seq<Seq<char>>> {
        if self.etag_index.contains_key(bucket) {
            self.etag_index[bucket]
        } else {
            Map::empty()
        }
    }

    /// The identifiers indexed under `etag` in `bucket`.
    pub open spec fn ids_with_etag(self, bucket: Seq<char>, etag: Seq<char>) -> Seq<Seq<char>> {
        if self.etags(bucket).contains_key(etag) {
            self.etags(bucket)[etag]
        } else {
            Seq::empty()
        }
    }

    /// The tree with `dir` in the place of the directory of `bucket`, and
    /// `op` written down.
    pub open spec fn with_dir(self, bucket: Seq<char>, dir: DirView, op: DiskOpView) -> StoreView {
        StoreView {
            disk: self.disk.insert(bucket, dir),
            journal: self.journal.push(op),
            ..self
        }
    }

    /// The description of a bucket is written into its directory.
    pub open spec fn save_bucket_metadata(self, bucket: BucketView) -> StoreView {
        self.with_dir(
            bucket.name,
            DirView { bucket_file: Some(bucket), ..self.dir(bucket.name) },
            DiskOpView::WriteBucket {
                path: bucket_metadata_path_of(self.data_dir, bucket.name),
                bucket,
            },
        )
    }

    /// The directory of a bucket is removed with all it holds. Nothing
    /// happens where the tree has no such directory.
    pub open spec fn delete_bucket_directory(self, bucket: Seq<char>) -> StoreView {
        if self.disk.contains_key(bucket) {
            StoreView {
                disk: self.disk.remove(bucket),
                journal: self.journal.push(
                    DiskOpView::RemoveDirAll { path: bucket_dir_of(self.data_dir, bucket) },
                ),
                ..self
            }
        } else {
            self
        }
    }

    /// The metadata of the object `id` is written.
    pub open spec fn save_object_metadata(
        self,
        bucket: Seq<char>,
        id: Seq<char>,
        metadata: ObjectMetadataView,
    ) -> StoreView {
        self.with_dir(
            bucket,
            DirView { sidecars: self.sidecars(bucket).insert(id, metadata), ..self.dir(bucket) },
            DiskOpView::WriteSidecar {
                path: object_metadata_path_of(self.data_dir, bucket, id),
                metadata,
            },
        )
    }

    /// The metadata of the object `id` is removed. Nothing happens where
    /// there is none.
    pub open spec fn delete_object_metadata(self, bucket: Seq<char>, id: Seq<char>) -> StoreView {
        if self.sidecars(bucket).contains_key(id) {
            self.with_dir(
                bucket,
                DirView { sidecars: self.sidecars(bucket).remove(id), ..self.dir(bucket) },
                DiskOpView::RemoveFile { path: object_metadata_path_of(self.data_dir, bucket, id) },
            )
        } else {
            self
        }
    }

    /// The bytes of the object `id` are written.
    pub open spec fn write_object_data(
        self,
        bucket: Seq<char>,
        id: Seq<char>,
        data: Seq<u8>,
    ) -> StoreView {
        self.with_dir(
            bucket,
            DirView { data: self.blobs(bucket).insert(id, data), ..self.dir(bucket) },
            DiskOpView::WriteData { path: object_data_path_of(self.data_dir, bucket, id), data },
        )
    }

    /// The bytes of the object `id` are removed. Nothing happens where there
    /// are none.
    pub open spec fn delete_object_data(self, bucket: Seq<char>, id: Seq<char>) -> StoreView {
        if self.blobs(bucket).contains_key(id) {
            self.with_dir(
                bucket,
                DirView { data: self.blobs(bucket).remove(id), ..self.dir(bucket) },
                DiskOpView::RemoveFile { path: object_data_path_of(self.data_dir, bucket, id) },
            )
        } else {
            self
        }
    }

    /// A bucket is entered into the registry under its name.
    pub open spec fn register_bucket(self, bucket: BucketView) -> StoreView {
        StoreView { buckets: self.buckets.insert(bucket.name, bucket), ..self }
    }

    /// A bucket is taken out of the registry.
    pub open spec fn unregister_bucket(self, bucket: Seq<char>) -> StoreView {
        StoreView { buckets: self.buckets.remove(bucket), ..self }
    }

    /// `key` is indexed under `id`.
    pub open spec fn add_object_to_index(
        self,
        bucket: Seq<char>,
        key: Seq<char>,
        id: Seq<char>,
    ) -> StoreView {
        StoreView {
            object_index: self.object_index.insert(bucket, self.keys(bucket).insert(key, id)),
            ..self
        }
    }

    /// `key` is taken out of the index, and with the last key of a bucket the
    /// bucket's entry.
    pub open spec fn remove_object_from_index(self, bucket: Seq<char>, key: Seq<char>) -> StoreView {
        if self.object_index.contains_key(bucket) {
            let rest = self.object_index[bucket].remove(key);
            StoreView {
                object_index: if rest == Map::<Seq<char>, Seq<char>>::empty() {
                    self.object_index.remove(bucket)
                } else {
                    self.object_index.insert(bucket, rest)
                },
                ..self
            }
        } else {
            self
        }
    }

    /// `id` is added to the objects indexed under `etag`.
    pub open spec fn add_etag_to_index(
        self,
        bucket: Seq<char>,
        etag: Seq<char>,
        id: Seq<char>,
    ) -> StoreView {
        StoreView {
            etag_index: self.etag_index.insert(
                bucket,
                self.etags(bucket).insert(etag, self.ids_with_etag(bucket, etag).push(id)),
            ),
            ..self
        }
    }

    /// One occurrence of `id` is taken out of the objects indexed under
    /// `etag`; with the last of them the entity tag's entry goes, and with
    /// the last entity tag of a bucket the bucket's entry.
    pub open spec fn remove_etag_from_index(
        self,
        bucket: Seq<char>,
        etag: Seq<char>,
        id: Seq<char>,
    ) -> StoreView {
        if self.etag_index.contains_key(bucket) {
            let tags = self.etag_index[bucket];
            let rest = if tags.contains_key(etag) {
                let ids = without_first(tags[etag], id);
                if ids.len() == 0 {
                    tags.remove(etag)
                } else {
                    tags.insert(etag, ids)
                }
            } else {
                tags
            };
            StoreView {
                etag_index: if rest == Map::<Seq<char>, Seq<Seq<char>>>::empty() {
                    self.etag_index.remove(bucket)
                } else {
                    self.etag_index.insert(bucket, rest)
                },
                ..self
            }
        } else {
            self
        }
    }

    /// The journal is handed out and starts anew.
    pub open spec fn without_journal(self) -> StoreView {
        StoreView { journal: Seq::empty(), ..self }
    }

    /// The identifiers of the metadata files of `bucket`, in the order of
    /// their file names.
    pub open spec fn sidecar_listing(self, bucket: Seq<char>) -> Seq<Seq<char>> {
        listing(self.sidecars(bucket).dom())
    }

    /// The metadata that the files `ids` of `bucket` hold, in order.
    pub open spec fn metadata_at(self, bucket: Seq<char>, ids: Seq<Seq<char>>) -> Seq<
        ObjectMetadataView,
    > {
        ids.map_values(|id: Seq<char>| self.sidecars(bucket)[id])
    }

    /// A page of the metadata of `bucket`, in the order of the file names:
    /// what follows the file named `marker`, where one is given, and of that
    /// the first `max_keys` at most, where a limit is given.
    pub open spec fn list_object_metadata_with_pagination(
        self,
        bucket: Seq<char>,
        max_keys: Option<usize>,
        marker: Option<Seq<char>>,
    ) -> Seq<ObjectMetadataView> {
        self.metadata_at(bucket, page(self.sidecar_listing(bucket), max_keys, marker))
    }

    /// All metadata of `bucket`, in the order of the file names.
    pub open spec fn list_object_metadata(self, bucket: Seq<char>) -> Seq<ObjectMetadataView> {
        self.metadata_at(bucket, self.sidecar_listing(bucket))
    }

    /// How many keys of `bucket` are indexed.
    pub open spec fn object_count(self, bucket: Seq<char>) -> nat {
        self.keys(bucket).len()
    }
}

} // verus!
