//! What each elementary step does to the parts of the state that belong to
//! one bucket: its metadata files, its data files, its key index and its
//! entity-tag index. Every step touches the parts of one bucket only.

use crate::models::{BucketView, ObjectMetadataView};
use crate::state::{without_first, StoreView};
use vstd::prelude::*;

verus! {

/// An entity-tag index with `id` added under `etag`.
pub open spec fn tagged(
    tags: Map<Seq<char>, Seq<Seq<char>>>,
    etag: Seq<char>,
    id: Seq<char>,
) -> Map<Seq<char>, Seq<Seq<char>>> {
    tags.insert(
        etag,
        (if tags.contains_key(etag) {
            tags[etag]
        } else {
            Seq::empty()
        }).push(id),
    )
}

/// An entity-tag index with one occurrence of `id` taken out from under
/// `etag`, and the entry of `etag` dropped where nothing is left under it.
pub open spec fn untagged(
    tags: Map<Seq<char>, Seq<Seq<char>>>,
    etag: Seq<char>,
    id: Seq<char>,
) -> Map<Seq<char>, Seq<Seq<char>>> {
    if tags.contains_key(etag) {
        let ids = without_first(tags[etag], id);
        if ids.len() == 0 {
            tags.remove(etag)
        } else {
            tags.insert(etag, ids)
        }
    } else {
        tags
    }
}

impl StoreView {
    /// The two indexes hold no bucket without entries.
    pub open spec fn indexes_trimmed(self) -> bool {
        &&& forall|b: Seq<char>| #[trigger]
            self.object_index.contains_key(b) ==> self.object_index[b] != Map::<
                Seq<char>,
                Seq<char>,
            >::empty()
        &&& forall|b: Seq<char>| #[trigger]
            self.etag_index.contains_key(b) ==> self.etag_index[b] != Map::<
                Seq<char>,
                Seq<Seq<char>>,
            >::empty()
    }

    /// `other` differs from `self` at most in the directory of `bucket` and
    /// in the journal.
    pub open spec fn same_but_dir(self, other: StoreView, bucket: Seq<char>) -> bool {
        &&& other.data_dir == self.data_dir
        &&& other.buckets == self.buckets
        &&& other.object_index == self.object_index
        &&& other.etag_index == self.etag_index
        &&& forall|c: Seq<char>| c != bucket ==> #[trigger] other.dir(c) == self.dir(c)
        &&& forall|c: Seq<char>|
            c != bucket ==> (#[trigger] other.disk.contains_key(c) == self.disk.contains_key(c))
    }

    /// `other` differs from `self` at most in the indexes of `bucket`.
    pub open spec fn same_but_index(self, other: StoreView, bucket: Seq<char>) -> bool {
        &&& other.data_dir == self.data_dir
        &&& other.buckets == self.buckets
        &&& other.disk == self.disk
        &&& other.journal == self.journal
        &&& forall|c: Seq<char>| c != bucket ==> #[trigger] other.keys(c) == self.keys(c)
        &&& forall|c: Seq<char>| c != bucket ==> #[trigger] other.etags(c) == self.etags(c)
        &&& self.indexes_trimmed() ==> other.indexes_trimmed()
    }
}

/// Writing metadata puts it among the metadata files of its bucket.
pub proof fn lemma_save_object_metadata(
    s: StoreView,
    bucket: Seq<char>,
    id: Seq<char>,
    metadata: ObjectMetadataView,
)
    ensures
        s.same_but_dir(s.save_object_metadata(bucket, id, metadata), bucket),
        s.save_object_metadata(bucket, id, metadata).sidecars(bucket) == s.sidecars(bucket).insert(
            id,
            metadata,
        ),
        s.save_object_metadata(bucket, id, metadata).blobs(bucket) == s.blobs(bucket),
        s.save_object_metadata(bucket, id, metadata).dir(bucket).bucket_file == s.dir(
            bucket,
        ).bucket_file,
        s.save_object_metadata(bucket, id, metadata).disk.contains_key(bucket),
{
}

/// Removing metadata takes it out of the metadata files of its bucket.
pub proof fn lemma_delete_object_metadata(s: StoreView, bucket: Seq<char>, id: Seq<char>)
    ensures
        s.same_but_dir(s.delete_object_metadata(bucket, id), bucket),
        s.delete_object_metadata(bucket, id).sidecars(bucket) == s.sidecars(bucket).remove(id),
        s.delete_object_metadata(bucket, id).blobs(bucket) == s.blobs(bucket),
        s.delete_object_metadata(bucket, id).dir(bucket).bucket_file == s.dir(bucket).bucket_file,
        s.delete_object_metadata(bucket, id).disk.contains_key(bucket) == s.disk.contains_key(
            bucket,
        ),
{
    let t = s.delete_object_metadata(bucket, id);
    assert(t.sidecars(bucket) =~= s.sidecars(bucket).remove(id));
}

/// Writing bytes puts them among the data files of their bucket.
pub proof fn lemma_write_object_data(s: StoreView, bucket: Seq<char>, id: Seq<char>, data: Seq<u8>)
    ensures
        s.same_but_dir(s.write_object_data(bucket, id, data), bucket),
        s.write_object_data(bucket, id, data).blobs(bucket) == s.blobs(bucket).insert(id, data),
        s.write_object_data(bucket, id, data).sidecars(bucket) == s.sidecars(bucket),
        s.write_object_data(bucket, id, data).dir(bucket).bucket_file == s.dir(bucket).bucket_file,
        s.write_object_data(bucket, id, data).disk.contains_key(bucket),
{
}

/// Removing bytes takes them out of the data files of their bucket.
pub proof fn lemma_delete_object_data(s: StoreView, bucket: Seq<char>, id: Seq<char>)
    ensures
        s.same_but_dir(s.delete_object_data(bucket, id), bucket),
        s.delete_object_data(bucket, id).blobs(bucket) == s.blobs(bucket).remove(id),
        s.delete_object_data(bucket, id).sidecars(bucket) == s.sidecars(bucket),
        s.delete_object_data(bucket, id).dir(bucket).bucket_file == s.dir(bucket).bucket_file,
        s.delete_object_data(bucket, id).disk.contains_key(bucket) == s.disk.contains_key(bucket),
{
    let t = s.delete_object_data(bucket, id);
    assert(t.blobs(bucket) =~= s.blobs(bucket).remove(id));
}

/// Indexing a key enters it into the key index of its bucket.
pub proof fn lemma_add_object_to_index(s: StoreView, bucket: Seq<char>, key: Seq<char>, id: Seq<char>)
    ensures
        s.same_but_index(s.add_object_to_index(bucket, key, id), bucket),
        s.add_object_to_index(bucket, key, id).keys(bucket) == s.keys(bucket).insert(key, id),
        s.add_object_to_index(bucket, key, id).etag_index == s.etag_index,
{
    let t = s.add_object_to_index(bucket, key, id);
    assert(t.keys(bucket).contains_key(key));
}

/// Taking a key out of the index takes it out of the key index of its
/// bucket.
pub proof fn lemma_remove_object_from_index(s: StoreView, bucket: Seq<char>, key: Seq<char>)
    ensures
        s.same_but_index(s.remove_object_from_index(bucket, key), bucket),
        s.remove_object_from_index(bucket, key).keys(bucket) == s.keys(bucket).remove(key),
        s.remove_object_from_index(bucket, key).etag_index == s.etag_index,
{
    let t = s.remove_object_from_index(bucket, key);
    assert(t.keys(bucket) =~= s.keys(bucket).remove(key));
}

/// Indexing an object under an entity tag adds it to those under the tag.
pub proof fn lemma_add_etag_to_index(s: StoreView, bucket: Seq<char>, etag: Seq<char>, id: Seq<char>)
    ensures
        s.same_but_index(s.add_etag_to_index(bucket, etag, id), bucket),
        s.add_etag_to_index(bucket, etag, id).etags(bucket) == tagged(s.etags(bucket), etag, id),
        s.add_etag_to_index(bucket, etag, id).object_index == s.object_index,
{
    let t = s.add_etag_to_index(bucket, etag, id);
    assert(t.etags(bucket).contains_key(etag));
    assert(t.etags(bucket) =~= tagged(s.etags(bucket), etag, id));
}

/// Taking an object out from under an entity tag takes one occurrence out.
pub proof fn lemma_remove_etag_from_index(
    s: StoreView,
    bucket: Seq<char>,
    etag: Seq<char>,
    id: Seq<char>,
)
    ensures
        s.same_but_index(s.remove_etag_from_index(bucket, etag, id), bucket),
        s.remove_etag_from_index(bucket, etag, id).etags(bucket) == untagged(
            s.etags(bucket),
            etag,
            id,
        ),
        s.remove_etag_from_index(bucket, etag, id).object_index == s.object_index,
{
    let t = s.remove_etag_from_index(bucket, etag, id);
    assert(t.etags(bucket) =~= untagged(s.etags(bucket), etag, id));
}

/// Writing the description of a bucket leaves its other files as they are.
pub proof fn lemma_save_bucket_metadata(s: StoreView, bucket: BucketView)
    ensures
        s.same_but_dir(s.save_bucket_metadata(bucket), bucket.name),
        s.save_bucket_metadata(bucket).sidecars(bucket.name) == s.sidecars(bucket.name),
        s.save_bucket_metadata(bucket).blobs(bucket.name) == s.blobs(bucket.name),
        s.save_bucket_metadata(bucket).dir(bucket.name).bucket_file == Some(bucket),
        s.save_bucket_metadata(bucket).disk.contains_key(bucket.name),
{
}

/// Removing the directory of a bucket leaves nothing of it.
pub proof fn lemma_delete_bucket_directory(s: StoreView, bucket: Seq<char>)
    ensures
        s.same_but_dir(s.delete_bucket_directory(bucket), bucket),
        s.delete_bucket_directory(bucket).sidecars(bucket) == Map::<
            Seq<char>,
            ObjectMetadataView,
        >::empty(),
        s.delete_bucket_directory(bucket).blobs(bucket) == Map::<Seq<char>, Seq<u8>>::empty(),
        !s.delete_bucket_directory(bucket).disk.contains_key(bucket),
{
}

} // verus!
