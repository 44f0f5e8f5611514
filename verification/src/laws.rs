//! What holds of the store: when its indexes and its directory tree agree,
//! that every operation of the services keeps them in agreement, and what the
//! operations then owe each other.

use crate::consistency::{
    bucket_fits, lemma_etags_fit_change, lemma_etags_fit_insert, lemma_etags_fit_remove,
    lemma_files_fit_change, lemma_files_fit_insert_holder, lemma_files_fit_insert_reference,
    lemma_files_fit_remove_holder, lemma_files_fit_remove_reference, lemma_keys_fit_change,
    lemma_keys_fit_insert, lemma_keys_fit_remove, referrers,
};
use crate::effects::{
    lemma_add_etag_to_index, lemma_add_object_to_index, lemma_delete_bucket_directory,
    lemma_delete_object_data, lemma_delete_object_metadata, lemma_remove_etag_from_index,
    lemma_remove_object_from_index, lemma_save_bucket_metadata, lemma_save_object_metadata,
    lemma_write_object_data, tagged, untagged,
};
use crate::error::Failure;
use crate::layout::object_id_of;
use crate::listing::{lemma_ascending_distinct, lemma_listing_exists, listing};
use crate::restart::{
    built_etag_index, built_object_index, etag_index_of, ids_tagged, is_system_name, key_index_of,
    loaded_buckets,
};
use crate::models::{BucketView, ObjectMetadataView, Timestamp};
use crate::rules::{counted, effective_content_type, new_metadata, touched, updated, Holder};
use crate::services::DeduplicationMode;
use crate::state::StoreView;
use crate::utils::{etag_of, valid_bucket_name, valid_object_key};
use vstd::prelude::*;

verus! {

impl StoreView {
    /// The parts of `bucket` agree.
    pub open spec fn bucket_consistent(self, bucket: Seq<char>) -> bool {
        bucket_fits(
            bucket,
            self.sidecars(bucket),
            self.blobs(bucket),
            self.keys(bucket),
            self.etags(bucket),
        )
    }

    /// The store agrees with itself: the registered buckets are those that
    /// have a directory, each under its own name, which is a bucket name, and
    /// described in its directory as it is registered; the parts of every
    /// bucket agree; and the indexes hold no bucket without entries.
    pub open spec fn consistent(self) -> bool {
        &&& forall|b: Seq<char>| #[trigger]
            self.disk.contains_key(b) <==> self.buckets.contains_key(b)
        &&& forall|b: Seq<char>| #[trigger]
            self.buckets.contains_key(b) ==> valid_bucket_name(b) && self.buckets[b].name == b
                && self.dir(b).bucket_file == Some(self.buckets[b])
        &&& forall|b: Seq<char>| #[trigger] self.bucket_consistent(b)
        &&& self.indexes_trimmed()
    }

    /// `other` differs from `self` at most in the parts of `bucket` and in
    /// the journal, and `bucket` has its directory in both or in neither.
    pub open spec fn confined(self, other: StoreView, bucket: Seq<char>) -> bool {
        &&& other.data_dir == self.data_dir
        &&& other.buckets == self.buckets
        &&& other.dir(bucket).bucket_file == self.dir(bucket).bucket_file
        &&& forall|c: Seq<char>| c != bucket ==> #[trigger] other.dir(c) == self.dir(c)
        &&& forall|c: Seq<char>| #[trigger]
            other.disk.contains_key(c) == self.disk.contains_key(c)
        &&& forall|c: Seq<char>| c != bucket ==> #[trigger] other.keys(c) == self.keys(c)
        &&& forall|c: Seq<char>| c != bucket ==> #[trigger] other.etags(c) == self.etags(c)
        &&& self.indexes_trimmed() ==> other.indexes_trimmed()
    }
}

/// A store without buckets over an empty tree agrees with itself.
pub proof fn lemma_empty_consistent(data_dir: Seq<char>)
    ensures
        StoreView::empty(data_dir).consistent(),
{
    let s = StoreView::empty(data_dir);
    assert forall|b: Seq<char>| #[trigger] s.bucket_consistent(b) by {
        assert(s.keys(b).dom() =~= Set::<Seq<char>>::empty());
        assert(s.sidecars(b).dom() =~= Set::<Seq<char>>::empty());
    }
}

/// Where the parts of one bucket change and agree afterwards, the store
/// still agrees with itself.
pub proof fn lemma_confined_consistent(s: StoreView, t: StoreView, bucket: Seq<char>)
    requires
        s.consistent(),
        s.confined(t, bucket),
        t.bucket_consistent(bucket),
    ensures
        t.consistent(),
{
    assert forall|b: Seq<char>| #[trigger] t.bucket_consistent(b) by {
        if b != bucket {
            assert(s.bucket_consistent(b));
            assert(t.dir(b) == s.dir(b));
            assert(t.keys(b) == s.keys(b));
            assert(t.etags(b) == s.etags(b));
        }
    }
    assert forall|b: Seq<char>| #[trigger]
        t.disk.contains_key(b) <==> t.buckets.contains_key(b) by {
        assert(s.disk.contains_key(b) <==> s.buckets.contains_key(b));
    }
    assert forall|b: Seq<char>| #[trigger] t.buckets.contains_key(b) implies valid_bucket_name(b)
        && t.buckets[b].name == b && t.dir(b).bucket_file == Some(t.buckets[b]) by {
        assert(s.buckets.contains_key(b));
        if b != bucket {
            assert(t.dir(b) == s.dir(b));
        }
    }
}

/// What removing an object does in a store that agrees with itself: it is
/// refused exactly where the object holds its own bytes and references rely
/// on it; otherwise the object leaves the metadata files and both indexes, a
/// reference's data holder counts one reference less, an object of its own
/// loses its bytes, and the store still agrees with itself.
pub proof fn lemma_remove_object(s: StoreView, bucket: Seq<char>, id: Seq<char>)
    requires
        s.consistent(),
        s.sidecars(bucket).contains_key(id),
        s.buckets.contains_key(bucket),
    ensures
        ({
            let m = s.sidecars(bucket)[id];
            let (t, r) = s.remove_object(bucket, m.key, id, m);
            &&& r is Err <==> m.data_holder_id is None && m.reference_count > 0
            &&& r is Err ==> t == s && r == Err::<(), Failure>(
                Failure::HasReferences { key: m.key, count: m.reference_count },
            )
            &&& r is Ok ==> {
                &&& t.consistent()
                &&& s.confined(t, bucket)
                &&& t.keys(bucket) == s.keys(bucket).remove(m.key)
                &&& t.etags(bucket) == untagged(s.etags(bucket), m.etag, id)
                &&& m.data_holder_id is None ==> t.sidecars(bucket) == s.sidecars(bucket).remove(
                    id,
                ) && t.blobs(bucket) == s.blobs(bucket).remove(id)
                &&& m.data_holder_id matches Some(h) ==> {
                    &&& h != id
                    &&& s.sidecars(bucket).contains_key(h)
                    &&& s.sidecars(bucket)[h].reference_count > 0
                    &&& t.sidecars(bucket) == s.sidecars(bucket).remove(id).insert(
                        h,
                        counted(
                            s.sidecars(bucket)[h],
                            (s.sidecars(bucket)[h].reference_count - 1) as u32,
                        ),
                    )
                    &&& t.blobs(bucket) == s.blobs(bucket)
                }
            }
        }),
{
    let sc = s.sidecars(bucket);
    let bl = s.blobs(bucket);
    let ks = s.keys(bucket);
    let es = s.etags(bucket);
    let m = sc[id];
    assert(s.bucket_consistent(bucket));
    assert(s.disk.contains_key(bucket));
    let s1 = s.remove_object_from_index(bucket, m.key);
    lemma_remove_object_from_index(s, bucket, m.key);
    let s2 = s1.remove_etag_from_index(bucket, m.etag, id);
    lemma_remove_etag_from_index(s1, bucket, m.etag, id);
    assert(s2.keys(bucket) == ks.remove(m.key));
    assert(s2.etags(bucket) == untagged(es, m.etag, id));
    lemma_keys_fit_remove(sc, ks, id);
    lemma_etags_fit_remove(sc, es, id);
    match m.data_holder_id {
        Some(h) => {
            lemma_files_fit_remove_reference(bucket, sc, bl, id);
            let s3 = s2.delete_object_metadata(bucket, id);
            lemma_delete_object_metadata(s2, bucket, id);
            assert(s3.sidecars(bucket) == sc.remove(id));
            let held = counted(sc[h], (sc[h].reference_count - 1) as u32);
            let t = s3.release(bucket, h);
            assert(s3.sidecars(bucket).contains_key(h));
            assert(t == s3.save_object_metadata(bucket, h, held));
            lemma_save_object_metadata(s3, bucket, h, held);
            let sc2 = sc.remove(id).insert(h, held);
            assert(t.sidecars(bucket) == sc2);
            assert(t.blobs(bucket) == bl);
            assert(t.keys(bucket) == ks.remove(m.key));
            assert(t.etags(bucket) == untagged(es, m.etag, id));
            lemma_keys_fit_change(sc.remove(id), ks.remove(m.key), h, held);
            lemma_etags_fit_change(sc.remove(id), untagged(es, m.etag, id), h, held);
            assert(t.bucket_consistent(bucket));
            lemma_confined_by_index(s, s1, bucket);
            lemma_confined_by_index(s1, s2, bucket);
            lemma_confined_by_dir(s2, s3, bucket);
            lemma_confined_by_dir(s3, t, bucket);
            lemma_confined_chain(s, s1, s2, bucket);
            lemma_confined_chain(s, s2, s3, bucket);
            lemma_confined_chain(s, s3, t, bucket);
            lemma_confined_consistent(s, t, bucket);
        },
        None => {
            if m.reference_count > 0 {
            } else {
                lemma_files_fit_remove_holder(bucket, sc, bl, id);
                let s3 = s2.delete_object_data(bucket, id);
                lemma_delete_object_data(s2, bucket, id);
                let t = s3.delete_object_metadata(bucket, id);
                lemma_delete_object_metadata(s3, bucket, id);
                assert(t.sidecars(bucket) == sc.remove(id));
                assert(t.blobs(bucket) == bl.remove(id));
                assert(t.keys(bucket) == ks.remove(m.key));
                assert(t.etags(bucket) == untagged(es, m.etag, id));
                assert(t.bucket_consistent(bucket));
                lemma_confined_by_index(s, s1, bucket);
                lemma_confined_by_index(s1, s2, bucket);
                lemma_confined_by_dir(s2, s3, bucket);
                lemma_confined_by_dir(s3, t, bucket);
                lemma_confined_chain(s, s1, s2, bucket);
                lemma_confined_chain(s, s2, s3, bucket);
                lemma_confined_chain(s, s3, t, bucket);
                lemma_confined_consistent(s, t, bucket);
            }
        },
    }
}

/// A step that changes the directory of one bucket, and leaves the bucket
/// with or without a directory as it was, is confined to that bucket.
pub proof fn lemma_confined_by_dir(s: StoreView, t: StoreView, bucket: Seq<char>)
    requires
        s.same_but_dir(t, bucket),
        t.disk.contains_key(bucket) == s.disk.contains_key(bucket),
        t.dir(bucket).bucket_file == s.dir(bucket).bucket_file,
    ensures
        s.confined(t, bucket),
{
    assert forall|c: Seq<char>| #[trigger]
        t.disk.contains_key(c) == s.disk.contains_key(c) by {}
    assert forall|c: Seq<char>| c != bucket implies #[trigger] t.keys(c) == s.keys(c) by {}
    assert forall|c: Seq<char>| c != bucket implies #[trigger] t.etags(c) == s.etags(c) by {}
}

/// A step that changes the indexes of one bucket is confined to that bucket.
pub proof fn lemma_confined_by_index(s: StoreView, t: StoreView, bucket: Seq<char>)
    requires
        s.same_but_index(t, bucket),
    ensures
        s.confined(t, bucket),
{
    assert forall|c: Seq<char>| c != bucket implies #[trigger] t.dir(c) == s.dir(c) by {}
    assert forall|c: Seq<char>| #[trigger]
        t.disk.contains_key(c) == s.disk.contains_key(c) by {}
}

/// Steps confined to one bucket make a change confined to that bucket.
pub proof fn lemma_confined_chain(s: StoreView, t: StoreView, u: StoreView, bucket: Seq<char>)
    requires
        s.confined(t, bucket),
        t.confined(u, bucket),
    ensures
        s.confined(u, bucket),
{
    assert forall|c: Seq<char>| c != bucket implies #[trigger] u.dir(c) == s.dir(c) by {
        assert(t.dir(c) == s.dir(c));
    }
    assert forall|c: Seq<char>| #[trigger]
        u.disk.contains_key(c) == s.disk.contains_key(c) by {
        assert(t.disk.contains_key(c) == s.disk.contains_key(c));
    }
    assert forall|c: Seq<char>| c != bucket implies #[trigger] u.keys(c) == s.keys(c) by {
        assert(t.keys(c) == s.keys(c));
    }
    assert forall|c: Seq<char>| c != bucket implies #[trigger] u.etags(c) == s.etags(c) by {
        assert(t.etags(c) == s.etags(c));
    }
}

/// In a store that agrees with itself, a key whose place is free is not
/// indexed.
pub proof fn lemma_free_place_free_key(s: StoreView, bucket: Seq<char>, key: Seq<char>)
    requires
        s.consistent(),
        !s.sidecars(bucket).contains_key(object_id_of(bucket, key)),
    ensures
        !s.keys(bucket).contains_key(key),
{
    assert(s.bucket_consistent(bucket));
    if s.keys(bucket).contains_key(key) {
        let id = s.keys(bucket)[key];
        assert(s.sidecars(bucket).contains_key(id));
    }
}

/// What storing an object into a free place does in a store that agrees with
/// itself: the object enters the metadata files and both indexes; stored as
/// an object of its own, its bytes enter the data files; stored as a
/// reference, its data holder counts one reference more; and the store still
/// agrees with itself.
pub proof fn lemma_store_object(
    s: StoreView,
    bucket: Seq<char>,
    key: Seq<char>,
    data: Seq<u8>,
    m: ObjectMetadataView,
    holder: Option<Holder>,
)
    requires
        s.consistent(),
        s.buckets.contains_key(bucket),
        !s.sidecars(bucket).contains_key(object_id_of(bucket, key)),
        m.key == key,
        m.bucket_name == bucket,
        m.reference_count == 0,
        holder is None ==> m.data_holder_id is None && m.etag == etag_of(data) && m.size
            == data.len(),
        holder matches Some(h) ==> {
            &&& m.data_holder_id == Some(h.id)
            &&& s.sidecars(bucket).contains_key(h.id)
            &&& s.sidecars(bucket)[h.id].data_holder_id is None
            &&& s.sidecars(bucket)[h.id].reference_count == h.count
            &&& s.sidecars(bucket)[h.id].etag == m.etag
            &&& h.count < u32::MAX
        },
    ensures
        ({
            let id = object_id_of(bucket, key);
            let t = s.store_object(bucket, key, id, data, m, holder);
            &&& t.consistent()
            &&& s.confined(t, bucket)
            &&& t.keys(bucket) == s.keys(bucket).insert(key, id)
            &&& t.etags(bucket) == tagged(s.etags(bucket), m.etag, id)
            &&& holder is None ==> t.sidecars(bucket) == s.sidecars(bucket).insert(id, m)
                && t.blobs(bucket) == s.blobs(bucket).insert(id, data)
            &&& holder matches Some(h) ==> t.sidecars(bucket) == s.sidecars(bucket).insert(
                h.id,
                counted(s.sidecars(bucket)[h.id], (h.count + 1) as u32),
            ).insert(id, m) && t.blobs(bucket) == s.blobs(bucket)
        }),
{
    let id = object_id_of(bucket, key);
    let sc = s.sidecars(bucket);
    let bl = s.blobs(bucket);
    let ks = s.keys(bucket);
    let es = s.etags(bucket);
    assert(s.bucket_consistent(bucket));
    assert(s.disk.contains_key(bucket));
    lemma_free_place_free_key(s, bucket, key);
    let s1 = match holder {
        Some(h) => s.save_object_metadata(bucket, h.id, counted(sc[h.id], (h.count + 1) as u32)),
        None => s.write_object_data(bucket, id, data),
    };
    let sc1 = match holder {
        Some(h) => sc.insert(h.id, counted(sc[h.id], (h.count + 1) as u32)),
        None => sc,
    };
    let bl1 = match holder {
        Some(h) => bl,
        None => bl.insert(id, data),
    };
    match holder {
        Some(h) => {
            let held = counted(sc[h.id], (h.count + 1) as u32);
            lemma_save_object_metadata(s, bucket, h.id, held);
            lemma_files_fit_insert_reference(bucket, sc, bl, id, m, h.id);
            lemma_keys_fit_change(sc, ks, h.id, held);
            lemma_etags_fit_change(sc, es, h.id, held);
        },
        None => {
            lemma_write_object_data(s, bucket, id, data);
            lemma_files_fit_insert_holder(bucket, sc, bl, id, m, data);
        },
    }
    lemma_confined_by_dir(s, s1, bucket);
    assert(s1.sidecars(bucket) == sc1);
    assert(s1.blobs(bucket) == bl1);
    let s2 = s1.save_object_metadata(bucket, id, m);
    lemma_save_object_metadata(s1, bucket, id, m);
    lemma_confined_by_dir(s1, s2, bucket);
    let s3 = s2.add_object_to_index(bucket, key, id);
    lemma_add_object_to_index(s2, bucket, key, id);
    lemma_confined_by_index(s2, s3, bucket);
    let t = s3.add_etag_to_index(bucket, m.etag, id);
    lemma_add_etag_to_index(s3, bucket, m.etag, id);
    lemma_confined_by_index(s3, t, bucket);
    lemma_confined_chain(s, s1, s2, bucket);
    lemma_confined_chain(s, s2, s3, bucket);
    lemma_confined_chain(s, s3, t, bucket);
    assert(t == s.store_object(bucket, key, id, data, m, holder));
    assert(t.sidecars(bucket) == sc1.insert(id, m));
    assert(t.blobs(bucket) == bl1);
    assert(t.keys(bucket) == ks.insert(key, id));
    assert(t.etags(bucket) == tagged(es, m.etag, id));
    lemma_keys_fit_insert(sc1, ks, id, m);
    lemma_etags_fit_insert(sc1, es, id, m);
    assert(t.bucket_consistent(bucket));
    lemma_confined_consistent(s, t, bucket);
}

/// In a store that agrees with itself, the holder that a new reference is
/// given has the entity tag under which it was found.
pub proof fn lemma_best_holder_etag(
    s: StoreView,
    bucket: Seq<char>,
    etag: Seq<char>,
    key: Seq<char>,
)
    requires
        s.consistent(),
    ensures
        s.best_holder(bucket, s.ids_with_etag(bucket, etag), key) matches Some(h) ==> {
            &&& s.sidecars(bucket).contains_key(h.id)
            &&& s.sidecars(bucket)[h.id].data_holder_id is None
            &&& s.sidecars(bucket)[h.id].reference_count == h.count
            &&& s.sidecars(bucket)[h.id].etag == etag
            &&& h.count < u32::MAX
        },
{
    let ids = s.ids_with_etag(bucket, etag);
    s.lemma_best_holder(bucket, ids, key);
    assert(s.bucket_consistent(bucket));
    if let Some(h) = s.best_holder(bucket, ids, key) {
        let i = choose|i: int| 0 <= i < ids.len() && s.holder_for(bucket, ids[i], key) == Some(h);
        let c = ids[i];
        assert(s.etags(bucket).contains_key(etag));
        assert(s.sidecars(bucket).contains_key(s.etags(bucket)[etag][i]));
        assert(s.sidecars(bucket)[c].etag == etag);
    }
}

/// Metadata touched or updated stays where it is: the store still agrees
/// with itself when metadata is written again with another content type,
/// other user's metadata or another time of its last change.
pub proof fn lemma_rewrite_metadata(
    s: StoreView,
    bucket: Seq<char>,
    id: Seq<char>,
    m: ObjectMetadataView,
)
    requires
        s.consistent(),
        s.buckets.contains_key(bucket),
        s.sidecars(bucket).contains_key(id),
        m.key == s.sidecars(bucket)[id].key,
        m.bucket_name == s.sidecars(bucket)[id].bucket_name,
        m.etag == s.sidecars(bucket)[id].etag,
        m.size == s.sidecars(bucket)[id].size,
        m.data_holder_id == s.sidecars(bucket)[id].data_holder_id,
        m.reference_count == s.sidecars(bucket)[id].reference_count,
    ensures
        s.save_object_metadata(bucket, id, m).consistent(),
        s.confined(s.save_object_metadata(bucket, id, m), bucket),
        s.save_object_metadata(bucket, id, m).sidecars(bucket) == s.sidecars(bucket).insert(id, m),
        s.save_object_metadata(bucket, id, m).blobs(bucket) == s.blobs(bucket),
        s.save_object_metadata(bucket, id, m).object_index == s.object_index,
        s.save_object_metadata(bucket, id, m).etag_index == s.etag_index,
{
    let t = s.save_object_metadata(bucket, id, m);
    assert(s.bucket_consistent(bucket));
    assert(s.disk.contains_key(bucket));
    lemma_save_object_metadata(s, bucket, id, m);
    lemma_confined_by_dir(s, t, bucket);
    lemma_keys_fit_change(s.sidecars(bucket), s.keys(bucket), id, m);
    lemma_etags_fit_change(s.sidecars(bucket), s.etags(bucket), id, m);
    lemma_files_fit_change(bucket, s.sidecars(bucket), s.blobs(bucket), id, m);
    assert(t.bucket_consistent(bucket));
    lemma_confined_consistent(s, t, bucket);
}

/// A store that agrees with itself still does so after every put.
pub proof fn lemma_put_object_consistent(
    s: StoreView,
    bucket: Seq<char>,
    key: Seq<char>,
    data: Seq<u8>,
    content_type: Seq<char>,
    user_metadata: Map<Seq<char>, Seq<char>>,
    mode: DeduplicationMode,
    now: Timestamp,
)
    requires
        s.consistent(),
        data.len() <= u64::MAX,
    ensures
        s.put_object(bucket, key, data, content_type, user_metadata, mode, now).0.consistent(),
        s.confined(
            s.put_object(bucket, key, data, content_type, user_metadata, mode, now).0,
            bucket,
        ),
{
    let etag = etag_of(data);
    let id = object_id_of(bucket, key);
    let (t, r) = s.put_object(bucket, key, data, content_type, user_metadata, mode, now);
    assert(s.confined(s, bucket));
    if !valid_object_key(key) {
    } else if !s.buckets.contains_key(bucket) {
    } else if s.is_duplicate_content(bucket, key, etag) {
        let old_id = s.keys(bucket)[key];
        lemma_rewrite_metadata(
            s,
            bucket,
            old_id,
            touched(s.sidecars(bucket)[old_id], user_metadata, now),
        );
    } else {
        let others = s.find_duplicate_content_keys(bucket, etag, Some(key));
        if mode == DeduplicationMode::Reject && others.len() > 0 {
        } else {
            let (cleared, gone) = s.evict(bucket, id);
            if s.sidecars(bucket).contains_key(id) {
                lemma_remove_object(s, bucket, id);
            }
            if gone is Ok {
                assert(cleared.consistent());
                assert(s.confined(cleared, bucket));
                assert(!cleared.sidecars(bucket).contains_key(id));
                let holder = if mode == DeduplicationMode::Reference {
                    cleared.best_holder(bucket, cleared.ids_with_etag(bucket, etag), key)
                } else {
                    None
                };
                lemma_best_holder_etag(cleared, bucket, etag, key);
                let metadata = new_metadata(
                    bucket,
                    key,
                    data.len() as u64,
                    effective_content_type(content_type, key),
                    etag,
                    user_metadata,
                    now,
                    match holder {
                        Some(h) => Some(h.id),
                        None => None,
                    },
                );
                lemma_store_object(cleared, bucket, key, data, metadata, holder);
                lemma_confined_chain(s, cleared, t, bucket);
            }
        }
    }
}

/// A store that agrees with itself still does so after every put under a
/// condition, whether the condition let the put happen or not.
pub proof fn lemma_conditional_put_consistent(
    s: StoreView,
    bucket: Seq<char>,
    key: Seq<char>,
    data: Seq<u8>,
    content_type: Seq<char>,
    user_metadata: Map<Seq<char>, Seq<char>>,
    expected: Seq<char>,
    now: Timestamp,
)
    requires
        s.consistent(),
        data.len() <= u64::MAX,
    ensures
        s.put_object_if_not_exists(bucket, key, data, content_type, user_metadata, now).0.consistent(),
        s.put_object_if_etag_mismatch(
            bucket,
            key,
            data,
            content_type,
            user_metadata,
            expected,
            now,
        ).0.consistent(),
{
    lemma_put_object_consistent(
        s,
        bucket,
        key,
        data,
        content_type,
        user_metadata,
        DeduplicationMode::Allow,
        now,
    );
}

/// A store that agrees with itself still does so after every delete.
pub proof fn lemma_delete_object_consistent(s: StoreView, bucket: Seq<char>, key: Seq<char>)
    requires
        s.consistent(),
    ensures
        s.delete_object(bucket, key).0.consistent(),
        s.confined(s.delete_object(bucket, key).0, bucket),
{
    assert(s.confined(s, bucket));
    if s.get_object_metadata(bucket, key) is Ok {
        assert(s.bucket_consistent(bucket));
        let id = s.keys(bucket)[key];
        lemma_remove_object(s, bucket, id);
    }
}

/// A store that agrees with itself still does so after every update of
/// metadata.
pub proof fn lemma_update_object_metadata_consistent(
    s: StoreView,
    bucket: Seq<char>,
    key: Seq<char>,
    content_type: Option<Seq<char>>,
    user_metadata: Option<Map<Seq<char>, Seq<char>>>,
    now: Timestamp,
)
    requires
        s.consistent(),
    ensures
        s.update_object_metadata(bucket, key, content_type, user_metadata, now).0.consistent(),
{
    if let Ok(metadata) = s.get_object_metadata(bucket, key) {
        lemma_rewrite_metadata(
            s,
            bucket,
            s.keys(bucket)[key],
            updated(metadata, content_type, user_metadata, now),
        );
    }
}

/// A store that agrees with itself still does so after a bucket is created.
pub proof fn lemma_create_bucket_consistent(s: StoreView, name: Seq<char>, now: Timestamp)
    requires
        s.consistent(),
    ensures
        s.create_bucket(name, now).0.consistent(),
{
    let (t, r) = s.create_bucket(name, now);
    if r is Ok {
        let bucket = BucketView::fresh(name, now);
        let s1 = s.save_bucket_metadata(bucket);
        lemma_save_bucket_metadata(s, bucket);
        assert(!s.disk.contains_key(name));
        assert forall|b: Seq<char>| #[trigger] t.bucket_consistent(b) by {
            assert(s.bucket_consistent(b));
            if b != name {
                assert(s1.dir(b) == s.dir(b));
            }
        }
        assert forall|b: Seq<char>| #[trigger]
            t.disk.contains_key(b) <==> t.buckets.contains_key(b) by {
            assert(s.disk.contains_key(b) <==> s.buckets.contains_key(b));
            if b != name {
                assert(s1.disk.contains_key(b) == s.disk.contains_key(b));
            }
        }
        assert forall|b: Seq<char>| #[trigger] t.buckets.contains_key(b) implies valid_bucket_name(
            b,
        ) && t.buckets[b].name == b && t.dir(b).bucket_file == Some(t.buckets[b]) by {
            if b != name {
                assert(s.buckets.contains_key(b));
                assert(s1.dir(b) == s.dir(b));
            }
        }
    }
}

/// A store that agrees with itself still does so after a bucket is deleted.
pub proof fn lemma_delete_bucket_consistent(s: StoreView, name: Seq<char>)
    requires
        s.consistent(),
    ensures
        s.delete_bucket(name).0.consistent(),
{
    let (t, r) = s.delete_bucket(name);
    if r is Ok {
        let s1 = s.delete_bucket_directory(name);
        lemma_delete_bucket_directory(s, name);
        lemma_empty_bucket(s, name);
        assert forall|b: Seq<char>| #[trigger] t.bucket_consistent(b) by {
            assert(s.bucket_consistent(b));
            if b != name {
                assert(s1.dir(b) == s.dir(b));
            } else {
                assert(t.sidecars(b).dom() =~= Set::<Seq<char>>::empty());
            }
        }
        assert forall|b: Seq<char>| #[trigger]
            t.disk.contains_key(b) <==> t.buckets.contains_key(b) by {
            assert(s.disk.contains_key(b) <==> s.buckets.contains_key(b));
            if b != name {
                assert(s1.disk.contains_key(b) == s.disk.contains_key(b));
            }
        }
        assert forall|b: Seq<char>| #[trigger] t.buckets.contains_key(b) implies valid_bucket_name(
            b,
        ) && t.buckets[b].name == b && t.dir(b).bucket_file == Some(t.buckets[b]) by {
            assert(s.buckets.contains_key(b));
            assert(s1.dir(b) == s.dir(b));
        }
    }
}

/// What a store that agrees with itself guarantees of each bucket: a key is
/// indexed under the identifier of the metadata that names it, and all
/// metadata is indexed under its key; an identifier is indexed under an entity tag
/// exactly where metadata with that tag stands under it; the data holder of
/// a reference has metadata, is no reference itself and has its bytes; an
/// object that holds its own bytes counts exactly the references to it; and
/// the entity tag of such an object is the one of its bytes.
pub proof fn law_consistent_store(s: StoreView, bucket: Seq<char>)
    requires
        s.consistent(),
    ensures
        forall|key: Seq<char>| #[trigger]
            s.keys(bucket).contains_key(key) ==> s.sidecars(bucket).contains_key(
                s.keys(bucket)[key],
            ) && s.sidecars(bucket)[s.keys(bucket)[key]].key == key,
        forall|id: Seq<char>| #[trigger]
            s.sidecars(bucket).contains_key(id) ==> s.keys(bucket).contains_key(
                s.sidecars(bucket)[id].key,
            ) && s.keys(bucket)[s.sidecars(bucket)[id].key] == id,
        forall|etag: Seq<char>, id: Seq<char>|
            #[trigger] s.ids_with_etag(bucket, etag).contains(id) <==> (s.sidecars(
                bucket,
            ).contains_key(id) && s.sidecars(bucket)[id].etag == etag),
        forall|id: Seq<char>| #[trigger]
            s.sidecars(bucket).contains_key(id) ==> match s.sidecars(bucket)[id].data_holder_id {
                Some(h) => s.sidecars(bucket).contains_key(h) && s.sidecars(
                    bucket,
                )[h].data_holder_id is None && s.blobs(bucket).contains_key(h),
                None => s.blobs(bucket).contains_key(id) && etag_of(s.blobs(bucket)[id])
                    == s.sidecars(bucket)[id].etag && s.sidecars(bucket)[id].reference_count
                    == referrers(s.sidecars(bucket), id).len(),
            },
{
    assert(s.bucket_consistent(bucket));
    let sc = s.sidecars(bucket);
    let es = s.etags(bucket);
    assert forall|etag: Seq<char>, id: Seq<char>| #[trigger]
        s.ids_with_etag(bucket, etag).contains(id) <==> (sc.contains_key(id) && sc[id].etag
            == etag) by {
        if s.ids_with_etag(bucket, etag).contains(id) {
            let i = choose|i: int|
                0 <= i < s.ids_with_etag(bucket, etag).len() && s.ids_with_etag(bucket, etag)[i]
                    == id;
            assert(es.contains_key(etag));
            assert(sc.contains_key(es[etag][i]));
        }
    }
    assert forall|id: Seq<char>| #[trigger] sc.contains_key(id) implies match sc[id].data_holder_id {
        Some(h) => sc.contains_key(h) && sc[h].data_holder_id is None && s.blobs(
            bucket,
        ).contains_key(h),
        None => s.blobs(bucket).contains_key(id) && etag_of(s.blobs(bucket)[id]) == sc[id].etag
            && sc[id].reference_count == referrers(sc, id).len(),
    } by {
        if let Some(h) = sc[id].data_holder_id {
            assert(sc.contains_key(h));
        }
    }
}

/// In a store that agrees with itself, a bucket of which no key is indexed
/// has no metadata files and no entry in the entity-tag index, and a bucket
/// without metadata files has no key indexed.
pub proof fn lemma_empty_bucket(s: StoreView, bucket: Seq<char>)
    requires
        s.consistent(),
    ensures
        s.object_count(bucket) == 0 <==> s.sidecars(bucket) == Map::<
            Seq<char>,
            ObjectMetadataView,
        >::empty(),
        s.object_count(bucket) == 0 ==> s.keys(bucket) == Map::<Seq<char>, Seq<char>>::empty()
            && s.etags(bucket) == Map::<Seq<char>, Seq<Seq<char>>>::empty(),
{
    assert(s.bucket_consistent(bucket));
    let ks = s.keys(bucket);
    let sc = s.sidecars(bucket);
    let es = s.etags(bucket);
    if s.object_count(bucket) == 0 {
        ks.dom().lemma_len0_is_empty();
        assert(ks =~= Map::<Seq<char>, Seq<char>>::empty());
        assert forall|id: Seq<char>| !sc.contains_key(id) by {
            if sc.contains_key(id) {
                assert(ks.contains_key(sc[id].key));
            }
        }
        assert(sc =~= Map::<Seq<char>, ObjectMetadataView>::empty());
        assert forall|e: Seq<char>| !es.contains_key(e) by {
            if es.contains_key(e) {
                assert(sc.contains_key(es[e][0]));
            }
        }
        assert(es =~= Map::<Seq<char>, Seq<Seq<char>>>::empty());
    }
    if sc == Map::<Seq<char>, ObjectMetadataView>::empty() {
        assert forall|k: Seq<char>| !ks.contains_key(k) by {
            if ks.contains_key(k) {
                assert(sc.contains_key(ks[k]));
            }
        }
        assert(ks.dom() =~= Set::<Seq<char>>::empty());
    }
}

/// In a store that agrees with itself, every indexed key of a registered
/// bucket can be read: the bytes have the entity tag that the metadata
/// names; an object of its own gives its own bytes, whose length is the size
/// that the metadata names; a reference gives the bytes of its data holder.
pub proof fn law_get_object_sound(s: StoreView, bucket: Seq<char>, key: Seq<char>)
    requires
        s.consistent(),
        s.buckets.contains_key(bucket),
        s.keys(bucket).contains_key(key),
    ensures
        ({
            let id = s.keys(bucket)[key];
            let m = s.sidecars(bucket)[id];
            &&& id == object_id_of(bucket, key)
            &&& s.sidecars(bucket).contains_key(id)
            &&& m.key == key
            &&& s.get_object_metadata(bucket, key) == Ok::<ObjectMetadataView, Failure>(m)
            &&& s.get_object(bucket, key) matches Ok(found) && found.1 == m && etag_of(found.0)
                == m.etag
            &&& m.data_holder_id is None ==> s.get_object(bucket, key)->Ok_0.0 == s.blobs(
                bucket,
            )[id] && m.size == s.blobs(bucket)[id].len()
            &&& m.data_holder_id matches Some(h) ==> s.get_object(bucket, key)->Ok_0.0
                == s.blobs(bucket)[h] && s.sidecars(bucket).contains_key(h)
        }),
{
    assert(s.bucket_consistent(bucket));
    let id = s.keys(bucket)[key];
    let m = s.sidecars(bucket)[id];
    assert(s.sidecars(bucket).contains_key(id));
    match m.data_holder_id {
        Some(h) => {
            assert(s.sidecars(bucket).contains_key(h));
        },
        None => {},
    }
}

/// What a put that succeeds leaves behind in a store that agrees with
/// itself: the key is indexed under its identifier, the metadata there is
/// that of the object answered, and the object has the key and the entity tag
/// of the bytes. Where the key held these bytes already, only its metadata
/// was written again. A put that fails changes nothing.
pub proof fn lemma_put_object(
    s: StoreView,
    bucket: Seq<char>,
    key: Seq<char>,
    data: Seq<u8>,
    content_type: Seq<char>,
    user_metadata: Map<Seq<char>, Seq<char>>,
    mode: DeduplicationMode,
    now: Timestamp,
)
    requires
        s.consistent(),
        data.len() <= u64::MAX,
    ensures
        ({
            let (t, r) = s.put_object(bucket, key, data, content_type, user_metadata, mode, now);
            let id = object_id_of(bucket, key);
            &&& t.consistent()
            &&& s.confined(t, bucket)
            &&& r is Err ==> t == s
            &&& r matches Ok(o) ==> {
                &&& s.buckets.contains_key(bucket)
                &&& t.keys(bucket).contains_key(key)
                &&& t.keys(bucket)[key] == id
                &&& t.sidecars(bucket).contains_key(id)
                &&& t.sidecars(bucket)[id].object() == o
                &&& o.key == key
                &&& o.etag == etag_of(data)
                &&& o.last_modified == now
                &&& o.user_metadata == user_metadata
                &&& s.is_duplicate_content(bucket, key, etag_of(data)) ==> {
                    &&& t == s.save_object_metadata(
                        bucket,
                        id,
                        touched(s.sidecars(bucket)[id], user_metadata, now),
                    )
                    &&& t.sidecars(bucket) == s.sidecars(bucket).insert(
                        id,
                        touched(s.sidecars(bucket)[id], user_metadata, now),
                    )
                    &&& t.blobs(bucket) == s.blobs(bucket)
                    &&& t.object_index == s.object_index
                    &&& t.etag_index == s.etag_index
                }
                &&& !s.is_duplicate_content(bucket, key, etag_of(data)) ==> {
                    &&& o.created_at == now
                    &&& o.size == data.len()
                    &&& o.content_type == effective_content_type(content_type, key)
                    &&& s.evict(bucket, id).1 is Ok
                    &&& t.keys(bucket) == s.evict(bucket, id).0.keys(bucket).insert(key, id)
                    &&& t.etags(bucket) == tagged(
                        s.evict(bucket, id).0.etags(bucket),
                        etag_of(data),
                        id,
                    )
                    &&& t.sidecars(bucket)[id].data_holder_id is None ==> {
                        &&& t.sidecars(bucket) == s.evict(bucket, id).0.sidecars(bucket).insert(
                            id,
                            t.sidecars(bucket)[id],
                        )
                        &&& t.blobs(bucket) == s.evict(bucket, id).0.blobs(bucket).insert(id, data)
                    }
                    &&& t.sidecars(bucket)[id].data_holder_id matches Some(h) ==> {
                        &&& mode == DeduplicationMode::Reference
                        &&& s.evict(bucket, id).0.best_holder(
                            bucket,
                            s.evict(bucket, id).0.ids_with_etag(bucket, etag_of(data)),
                            key,
                        ) matches Some(best) && best.id == h && t.sidecars(bucket)
                            == s.evict(bucket, id).0.sidecars(bucket).insert(
                            h,
                            counted(
                                s.evict(bucket, id).0.sidecars(bucket)[h],
                                (best.count + 1) as u32,
                            ),
                        ).insert(id, t.sidecars(bucket)[id])
                        &&& t.blobs(bucket) == s.evict(bucket, id).0.blobs(bucket)
                    }
                }
            }
        }),
{
    let etag = etag_of(data);
    let id = object_id_of(bucket, key);
    let (t, r) = s.put_object(bucket, key, data, content_type, user_metadata, mode, now);
    lemma_put_object_consistent(s, bucket, key, data, content_type, user_metadata, mode, now);
    assert(s.bucket_consistent(bucket));
    if !valid_object_key(key) {
    } else if !s.buckets.contains_key(bucket) {
    } else if s.is_duplicate_content(bucket, key, etag) {
        let old_id = s.keys(bucket)[key];
        assert(s.sidecars(bucket).contains_key(old_id));
        assert(old_id == id);
        lemma_rewrite_metadata(
            s,
            bucket,
            old_id,
            touched(s.sidecars(bucket)[old_id], user_metadata, now),
        );
        assert(t.keys(bucket) == s.keys(bucket));
    } else {
        let others = s.find_duplicate_content_keys(bucket, etag, Some(key));
        if mode == DeduplicationMode::Reject && others.len() > 0 {
        } else {
            let (cleared, gone) = s.evict(bucket, id);
            if s.sidecars(bucket).contains_key(id) {
                lemma_remove_object(s, bucket, id);
            }
            if gone is Ok {
                let holder = if mode == DeduplicationMode::Reference {
                    cleared.best_holder(bucket, cleared.ids_with_etag(bucket, etag), key)
                } else {
                    None
                };
                lemma_best_holder_etag(cleared, bucket, etag, key);
                let metadata = new_metadata(
                    bucket,
                    key,
                    data.len() as u64,
                    effective_content_type(content_type, key),
                    etag,
                    user_metadata,
                    now,
                    match holder {
                        Some(h) => Some(h.id),
                        None => None,
                    },
                );
                lemma_store_object(cleared, bucket, key, data, metadata, holder);
                assert(t.sidecars(bucket)[id] == metadata);
            }
        }
    }
}

/// After every put that succeeds in a store that agrees with itself, the key
/// can be read: the bytes read have the entity tag of the object answered,
/// and the metadata read is that of the object answered. Where the object
/// holds its own bytes, their length is the size that the metadata names.
pub proof fn law_put_then_get(
    s: StoreView,
    bucket: Seq<char>,
    key: Seq<char>,
    data: Seq<u8>,
    content_type: Seq<char>,
    user_metadata: Map<Seq<char>, Seq<char>>,
    mode: DeduplicationMode,
    now: Timestamp,
)
    requires
        s.consistent(),
        data.len() <= u64::MAX,
        s.put_object(bucket, key, data, content_type, user_metadata, mode, now).1 is Ok,
    ensures
        ({
            let (t, r) = s.put_object(bucket, key, data, content_type, user_metadata, mode, now);
            let o = r->Ok_0;
            &&& t.get_object(bucket, key) matches Ok(found) && etag_of(found.0) == o.etag
                && found.1.object() == o
            &&& t.get_object_metadata(bucket, key) matches Ok(m) && m.object() == o
            &&& t.get_object_metadata(bucket, key)->Ok_0.data_holder_id is None
                ==> t.get_object_metadata(bucket, key)->Ok_0.size == t.get_object(
                bucket,
                key,
            )->Ok_0.0.len()
        }),
{
    let (t, r) = s.put_object(bucket, key, data, content_type, user_metadata, mode, now);
    lemma_put_object(s, bucket, key, data, content_type, user_metadata, mode, now);
    law_get_object_sound(t, bucket, key);
}

/// Putting the same bytes under the same key once more touches the metadata
/// and nothing else: the put succeeds, the time of creation stays, the time
/// of the last change is that of the second put, and no bytes are written.
pub proof fn law_put_again(
    s: StoreView,
    bucket: Seq<char>,
    key: Seq<char>,
    data: Seq<u8>,
    content_type: Seq<char>,
    user_metadata: Map<Seq<char>, Seq<char>>,
    mode: DeduplicationMode,
    now: Timestamp,
    content_type_again: Seq<char>,
    user_metadata_again: Map<Seq<char>, Seq<char>>,
    mode_again: DeduplicationMode,
    later: Timestamp,
)
    requires
        s.consistent(),
        data.len() <= u64::MAX,
        s.put_object(bucket, key, data, content_type, user_metadata, mode, now).1 is Ok,
    ensures
        ({
            let (t, first) = s.put_object(
                bucket,
                key,
                data,
                content_type,
                user_metadata,
                mode,
                now,
            );
            let (u, second) = t.put_object(
                bucket,
                key,
                data,
                content_type_again,
                user_metadata_again,
                mode_again,
                later,
            );
            let id = object_id_of(bucket, key);
            &&& second matches Ok(o) && o.created_at == first->Ok_0.created_at && o.last_modified
                == later && o.etag == first->Ok_0.etag
            &&& u.sidecars(bucket)[id].created_at == t.sidecars(bucket)[id].created_at
            &&& u.sidecars(bucket)[id].last_modified == later
            &&& u.blobs(bucket) == t.blobs(bucket)
            &&& u.object_index == t.object_index
            &&& u.etag_index == t.etag_index
            &&& u.journal == t.journal.push(
                crate::state::DiskOpView::WriteSidecar {
                    path: crate::layout::object_metadata_path_of(t.data_dir, bucket, id),
                    metadata: u.sidecars(bucket)[id],
                },
            )
        }),
{
    let (t, first) = s.put_object(bucket, key, data, content_type, user_metadata, mode, now);
    lemma_put_object(s, bucket, key, data, content_type, user_metadata, mode, now);
    assert(t.is_duplicate_content(bucket, key, etag_of(data)));
    lemma_put_object(
        t,
        bucket,
        key,
        data,
        content_type_again,
        user_metadata_again,
        mode_again,
        later,
    );
}

/// A put into a free place, then a delete of the same key, leaves both
/// indexes and the metadata files of the bucket as they were, and so the
/// number of its objects.
pub proof fn law_put_then_delete(
    s: StoreView,
    bucket: Seq<char>,
    key: Seq<char>,
    data: Seq<u8>,
    content_type: Seq<char>,
    user_metadata: Map<Seq<char>, Seq<char>>,
    mode: DeduplicationMode,
    now: Timestamp,
)
    requires
        s.consistent(),
        data.len() <= u64::MAX,
        !s.sidecars(bucket).contains_key(object_id_of(bucket, key)),
        s.put_object(bucket, key, data, content_type, user_metadata, mode, now).1 is Ok,
    ensures
        ({
            let t = s.put_object(bucket, key, data, content_type, user_metadata, mode, now).0;
            let (u, gone) = t.delete_object(bucket, key);
            &&& t.object_count(bucket) == s.object_count(bucket) + 1
            &&& gone is Ok
            &&& u.consistent()
            &&& u.object_count(bucket) == s.object_count(bucket)
            &&& u.keys(bucket) == s.keys(bucket)
            &&& !u.keys(bucket).contains_key(key)
            &&& u.etags(bucket) == s.etags(bucket)
            &&& u.sidecars(bucket) == s.sidecars(bucket)
        }),
{
    let etag = etag_of(data);
    let id = object_id_of(bucket, key);
    let (t, r) = s.put_object(bucket, key, data, content_type, user_metadata, mode, now);
    lemma_put_object(s, bucket, key, data, content_type, user_metadata, mode, now);
    lemma_free_place_free_key(s, bucket, key);
    assert(s.bucket_consistent(bucket));
    assert(!s.is_duplicate_content(bucket, key, etag));
    assert(s.evict(bucket, id).0 == s);
    law_get_object_sound(t, bucket, key);
    lemma_remove_object(t, bucket, id);
    let (u, gone) = t.delete_object(bucket, key);
    let m = t.sidecars(bucket)[id];
    assert(t.keys(bucket) == s.keys(bucket).insert(key, id));
    assert(u.keys(bucket) =~= s.keys(bucket));
    assert(t.keys(bucket).dom() =~= s.keys(bucket).dom().insert(key));
    let es = s.etags(bucket);
    assert(u.etags(bucket) =~= es) by {
        let before = if es.contains_key(etag) {
            es[etag]
        } else {
            Seq::<Seq<char>>::empty()
        };
        assert forall|i: int| 0 <= i < before.len() implies before[i] != id by {
            assert(s.sidecars(bucket).contains_key(es[etag][i]));
        }
        crate::services::storage::lemma_without_first(before.push(id), id, before.len() as int);
        assert(before.push(id).remove(before.len() as int) =~= before);
    }
    match m.data_holder_id {
        Some(h) => {
            lemma_best_holder_etag(s, bucket, etag, key);
            let sc = s.sidecars(bucket);
            assert(sc.contains_key(h));
            let c = sc[h].reference_count;
            let raised = counted(sc[h], (c + 1) as u32);
            assert(t.sidecars(bucket) == sc.insert(h, raised).insert(id, m));
            assert(h != id);
            assert(t.sidecars(bucket)[h] == raised);
            assert(counted(raised, (raised.reference_count - 1) as u32) == sc[h]);
            assert(u.sidecars(bucket) =~= sc);
        },
        None => {
            assert(u.sidecars(bucket) =~= s.sidecars(bucket));
        },
    }
}

/// A bucket that is registered can be deleted exactly where it has no
/// metadata file; where it has one, deleting it fails and changes nothing.
pub proof fn law_delete_bucket_iff_empty(s: StoreView, bucket: Seq<char>)
    requires
        s.consistent(),
        s.buckets.contains_key(bucket),
    ensures
        s.delete_bucket(bucket).1 is Err <==> exists|id: Seq<char>|
            s.sidecars(bucket).contains_key(id),
        s.delete_bucket(bucket).1 is Err ==> s.delete_bucket(bucket) == (
            s,
            Err::<(), Failure>(Failure::NotEmpty(bucket)),
        ),
        s.delete_bucket(bucket).1 is Ok ==> !s.delete_bucket(bucket).0.buckets.contains_key(
            bucket,
        ) && !s.delete_bucket(bucket).0.disk.contains_key(bucket),
{
    lemma_empty_bucket(s, bucket);
    let sc = s.sidecars(bucket);
    if exists|id: Seq<char>| sc.contains_key(id) {
        let id = choose|id: Seq<char>| sc.contains_key(id);
        assert(sc != Map::<Seq<char>, ObjectMetadataView>::empty());
    } else {
        assert(sc =~= Map::<Seq<char>, ObjectMetadataView>::empty());
    }
}

/// An object that holds its own bytes and counts references cannot be
/// deleted: the delete fails, says how many references there are, and
/// changes nothing.
pub proof fn law_delete_holder_with_references(s: StoreView, bucket: Seq<char>, key: Seq<char>)
    requires
        s.get_object_metadata(bucket, key) matches Ok(m) && m.data_holder_id is None
            && m.reference_count > 0,
    ensures
        s.delete_object(bucket, key) == (
            s,
            Err::<(), Failure>(
                Failure::HasReferences {
                    key,
                    count: s.get_object_metadata(bucket, key)->Ok_0.reference_count,
                },
            ),
        ),
{
}

/// In a store that agrees with itself, deleting a reference succeeds, and
/// its data holder then counts one reference less and has that reference no
/// longer.
pub proof fn law_delete_reference_releases(s: StoreView, bucket: Seq<char>, key: Seq<char>)
    requires
        s.consistent(),
        s.get_object_metadata(bucket, key) matches Ok(m) && m.data_holder_id is Some,
    ensures
        ({
            let h = s.get_object_metadata(bucket, key)->Ok_0.data_holder_id->Some_0;
            let (t, gone) = s.delete_object(bucket, key);
            &&& gone is Ok
            &&& t.consistent()
            &&& s.sidecars(bucket).contains_key(h)
            &&& t.sidecars(bucket).contains_key(h)
            &&& t.sidecars(bucket)[h].reference_count + 1 == s.sidecars(
                bucket,
            )[h].reference_count
            &&& referrers(t.sidecars(bucket), h) == referrers(s.sidecars(bucket), h).remove(
                s.keys(bucket)[key],
            )
            &&& !t.keys(bucket).contains_key(key)
        }),
{
    assert(s.bucket_consistent(bucket));
    let id = s.keys(bucket)[key];
    lemma_remove_object(s, bucket, id);
    let h = s.sidecars(bucket)[id].data_holder_id->Some_0;
    let t = s.delete_object(bucket, key).0;
    assert(referrers(t.sidecars(bucket), h) =~= referrers(s.sidecars(bucket), h).remove(id));
}

/// In a store that agrees with itself, an object that holds its own bytes
/// and to which no reference is left counts none, and deleting it succeeds.
pub proof fn law_delete_holder_without_references(s: StoreView, bucket: Seq<char>, key: Seq<char>)
    requires
        s.consistent(),
        s.get_object_metadata(bucket, key) matches Ok(m) && m.data_holder_id is None,
        referrers(s.sidecars(bucket), s.keys(bucket)[key]) == Set::<Seq<char>>::empty(),
    ensures
        s.get_object_metadata(bucket, key)->Ok_0.reference_count == 0,
        s.delete_object(bucket, key).1 is Ok,
        s.delete_object(bucket, key).0.consistent(),
        !s.delete_object(bucket, key).0.keys(bucket).contains_key(key),
        !s.delete_object(bucket, key).0.sidecars(bucket).contains_key(s.keys(bucket)[key]),
{
    assert(s.bucket_consistent(bucket));
    let id = s.keys(bucket)[key];
    lemma_remove_object(s, bucket, id);
}

/// Where one of the objects stands for a holder, a best holder is found.
pub proof fn lemma_best_holder_found(
    s: StoreView,
    bucket: Seq<char>,
    ids: Seq<Seq<char>>,
    key: Seq<char>,
    i: int,
)
    requires
        0 <= i < ids.len(),
        s.holder_for(bucket, ids[i], key) is Some,
    ensures
        s.best_holder(bucket, ids, key) is Some,
    decreases ids.len(),
{
    if i < ids.len() - 1 {
        assert(ids.drop_last()[i] == ids[i]);
        lemma_best_holder_found(s, bucket, ids.drop_last(), key, i);
    }
}

/// The data holder of an object: the object itself, or the holder it refers
/// to.
pub open spec fn holder_of(sc: Map<Seq<char>, ObjectMetadataView>, id: Seq<char>) -> Seq<char> {
    match sc[id].data_holder_id {
        Some(h) => h,
        None => id,
    }
}

/// Bytes put under one key and then, as a reference, under another: both
/// keys can be read, both give bytes with the entity tag of the bytes put,
/// the second key is a reference, and its data holder counts one reference
/// at least. Where the second key's data holder is that of the first, both
/// keys give the same bytes.
///
/// The law leaves out a second key that held these bytes before, two keys
/// with one identifier, and a data holder that cannot count one reference
/// more.
pub proof fn law_reference_shares_content(
    s: StoreView,
    bucket: Seq<char>,
    first_key: Seq<char>,
    second_key: Seq<char>,
    data: Seq<u8>,
    first_type: Seq<char>,
    first_metadata: Map<Seq<char>, Seq<char>>,
    first_mode: DeduplicationMode,
    first_time: Timestamp,
    second_type: Seq<char>,
    second_metadata: Map<Seq<char>, Seq<char>>,
    second_time: Timestamp,
)
    requires
        s.consistent(),
        data.len() <= u64::MAX,
        object_id_of(bucket, first_key) != object_id_of(bucket, second_key),
        s.put_object(
            bucket,
            first_key,
            data,
            first_type,
            first_metadata,
            first_mode,
            first_time,
        ).1 is Ok,
        ({
            let t = s.put_object(
                bucket,
                first_key,
                data,
                first_type,
                first_metadata,
                first_mode,
                first_time,
            ).0;
            &&& !t.is_duplicate_content(bucket, second_key, etag_of(data))
            &&& t.sidecars(bucket)[holder_of(
                t.sidecars(bucket),
                object_id_of(bucket, first_key),
            )].reference_count < u32::MAX
            &&& t.put_object(
                bucket,
                second_key,
                data,
                second_type,
                second_metadata,
                DeduplicationMode::Reference,
                second_time,
            ).1 is Ok
        }),
    ensures
        ({
            let t = s.put_object(
                bucket,
                first_key,
                data,
                first_type,
                first_metadata,
                first_mode,
                first_time,
            ).0;
            let u = t.put_object(
                bucket,
                second_key,
                data,
                second_type,
                second_metadata,
                DeduplicationMode::Reference,
                second_time,
            ).0;
            let first_id = object_id_of(bucket, first_key);
            let second_id = object_id_of(bucket, second_key);
            &&& u.consistent()
            &&& u.get_object(bucket, first_key) matches Ok(found) && etag_of(found.0) == etag_of(
                data,
            )
            &&& u.get_object(bucket, second_key) matches Ok(found) && etag_of(found.0) == etag_of(
                data,
            )
            &&& u.sidecars(bucket)[second_id].data_holder_id matches Some(h)
                && u.sidecars(bucket).contains_key(h) && u.sidecars(bucket)[h].reference_count
                >= 1 && (h == holder_of(u.sidecars(bucket), first_id) ==> u.get_object(
                bucket,
                first_key,
            )->Ok_0.0 == u.get_object(bucket, second_key)->Ok_0.0)
        }),
{
    let etag = etag_of(data);
    let id1 = object_id_of(bucket, first_key);
    let id2 = object_id_of(bucket, second_key);
    let (t, r1) = s.put_object(
        bucket,
        first_key,
        data,
        first_type,
        first_metadata,
        first_mode,
        first_time,
    );
    lemma_put_object(s, bucket, first_key, data, first_type, first_metadata, first_mode, first_time);
    let (u, r2) = t.put_object(
        bucket,
        second_key,
        data,
        second_type,
        second_metadata,
        DeduplicationMode::Reference,
        second_time,
    );
    lemma_put_object(
        t,
        bucket,
        second_key,
        data,
        second_type,
        second_metadata,
        DeduplicationMode::Reference,
        second_time,
    );
    assert(t.bucket_consistent(bucket));
    let tsc = t.sidecars(bucket);
    let (cleared, gone) = t.evict(bucket, id2);
    if tsc.contains_key(id2) {
        lemma_remove_object(t, bucket, id2);
        assert(tsc[id2].key != first_key);
    }
    let csc = cleared.sidecars(bucket);
    assert(cleared.consistent());
    assert(cleared.bucket_consistent(bucket));
    // the first object is still there, with its key, entity tag and holder
    assert(csc.contains_key(id1));
    assert(csc[id1].key == first_key);
    assert(csc[id1].etag == etag);
    assert(csc[id1].data_holder_id == tsc[id1].data_holder_id);
    let h1 = holder_of(csc, id1);
    assert(h1 == holder_of(tsc, id1));
    assert(csc.contains_key(h1));
    assert(tsc.contains_key(h1));
    assert(csc[h1].reference_count <= tsc[h1].reference_count);
    assert(csc[h1].data_holder_id is None);
    // so it stands for a holder, and a best holder is found
    let ids = cleared.ids_with_etag(bucket, etag);
    assert(cleared.etags(bucket).contains_key(etag));
    assert(ids.contains(id1));
    let i = choose|i: int| 0 <= i < ids.len() && ids[i] == id1;
    assert(first_key != second_key);
    assert(cleared.holder_for(bucket, ids[i], second_key) is Some);
    lemma_best_holder_found(cleared, bucket, ids, second_key, i);
    lemma_best_holder_etag(cleared, bucket, etag, second_key);
    let best = cleared.best_holder(bucket, ids, second_key)->Some_0;
    assert(u.sidecars(bucket)[id2].data_holder_id == Some(best.id));
    assert(cleared.keys(bucket).contains_key(first_key));
    assert(u.keys(bucket).contains_key(first_key));
    law_get_object_sound(u, bucket, first_key);
    law_get_object_sound(u, bucket, second_key);
    assert(u.sidecars(bucket)[id1].etag == etag);
}

/// Bytes that no object of the bucket has yet, put under one key and then,
/// as a reference, under another: both keys give exactly those bytes, the
/// second key refers to the first, and the first counts one reference.
pub proof fn law_reference_shares_bytes(
    s: StoreView,
    bucket: Seq<char>,
    first_key: Seq<char>,
    second_key: Seq<char>,
    data: Seq<u8>,
    first_type: Seq<char>,
    first_metadata: Map<Seq<char>, Seq<char>>,
    first_mode: DeduplicationMode,
    first_time: Timestamp,
    second_type: Seq<char>,
    second_metadata: Map<Seq<char>, Seq<char>>,
    second_time: Timestamp,
)
    requires
        s.consistent(),
        data.len() <= u64::MAX,
        object_id_of(bucket, first_key) != object_id_of(bucket, second_key),
        !s.etags(bucket).contains_key(etag_of(data)),
        s.put_object(
            bucket,
            first_key,
            data,
            first_type,
            first_metadata,
            first_mode,
            first_time,
        ).1 is Ok,
        s.put_object(
            bucket,
            first_key,
            data,
            first_type,
            first_metadata,
            first_mode,
            first_time,
        ).0.put_object(
            bucket,
            second_key,
            data,
            second_type,
            second_metadata,
            DeduplicationMode::Reference,
            second_time,
        ).1 is Ok,
    ensures
        ({
            let t = s.put_object(
                bucket,
                first_key,
                data,
                first_type,
                first_metadata,
                first_mode,
                first_time,
            ).0;
            let u = t.put_object(
                bucket,
                second_key,
                data,
                second_type,
                second_metadata,
                DeduplicationMode::Reference,
                second_time,
            ).0;
            let first_id = object_id_of(bucket, first_key);
            let second_id = object_id_of(bucket, second_key);
            &&& u.get_object(bucket, first_key) matches Ok(found) && found.0 == data
            &&& u.get_object(bucket, second_key) matches Ok(found) && found.0 == data
            &&& u.sidecars(bucket)[second_id].data_holder_id == Some(first_id)
            &&& u.sidecars(bucket)[first_id].data_holder_id is None
            &&& u.sidecars(bucket)[first_id].reference_count == 1
        }),
{
    let etag = etag_of(data);
    let id1 = object_id_of(bucket, first_key);
    let id2 = object_id_of(bucket, second_key);
    let (t, r1) = s.put_object(
        bucket,
        first_key,
        data,
        first_type,
        first_metadata,
        first_mode,
        first_time,
    );
    lemma_put_object(s, bucket, first_key, data, first_type, first_metadata, first_mode, first_time);
    assert(s.bucket_consistent(bucket));
    assert(!s.is_duplicate_content(bucket, first_key, etag));
    // the first put finds no holder and stores the bytes under the first key
    let (c0, g0) = s.evict(bucket, id1);
    if s.sidecars(bucket).contains_key(id1) {
        lemma_remove_object(s, bucket, id1);
        let old = s.sidecars(bucket)[id1];
        assert(old.etag != etag);
        assert(c0.etags(bucket) =~= untagged(s.etags(bucket), old.etag, id1));
    }
    assert(!c0.etags(bucket).contains_key(etag));
    assert(c0.ids_with_etag(bucket, etag).len() == 0);
    assert(c0.best_holder(bucket, c0.ids_with_etag(bucket, etag), first_key) is None);
    let tsc = t.sidecars(bucket);
    assert(tsc[id1].data_holder_id is None);
    assert(tsc[id1].reference_count == 0);
    assert(t.blobs(bucket)[id1] == data);
    assert(t.etags(bucket)[etag] =~= seq![id1]);
    assert(t.bucket_consistent(bucket));
    // the second key does not hold these bytes
    if t.is_duplicate_content(bucket, second_key, etag) {
        let x = t.keys(bucket)[second_key];
        assert(tsc.contains_key(x));
        assert(x == id2);
        assert(t.etags(bucket)[etag].contains(x));
    }
    let (u, r2) = t.put_object(
        bucket,
        second_key,
        data,
        second_type,
        second_metadata,
        DeduplicationMode::Reference,
        second_time,
    );
    lemma_put_object(
        t,
        bucket,
        second_key,
        data,
        second_type,
        second_metadata,
        DeduplicationMode::Reference,
        second_time,
    );
    let (cleared, gone) = t.evict(bucket, id2);
    if tsc.contains_key(id2) {
        lemma_remove_object(t, bucket, id2);
        let old = tsc[id2];
        assert(old.etag != etag) by {
            if old.etag == etag {
                assert(t.etags(bucket)[etag].contains(id2));
            }
        }
        assert(cleared.etags(bucket) =~= untagged(t.etags(bucket), old.etag, id2));
        // the object that goes does not refer to the first key
        if old.data_holder_id == Some(id1) {
            assert(tsc[id1].etag == old.etag);
        }
        assert(cleared.sidecars(bucket)[id1] == tsc[id1]);
        assert(cleared.blobs(bucket).contains_key(id1) && cleared.blobs(bucket)[id1] == data);
    }
    let csc = cleared.sidecars(bucket);
    assert(cleared.consistent());
    assert(cleared.etags(bucket)[etag] == seq![id1]);
    let ids = cleared.ids_with_etag(bucket, etag);
    assert(ids == seq![id1]);
    assert(ids.drop_last().len() == 0);
    assert(first_key != second_key);
    assert(csc[id1].key == first_key) by {
        assert(cleared.bucket_consistent(bucket));
    }
    assert(cleared.holder_for(bucket, id1, second_key) == Some(
        Holder { id: id1, count: 0 },
    ));
    assert(cleared.best_holder(bucket, ids.drop_last(), second_key) is None);
    assert(cleared.best_holder(bucket, ids, second_key) == Some(Holder { id: id1, count: 0 }));
    assert(u.sidecars(bucket)[id2].data_holder_id == Some(id1));
    assert(u.sidecars(bucket)[id1] == counted(csc[id1], 1));
    assert(u.blobs(bucket)[id1] == data);
    assert(u.keys(bucket).contains_key(first_key)) by {
        assert(t.keys(bucket).contains_key(first_key));
        if tsc.contains_key(id2) {
            assert(tsc[id2].key != first_key);
        }
    }
    law_get_object_sound(u, bucket, first_key);
    law_get_object_sound(u, bucket, second_key);
}

/// Where the files fit, what the files of a listing give under an entity tag
/// are those of them that have the tag, each once.
pub proof fn lemma_ids_tagged(
    bucket: Seq<char>,
    sc: Map<Seq<char>, ObjectMetadataView>,
    ids: Seq<Seq<char>>,
    etag: Seq<char>,
)
    requires
        ids.no_duplicates(),
        forall|j: int| 0 <= j < ids.len() ==> sc.contains_key(#[trigger] ids[j]),
        forall|id: Seq<char>| #[trigger]
            sc.contains_key(id) ==> id == object_id_of(bucket, sc[id].key),
    ensures
        ids_tagged(bucket, sc, ids, etag).no_duplicates(),
        forall|x: Seq<char>| #[trigger]
            ids_tagged(bucket, sc, ids, etag).contains(x) <==> ids.contains(x) && sc[x].etag
                == etag,
    decreases ids.len(),
{
    let out = ids_tagged(bucket, sc, ids, etag);
    if ids.len() > 0 {
        let shorter = ids.drop_last();
        let last = ids.last();
        assert forall|j: int| 0 <= j < shorter.len() implies sc.contains_key(
            #[trigger] shorter[j],
        ) by {
            assert(shorter[j] == ids[j]);
        }
        lemma_ids_tagged(bucket, sc, shorter, etag);
        let before = ids_tagged(bucket, sc, shorter, etag);
        assert(sc.contains_key(ids[ids.len() - 1]));
        assert(last == object_id_of(bucket, sc[last].key));
        assert(!shorter.contains(last)) by {
            if shorter.contains(last) {
                let j = choose|j: int| 0 <= j < shorter.len() && shorter[j] == last;
                assert(ids[j] == ids[ids.len() - 1]);
            }
        }
        assert forall|x: Seq<char>| #[trigger] out.contains(x) <==> ids.contains(x) && sc[x].etag
            == etag by {
            if out.contains(x) {
                let k = choose|k: int| 0 <= k < out.len() && out[k] == x;
                if k < before.len() {
                    assert(before[k] == x);
                    assert(before.contains(x));
                    let j = choose|j: int| 0 <= j < shorter.len() && shorter[j] == x;
                    assert(ids[j] == x);
                } else {
                    assert(ids[ids.len() - 1] == x);
                }
            }
            if ids.contains(x) && sc[x].etag == etag {
                let j = choose|j: int| 0 <= j < ids.len() && ids[j] == x;
                if j < shorter.len() {
                    assert(shorter[j] == x);
                    assert(before.contains(x));
                    let k = choose|k: int| 0 <= k < before.len() && before[k] == x;
                    assert(out[k] == x);
                } else {
                    assert(out[before.len() as int] == x);
                }
            }
        }
        if sc[last].etag == etag {
            assert forall|i: int, j: int|
                0 <= i < out.len() && 0 <= j < out.len() && i != j implies out[i] != out[j] by {
                if i < before.len() && j < before.len() {
                    assert(out[i] == before[i] && out[j] == before[j]);
                } else if i < before.len() {
                    assert(before.contains(before[i]));
                } else {
                    assert(before.contains(before[j]));
                }
            }
        }
    }
}

/// A store that starts over the tree of a store that agrees with itself has
/// the same registry and the same key index, and its entity-tag index has the
/// same entity tags with the same objects under each, each once: the two may
/// differ in the order of the objects under an entity tag, and in nothing
/// else.
pub proof fn law_restart_rebuilds(s: StoreView, now: Timestamp)
    requires
        s.consistent(),
    ensures
        loaded_buckets(s.disk, now) == s.buckets,
        built_object_index(s.disk) == s.object_index,
        s.rebuild_object_index() == s,
        forall|b: Seq<char>| #[trigger]
            built_etag_index(s.disk).contains_key(b) <==> s.etag_index.contains_key(b),
        forall|b: Seq<char>, e: Seq<char>|
            s.etag_index.contains_key(b) ==> (#[trigger] built_etag_index(s.disk)[b].contains_key(
                e,
            ) <==> s.etag_index[b].contains_key(e)),
        forall|b: Seq<char>, e: Seq<char>|
            s.etag_index.contains_key(b) && s.etag_index[b].contains_key(e) ==> (
            #[trigger] built_etag_index(s.disk)[b][e]).no_duplicates(),
        forall|b: Seq<char>, e: Seq<char>, x: Seq<char>|
            s.etag_index.contains_key(b) && s.etag_index[b].contains_key(e) ==> (
            #[trigger] built_etag_index(s.disk)[b][e].contains(x) <==> s.etag_index[b][e].contains(
                x,
            )),
{
    let registry = loaded_buckets(s.disk, now);
    assert forall|b: Seq<char>| registry.contains_key(b) <==> s.buckets.contains_key(b) by {
        assert(s.disk.contains_key(b) <==> s.buckets.contains_key(b));
    }
    assert forall|b: Seq<char>| registry.contains_key(b) implies registry[b] == s.buckets[b] by {
        assert(s.buckets.contains_key(b));
        assert(s.dir(b).bucket_file == Some(s.buckets[b]));
    }
    assert(registry =~= s.buckets);
    let built = built_object_index(s.disk);
    let tags = built_etag_index(s.disk);
    assert forall|b: Seq<char>| built.contains_key(b) <==> s.object_index.contains_key(b) by {
        lemma_rebuilt_bucket(s, b);
    }
    assert forall|b: Seq<char>| built.contains_key(b) implies built[b] == s.object_index[b] by {
        lemma_rebuilt_bucket(s, b);
    }
    assert(built =~= s.object_index);
    assert forall|b: Seq<char>| #[trigger]
        tags.contains_key(b) <==> s.etag_index.contains_key(b) by {
        lemma_rebuilt_bucket(s, b);
    }
    assert forall|b: Seq<char>, e: Seq<char>| s.etag_index.contains_key(b) implies (
    #[trigger] tags[b].contains_key(e) <==> s.etag_index[b].contains_key(e)) by {
        lemma_rebuilt_bucket(s, b);
    }
    assert forall|b: Seq<char>, e: Seq<char>|
        s.etag_index.contains_key(b) && s.etag_index[b].contains_key(e) implies (
    #[trigger] tags[b][e]).no_duplicates() by {
        lemma_rebuilt_bucket(s, b);
        assert(tags[b].contains_key(e) <==> s.etag_index[b].contains_key(e));
    }
    assert forall|b: Seq<char>, e: Seq<char>, x: Seq<char>|
        s.etag_index.contains_key(b) && s.etag_index[b].contains_key(e) implies (
    #[trigger] tags[b][e].contains(x) <==> s.etag_index[b][e].contains(x)) by {
        lemma_rebuilt_bucket(s, b);
        assert(tags[b].contains_key(e) <==> s.etag_index[b].contains_key(e));
    }
}

/// What a scan builds for one bucket of a store that agrees with itself.
pub proof fn lemma_rebuilt_bucket(s: StoreView, b: Seq<char>)
    requires
        s.consistent(),
    ensures
        built_object_index(s.disk).contains_key(b) <==> s.object_index.contains_key(b),
        built_object_index(s.disk).contains_key(b) ==> built_object_index(s.disk)[b]
            == s.object_index[b],
        built_etag_index(s.disk).contains_key(b) <==> s.etag_index.contains_key(b),
        s.etag_index.contains_key(b) ==> forall|e: Seq<char>|
            (#[trigger] built_etag_index(s.disk)[b].contains_key(e) <==> s.etag_index[b].contains_key(
                e,
            )) && (s.etag_index[b].contains_key(e) ==> built_etag_index(
                s.disk,
            )[b][e].no_duplicates() && forall|x: Seq<char>|
                #[trigger] built_etag_index(s.disk)[b][e].contains(x) <==> s.etag_index[b][e].contains(
                    x,
                )),
{
    assert(s.bucket_consistent(b));
    assert(s.disk.contains_key(b) <==> s.buckets.contains_key(b));
    let sc = s.sidecars(b);
    let ks = s.keys(b);
    let es = s.etags(b);
    lemma_listing_exists(sc.dom());
    let l = listing(sc.dom());
    lemma_ascending_distinct(l);
    let found = key_index_of(b, sc);
    let tagged_found = etag_index_of(b, sc);
    assert forall|j: int| 0 <= j < l.len() implies sc.contains_key(#[trigger] l[j]) by {
        assert(l.contains(l[j]));
    }
    // the key index
    assert forall|k: Seq<char>| found.contains_key(k) <==> ks.contains_key(k) by {
        if found.contains_key(k) {
            let j = choose|j: int| 0 <= j < l.len() && sc[#[trigger] l[j]].key == k;
            assert(sc.contains_key(l[j]));
        }
        if ks.contains_key(k) {
            let id = ks[k];
            assert(sc.contains_key(id));
            assert(l.contains(id));
            let j = choose|j: int| 0 <= j < l.len() && l[j] == id;
            assert(sc[l[j]].key == k);
        }
    }
    assert forall|k: Seq<char>| found.contains_key(k) implies found[k] == ks[k] by {
        assert(ks.contains_key(k));
        assert(sc.contains_key(ks[k]));
    }
    assert(found =~= ks);
    // the entity-tag index
    assert forall|e: Seq<char>| tagged_found.contains_key(e) <==> es.contains_key(e) by {
        if tagged_found.contains_key(e) {
            let j = choose|j: int| 0 <= j < l.len() && sc[#[trigger] l[j]].etag == e;
            assert(sc.contains_key(l[j]));
        }
        if es.contains_key(e) {
            let id = es[e][0];
            assert(sc.contains_key(id));
            assert(l.contains(id));
            let j = choose|j: int| 0 <= j < l.len() && l[j] == id;
            assert(sc[l[j]].etag == e);
        }
    }
    assert forall|e: Seq<char>| es.contains_key(e) implies tagged_found[e].no_duplicates()
        && forall|x: Seq<char>| #[trigger] tagged_found[e].contains(x) <==> es[e].contains(x) by {
        lemma_ids_tagged(b, sc, l, e);
        assert forall|x: Seq<char>| #[trigger] tagged_found[e].contains(x) <==> es[e].contains(
            x,
        ) by {
            if tagged_found[e].contains(x) {
                assert(l.contains(x));
                assert(sc.contains_key(x));
            }
            if es[e].contains(x) {
                let i = choose|i: int| 0 <= i < es[e].len() && es[e][i] == x;
                assert(sc.contains_key(es[e][i]));
                assert(l.contains(x));
            }
        }
    }
    if s.disk.contains_key(b) {
        assert(s.buckets.contains_key(b));
        assert(valid_bucket_name(b));
        assert(!is_system_name(b));
        assert(s.disk[b].sidecars == sc);
    } else {
        assert(ks =~= Map::<Seq<char>, Seq<char>>::empty()) by {
            assert forall|k: Seq<char>| !ks.contains_key(k) by {
                if ks.contains_key(k) {
                    assert(sc.contains_key(ks[k]));
                }
            }
        }
        assert(es =~= Map::<Seq<char>, Seq<Seq<char>>>::empty()) by {
            assert forall|e: Seq<char>| !es.contains_key(e) by {
                if es.contains_key(e) {
                    assert(sc.contains_key(es[e][0]));
                }
            }
        }
    }
    if s.object_index.contains_key(b) {
        assert(ks != Map::<Seq<char>, Seq<char>>::empty());
    }
    if s.etag_index.contains_key(b) {
        assert(es != Map::<Seq<char>, Seq<Seq<char>>>::empty());
        assert(tagged_found != Map::<Seq<char>, Seq<Seq<char>>>::empty()) by {
            if tagged_found == Map::<Seq<char>, Seq<Seq<char>>>::empty() {
                assert forall|e: Seq<char>| !es.contains_key(e) by {
                    assert(!tagged_found.contains_key(e));
                }
                assert(es =~= Map::<Seq<char>, Seq<Seq<char>>>::empty());
            }
        }
    } else {
        assert(tagged_found =~= Map::<Seq<char>, Seq<Seq<char>>>::empty());
    }
}

} // verus!
