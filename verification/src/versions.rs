//! What holds of the versions of an object: a put that stores one can be
//! read back, under its version and under its key, and leaves what the
//! bucket held before in its place. A store that holds a version is outside
//! the agreement that the laws of deduplication speak of.

use crate::effects::{
    lemma_add_etag_to_index, lemma_add_object_to_index, lemma_save_object_metadata,
    lemma_write_object_data,
};
use crate::layout::{object_id_of, versioned_id_of};
use crate::models::Timestamp;
use crate::rules::{effective_content_type, new_metadata, version_id_of, versioned};
use crate::state::StoreView;
use crate::utils::{etag_of, valid_object_key};
use vstd::prelude::*;

verus! {

/// The identifier of a version is never the identifier of its object.
pub proof fn lemma_versioned_id_differs(bucket: Seq<char>, key: Seq<char>, version: Seq<char>)
    ensures
        versioned_id_of(bucket, key, version) != object_id_of(bucket, key),
{
    assert(versioned_id_of(bucket, key, version).len() == object_id_of(bucket, key).len() + 1
        + version.len());
}

/// A put that asks for a version, of bytes that the key does not hold yet,
/// into a registered bucket and under an object key succeeds. The bytes can
/// then be read under the version that the moment of the put names and under
/// the key; the metadata read bears that version and is that of the object
/// answered. The metadata and the bytes that the bucket held before stay as
/// they were, except under the identifier of the version.
pub proof fn law_version_put_then_get(
    s: StoreView,
    bucket: Seq<char>,
    key: Seq<char>,
    data: Seq<u8>,
    content_type: Seq<char>,
    user_metadata: Map<Seq<char>, Seq<char>>,
    now: Timestamp,
)
    requires
        valid_object_key(key),
        s.buckets.contains_key(bucket),
        !s.is_duplicate_content(bucket, key, etag_of(data)),
    ensures
        ({
            let (t, r) = s.put_object_with_versioning(
                bucket,
                key,
                data,
                content_type,
                user_metadata,
                true,
                now,
            );
            let version = version_id_of(now);
            let id = versioned_id_of(bucket, key, version);
            &&& r is Ok
            &&& t.get_object_version(bucket, key, version) matches Ok(found) && found.0 == data
                && found.1.version_id == Some(version) && found.1.object() == r->Ok_0
                && found.1.etag == etag_of(data)
            &&& t.get_object(bucket, key) == t.get_object_version(bucket, key, version)
            &&& t.keys(bucket) == s.keys(bucket).insert(key, id)
            &&& forall|other: Seq<char>|
                other != id ==> (#[trigger] t.sidecars(bucket).contains_key(other)
                    == s.sidecars(bucket).contains_key(other)) && t.sidecars(bucket)[other]
                    == s.sidecars(bucket)[other]
            &&& forall|other: Seq<char>|
                other != id ==> (#[trigger] t.blobs(bucket).contains_key(other) == s.blobs(
                    bucket,
                ).contains_key(other)) && t.blobs(bucket)[other] == s.blobs(bucket)[other]
        }),
{
    let (t, r) = s.put_object_with_versioning(bucket, key, data, content_type, user_metadata, true, now);
    let version = version_id_of(now);
    let id = versioned_id_of(bucket, key, version);
    let m = versioned(
        new_metadata(
            bucket,
            key,
            data.len() as u64,
            effective_content_type(content_type, key),
            etag_of(data),
            user_metadata,
            now,
            None,
        ),
        version,
    );
    let s1 = s.write_object_data(bucket, id, data);
    let s2 = s1.save_object_metadata(bucket, id, m);
    let s3 = s2.add_object_to_index(bucket, key, id);
    lemma_write_object_data(s, bucket, id, data);
    lemma_save_object_metadata(s1, bucket, id, m);
    lemma_add_object_to_index(s2, bucket, key, id);
    lemma_add_etag_to_index(s3, bucket, m.etag, id);
    assert(t.sidecars(bucket) == s.sidecars(bucket).insert(id, m));
    assert(t.blobs(bucket) == s.blobs(bucket).insert(id, data));
    assert(t.keys(bucket) == s.keys(bucket).insert(key, id));
}

/// A store into which a version was put does not agree with itself: the
/// metadata of the version stands under an identifier that is not the one of
/// its key.
pub proof fn lemma_version_outside_agreement(
    s: StoreView,
    bucket: Seq<char>,
    key: Seq<char>,
    data: Seq<u8>,
    content_type: Seq<char>,
    user_metadata: Map<Seq<char>, Seq<char>>,
    now: Timestamp,
)
    requires
        valid_object_key(key),
        s.buckets.contains_key(bucket),
        !s.is_duplicate_content(bucket, key, etag_of(data)),
    ensures
        !s.put_object_with_versioning(
            bucket,
            key,
            data,
            content_type,
            user_metadata,
            true,
            now,
        ).0.consistent(),
{
    let t = s.put_object_with_versioning(bucket, key, data, content_type, user_metadata, true, now).0;
    let id = versioned_id_of(bucket, key, version_id_of(now));
    law_version_put_then_get(s, bucket, key, data, content_type, user_metadata, now);
    lemma_versioned_id_differs(bucket, key, version_id_of(now));
    assert(t.sidecars(bucket).contains_key(id) && t.sidecars(bucket)[id].key == key);
    if t.consistent() {
        assert(t.bucket_consistent(bucket));
    }
}

} // verus!
