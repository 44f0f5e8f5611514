//! What holds of deleting an object together with the references that rely
//! on it.

use crate::consistency::referrers;
use crate::laws::{law_delete_holder_without_references, law_delete_reference_releases, lemma_remove_object};
use crate::listing::{lemma_ascending_distinct, lemma_listing_exists};
use crate::models::ObjectMetadataView;
use crate::rules::{keys_in, referring};
use crate::state::StoreView;
use vstd::prelude::*;

verus! {

/// The keys of the entries that refer to `holder` are the keys of the
/// references found, and where no key comes twice among the entries, none
/// comes twice among the references.
pub proof fn lemma_referring_keys(entries: Seq<ObjectMetadataView>, holder: Seq<char>)
    ensures
        forall|k: Seq<char>| #[trigger]
            keys_in(referring(entries, holder)).contains(k) <==> exists|j: int|
                0 <= j < entries.len() && (#[trigger] entries[j]).key == k
                    && entries[j].data_holder_id == Some(holder),
        keys_in(entries).no_duplicates() ==> keys_in(referring(entries, holder)).no_duplicates(),
    decreases entries.len(),
{
    let found = keys_in(referring(entries, holder));
    if entries.len() == 0 {
        assert(found =~= Seq::<Seq<char>>::empty());
    } else {
        let front = entries.drop_last();
        let last = entries.last();
        let before = keys_in(referring(front, holder));
        lemma_referring_keys(front, holder);
        if last.data_holder_id == Some(holder) {
            assert(found =~= before.push(last.key));
        } else {
            assert(found =~= before);
        }
        assert forall|k: Seq<char>| #[trigger] found.contains(k) <==> exists|j: int|
            0 <= j < entries.len() && (#[trigger] entries[j]).key == k && entries[j].data_holder_id
                == Some(holder) by {
            if found.contains(k) {
                let i = choose|i: int| 0 <= i < found.len() && found[i] == k;
                if i < before.len() {
                    assert(before[i] == k);
                    assert(before.contains(k));
                    let j = choose|j: int|
                        0 <= j < front.len() && (#[trigger] front[j]).key == k
                            && front[j].data_holder_id == Some(holder);
                    assert(entries[j] == front[j]);
                } else {
                    assert(entries[entries.len() - 1] == last);
                }
            }
            if exists|j: int|
                0 <= j < entries.len() && (#[trigger] entries[j]).key == k
                    && entries[j].data_holder_id == Some(holder) {
                let j = choose|j: int|
                    0 <= j < entries.len() && (#[trigger] entries[j]).key == k
                        && entries[j].data_holder_id == Some(holder);
                if j < front.len() {
                    assert(front[j] == entries[j]);
                    assert(before.contains(k));
                    let i = choose|i: int| 0 <= i < before.len() && before[i] == k;
                    assert(found[i] == k);
                } else {
                    assert(found[found.len() - 1] == k);
                }
            }
        }
        if keys_in(entries).no_duplicates() {
            let all = keys_in(entries);
            assert forall|a: int, b: int|
                0 <= a < front.len() && 0 <= b < front.len() && a != b implies keys_in(front)[a]
                != keys_in(front)[b] by {
                assert(all[a] == keys_in(front)[a]);
                assert(all[b] == keys_in(front)[b]);
            }
            if last.data_holder_id == Some(holder) {
                if before.contains(last.key) {
                    let j = choose|j: int|
                        0 <= j < front.len() && (#[trigger] front[j]).key == last.key
                            && front[j].data_holder_id == Some(holder);
                    assert(all[j] == front[j].key);
                    assert(all[entries.len() - 1] == last.key);
                }
                assert forall|a: int, b: int|
                    0 <= a < found.len() && 0 <= b < found.len() && a != b implies found[a]
                    != found[b] by {
                    if a < before.len() && b < before.len() {
                        assert(before[a] != before[b]);
                    } else if a < before.len() {
                        assert(before.contains(before[a]));
                    } else {
                        assert(before.contains(before[b]));
                    }
                }
            }
        }
    }
}

/// In a store that agrees with itself, deleting the objects under keys
/// that all refer to one data holder succeeds; the store still agrees with
/// itself, the keys are indexed no longer, and what is left is indexed and
/// refers as before.
pub proof fn lemma_delete_references(
    s: StoreView,
    bucket: Seq<char>,
    holder: Seq<char>,
    keys: Seq<Seq<char>>,
)
    requires
        s.consistent(),
        s.buckets.contains_key(bucket),
        keys.no_duplicates(),
        forall|i: int|
            0 <= i < keys.len() ==> s.keys(bucket).contains_key(#[trigger] keys[i]) && s.sidecars(
                bucket,
            )[s.keys(bucket)[keys[i]]].data_holder_id == Some(holder),
    ensures
        ({
            let (t, r) = s.delete_objects(bucket, keys);
            &&& r is Ok
            &&& t.consistent()
            &&& t.buckets == s.buckets
            &&& forall|k: Seq<char>| #[trigger]
                t.keys(bucket).contains_key(k) <==> s.keys(bucket).contains_key(k)
                    && !keys.contains(k)
            &&& forall|k: Seq<char>| #[trigger]
                t.keys(bucket).contains_key(k) ==> t.keys(bucket)[k] == s.keys(bucket)[k]
            &&& forall|id: Seq<char>| #[trigger]
                t.sidecars(bucket).contains_key(id) ==> s.sidecars(bucket).contains_key(id)
                    && t.sidecars(bucket)[id].key == s.sidecars(bucket)[id].key && t.sidecars(
                    bucket,
                )[id].data_holder_id == s.sidecars(bucket)[id].data_holder_id
        }),
    decreases keys.len(),
{
    if keys.len() > 0 {
        let first = keys[0];
        let rest = keys.drop_first();
        let id = s.keys(bucket)[first];
        assert(s.bucket_consistent(bucket));
        assert(s.sidecars(bucket).contains_key(id) && s.sidecars(bucket)[id].key == first);
        law_delete_reference_releases(s, bucket, first);
        lemma_remove_object(s, bucket, id);
        let next = s.delete_object(bucket, first).0;
        assert(holder != id);
        assert(s.sidecars(bucket)[holder].data_holder_id is None);
        assert forall|i: int| 0 <= i < rest.len() implies next.keys(bucket).contains_key(
            #[trigger] rest[i],
        ) && next.sidecars(bucket)[next.keys(bucket)[rest[i]]].data_holder_id == Some(holder) by {
            assert(rest[i] == keys[i + 1]);
            assert(keys[i + 1] != keys[0]);
            let other = s.keys(bucket)[rest[i]];
            assert(s.sidecars(bucket)[other].key == rest[i]);
            assert(other != id);
            assert(other != holder);
        }
        lemma_delete_references(next, bucket, holder, rest);
        let t = s.delete_objects(bucket, keys).0;
        assert(t == next.delete_objects(bucket, rest).0);
        assert forall|k: Seq<char>| #[trigger]
            t.keys(bucket).contains_key(k) <==> s.keys(bucket).contains_key(k) && !keys.contains(
                k,
            ) by {
            if keys.contains(k) && k != first {
                let i = choose|i: int| 0 <= i < keys.len() && keys[i] == k;
                assert(rest[i - 1] == k);
                assert(rest.contains(k));
            }
            if rest.contains(k) {
                let i = choose|i: int| 0 <= i < rest.len() && rest[i] == k;
                assert(keys[i + 1] == k);
            }
            assert(keys.contains(first));
        }
    }
}

/// In a store that agrees with itself, deleting an object together with
/// its references succeeds for every key that is indexed, and for no other.
/// The store agrees with itself afterwards; and after a success the key is
/// indexed no longer, and no metadata is left under the identifier it had
/// or refers to it.
pub proof fn law_force_delete(s: StoreView, bucket: Seq<char>, key: Seq<char>)
    requires
        s.consistent(),
    ensures
        ({
            let (t, r) = s.force_delete_object_with_references(bucket, key);
            &&& t.consistent()
            &&& r is Ok <==> s.keys(bucket).contains_key(key)
            &&& r is Ok ==> {
                &&& !t.keys(bucket).contains_key(key)
                &&& !t.sidecars(bucket).contains_key(s.keys(bucket)[key])
                &&& referrers(t.sidecars(bucket), s.keys(bucket)[key]) == Set::<
                    Seq<char>,
                >::empty()
            }
        }),
{
    if s.keys(bucket).contains_key(key) {
        let id = s.keys(bucket)[key];
        let sc = s.sidecars(bucket);
        assert(s.bucket_consistent(bucket));
        assert(sc.contains_key(id));
        assert(s.disk.contains_key(bucket));
        assert(s.buckets.contains_key(bucket));
        let ids = s.sidecar_listing(bucket);
        lemma_listing_exists(sc.dom());
        lemma_ascending_distinct(ids);
        let entries = s.list_object_metadata(bucket);
        assert forall|a: int, b: int|
            0 <= a < entries.len() && 0 <= b < entries.len() && a != b implies keys_in(entries)[a]
            != keys_in(entries)[b] by {
            assert(ids.contains(ids[a]));
            assert(ids.contains(ids[b]));
            assert(sc.contains_key(ids[a]));
            assert(sc.contains_key(ids[b]));
        }
        let keys = keys_in(referring(entries, id));
        lemma_referring_keys(entries, id);
        assert forall|i: int| 0 <= i < keys.len() implies s.keys(bucket).contains_key(
            #[trigger] keys[i],
        ) && sc[s.keys(bucket)[keys[i]]].data_holder_id == Some(id) by {
            assert(keys.contains(keys[i]));
            let j = choose|j: int|
                0 <= j < entries.len() && (#[trigger] entries[j]).key == keys[i]
                    && entries[j].data_holder_id == Some(id);
            assert(ids.contains(ids[j]));
            assert(sc.contains_key(ids[j]));
        }
        lemma_delete_references(s, bucket, id, keys);
        let cleared = s.delete_objects(bucket, keys).0;
        let left = cleared.sidecars(bucket);
        if keys.contains(key) {
            let i = choose|i: int| 0 <= i < keys.len() && keys[i] == key;
            assert(sc[s.keys(bucket)[keys[i]]].data_holder_id == Some(id));
        }
        assert(cleared.keys(bucket).contains_key(key));
        assert(cleared.bucket_consistent(bucket));
        assert(left.contains_key(id));
        assert forall|x: Seq<char>| left.contains_key(x) implies left[x].data_holder_id != Some(
            id,
        ) by {
            if left[x].data_holder_id == Some(id) {
                assert(sc.contains_key(x));
                assert(ids.contains(x));
                let j = choose|j: int| 0 <= j < ids.len() && ids[j] == x;
                assert(entries[j] == sc[x]);
                assert(keys.contains(sc[x].key));
                assert(cleared.keys(bucket).contains_key(left[x].key));
            }
        }
        assert(referrers(left, id) =~= Set::<Seq<char>>::empty());
        lemma_remove_object(cleared, bucket, id);
        if left[id].data_holder_id is Some {
            law_delete_reference_releases(cleared, bucket, key);
        } else {
            law_delete_holder_without_references(cleared, bucket, key);
        }
        let t = s.force_delete_object_with_references(bucket, key).0;
        assert(t == cleared.delete_object(bucket, key).0);
        assert(referrers(t.sidecars(bucket), id) =~= Set::<Seq<char>>::empty());
    }
}

} // verus!
