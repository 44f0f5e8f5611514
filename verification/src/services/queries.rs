//! The questions that the object service answers about a bucket: listings
//! with filters and directories, the versions of a key, the references to a
//! data holder.

use crate::dict::Dict;
use crate::error::{Failure, StorageError};
use crate::layout::versioned_object_id;
use crate::listing::matches_glob;
use crate::models::{current_time, Object, ObjectMetadata, ObjectView, Timestamp};
use crate::rules::{
    directory_entry, directory_of, holds_pair, keys_in, lemma_entered_by_time, lies_in,
    newest_first, passes_filters, referring, retained, rolled_up, with_key,
};
use crate::services::objects::{data_outcome, unit_outcome, ObjectService};
use crate::text::{
    chars_of, find_text, lemma_first_occurrence, same_text, starts_with, text_of_range,
};
use vstd::prelude::*;
use vstd::string::*;

verus! {

/// Pairs of texts as plain values.
pub open spec fn pairs_view(pairs: Seq<(String, String)>) -> Seq<(Seq<char>, Seq<char>)> {
    pairs.map_values(|p: (String, String)| (p.0@, p.1@))
}

/// The answer of a listing, as plain values.
pub open spec fn listing_outcome(r: Result<Vec<Object>, StorageError>) -> Result<
    Seq<ObjectView>,
    Failure,
> {
    match r {
        Ok(objects) => Ok(objects.deep_view()),
        Err(e) => Err(e@),
    }
}

/// Whether the user's metadata holds each of the pairs.
pub fn holds_all(user_metadata: &Dict<String>, custom_filters: &Vec<(String, String)>) -> (r: bool)
    ensures
        r == forall|i: int|
            0 <= i < custom_filters.len() ==> holds_pair(
                user_metadata@,
                #[trigger] pairs_view(custom_filters@)[i],
            ),
{
    let mut i: usize = 0;
    while i < custom_filters.len()
        invariant
            i <= custom_filters.len(),
            forall|k: int|
                0 <= k < i ==> holds_pair(
                    user_metadata@,
                    #[trigger] pairs_view(custom_filters@)[k],
                ),
        decreases custom_filters.len() - i,
    {
        let held = match user_metadata.get(custom_filters[i].0.as_str()) {
            Some(value) => same_text(value.as_str(), custom_filters[i].1.as_str()),
            None => false,
        };
        if !held {
            proof {
                assert(!holds_pair(user_metadata@, pairs_view(custom_filters@)[i as int]));
            }
            return false;
        }
        i += 1;
    }
    true
}

/// Whether metadata passes the filters of a listing.
pub fn passes(
    metadata: &ObjectMetadata,
    prefix: &Option<String>,
    etag_filter: &Option<String>,
    custom_filters: &Vec<(String, String)>,
) -> (r: bool)
    ensures
        r == passes_filters(
            metadata@,
            prefix.deep_view(),
            etag_filter.deep_view(),
            pairs_view(custom_filters@),
        ),
{
    match prefix {
        Some(p) => {
            let key = chars_of(metadata.key.as_str());
            let wanted = chars_of(p.as_str());
            if !starts_with(&key, &wanted) {
                return false;
            }
        },
        None => {},
    }
    match etag_filter {
        Some(f) => {
            let pattern = chars_of(f.as_str());
            let etag = chars_of(metadata.etag.as_str());
            if !matches_glob(&pattern, &etag) {
                return false;
            }
        },
        None => {},
    }
    holds_all(&metadata.user_metadata, custom_filters)
}

/// The directory that a key lies in below its first `from` characters.
pub fn directory_of_key(key: &str, delimiter: &str, from: usize) -> (r: Option<String>)
    ensures
        r.deep_view() == directory_of(key@, delimiter@, from as nat),
{
    let text = chars_of(key);
    let pattern = chars_of(delimiter);
    if from > text.len() {
        return None;
    }
    let mut rest: Vec<char> = Vec::new();
    let mut i: usize = from;
    while i < text.len()
        invariant
            from <= i <= text.len(),
            rest@ == text@.subrange(from as int, i as int),
        decreases text.len() - i,
    {
        rest.push(text[i]);
        proof {
            assert(rest@ =~= text@.subrange(from as int, i + 1));
        }
        i += 1;
    }
    proof {
        assert(rest@ =~= key@.skip(from as int));
    }
    match find_text(&rest, &pattern) {
        Some(at) => {
            proof {
                lemma_first_occurrence(rest@, pattern@, 0);
                assert(crate::text::occurs_at(rest@, pattern@, at as int));
                assert(at + pattern.len() <= rest.len());
            }
            let end: usize = from + at + pattern.len();
            proof {
                assert(key@.take(end as int) =~= text@.subrange(0, end as int));
            }
            Some(text_of_range(&text, 0, end))
        },
        None => None,
    }
}

/// Whether `text` is one of `texts`.
pub fn is_among(texts: &Vec<String>, text: &str) -> (r: bool)
    ensures
        r == texts.deep_view().contains(text@),
{
    let mut i: usize = 0;
    while i < texts.len()
        invariant
            i <= texts.len(),
            forall|k: int| 0 <= k < i ==> texts.deep_view()[k] != text@,
        decreases texts.len() - i,
    {
        if same_text(texts[i].as_str(), text) {
            proof {
                assert(texts.deep_view()[i as int] == text@);
            }
            return true;
        }
        i += 1;
    }
    false
}

/// Rolls up the entries that lie in a directory below the first `from`
/// characters of their keys.
pub fn roll_up(
    entries: Vec<Object>,
    delimiter: &str,
    from: usize,
    bucket_name: &str,
    now: Timestamp,
) -> (r: Vec<Object>)
    ensures
        r.deep_view() == rolled_up(
            entries.deep_view(),
            delimiter@,
            from as nat,
            bucket_name@,
            now,
        ),
{
    let ghost all = entries.deep_view();
    let n = entries.len();
    let mut out: Vec<Object> = Vec::new();
    let mut seen: Vec<String> = Vec::new();
    let mut i: usize = 0;
    proof {
        assert(all.take(0).len() == 0);
        assert(out.deep_view() =~= Seq::<ObjectView>::empty());
    }
    while i < n
        invariant
            i <= n,
            n == entries.len(),
            all == entries.deep_view(),
            out.deep_view() == rolled_up(all.take(i as int), delimiter@, from as nat, bucket_name@, now),
            forall|d: Seq<char>| #[trigger]
                seen.deep_view().contains(d) <==> lies_in(all.take(i as int), delimiter@, from as nat, d),
        decreases n - i,
    {
        let ghost before = all.take(i as int);
        let ghost next = all.take(i + 1);
        proof {
            assert(next.drop_last() =~= before);
            assert(next.last() == entries[i as int]@);
        }
        let ghost out_before = out.deep_view();
        let ghost seen_before = seen.deep_view();
        let directory = directory_of_key(entries[i].key.as_str(), delimiter, from);
        match directory {
            Some(d) => {
                if !is_among(&seen, d.as_str()) {
                    out.push(
                        Object::new_at(
                            d.clone(),
                            bucket_name.to_owned(),
                            0,
                            "application/x-directory".to_string(),
                            String::new(),
                            Dict::new(),
                            now,
                        ),
                    );
                    seen.push(d);
                    proof {
                        assert(out.deep_view() =~= out_before.push(
                            directory_entry(d@, bucket_name@, now),
                        ));
                        assert(seen.deep_view() =~= seen_before.push(d@));
                    }
                }
            },
            None => {
                out.push(entries[i].clone());
                proof {
                    assert(out.deep_view() =~= out_before.push(entries[i as int]@));
                }
            },
        }
        proof {
            let here = directory_of(entries[i as int]@.key, delimiter@, from as nat);
            assert forall|x: Seq<char>| #[trigger]
                seen.deep_view().contains(x) <==> lies_in(next, delimiter@, from as nat, x) by {
                if lies_in(next, delimiter@, from as nat, x) {
                    let j = choose|j: int|
                        0 <= j < next.len() && directory_of((#[trigger] next[j]).key, delimiter@, from as nat)
                            == Some(x);
                    if j < i {
                        assert(before[j] == next[j]);
                        assert(lies_in(before, delimiter@, from as nat, x));
                        assert(seen_before.contains(x));
                        let k = choose|k: int| 0 <= k < seen_before.len() && seen_before[k] == x;
                        assert(seen.deep_view()[k] == x);
                    } else {
                        assert(here == Some(x));
                        if !seen_before.contains(x) {
                            assert(seen.deep_view()[seen_before.len() as int] == x);
                        } else {
                            let k = choose|k: int|
                                0 <= k < seen_before.len() && seen_before[k] == x;
                            assert(seen.deep_view()[k] == x);
                        }
                    }
                }
                if seen.deep_view().contains(x) {
                    if seen_before.contains(x) {
                        assert(lies_in(before, delimiter@, from as nat, x));
                        let j = choose|j: int|
                            0 <= j < before.len() && directory_of(
                                (#[trigger] before[j]).key,
                                delimiter@,
                                from as nat,
                            ) == Some(x);
                        assert(next[j] == before[j]);
                    } else {
                        let k = choose|k: int|
                            0 <= k < seen.deep_view().len() && seen.deep_view()[k] == x;
                        assert(here == Some(x));
                        assert(directory_of(next[i as int].key, delimiter@, from as nat) == Some(x));
                    }
                }
            }
        }
        i += 1;
    }
    proof {
        assert(all.take(n as int) =~= all);
    }
    out
}

impl ObjectService {
    /// Lists the objects of the bucket at the moment `now`: of the page
    /// asked for, those that pass the filters; with a delimiter, those that
    /// lie in a directory are rolled up.
    pub fn list_objects_with_custom_filter_at(
        &self,
        bucket_name: &str,
        prefix: Option<String>,
        delimiter: Option<String>,
        max_keys: Option<u32>,
        marker: Option<String>,
        etag_filter: Option<String>,
        custom_filters: Vec<(String, String)>,
        now: Timestamp,
    ) -> (r: Result<Vec<Object>, StorageError>)
        ensures
            listing_outcome(r) == self@.list_objects(
                bucket_name@,
                prefix.deep_view(),
                delimiter.deep_view(),
                max_keys,
                marker.deep_view(),
                etag_filter.deep_view(),
                pairs_view(custom_filters@),
                now,
            ),
    {
        if !self.storage().has_bucket(bucket_name) {
            return Err(StorageError::BucketNotFound(bucket_name.to_owned()));
        }
        let limit: Option<usize> = match max_keys {
            Some(n) => Some(n as usize),
            None => None,
        };
        let entries = self.storage().list_object_metadata_with_pagination(bucket_name, limit, marker);
        let ghost all = entries.deep_view();
        let ghost filters = pairs_view(custom_filters@);
        let mut kept: Vec<Object> = Vec::new();
        let mut i: usize = 0;
        proof {
            assert(all.take(0).len() == 0);
            assert(kept.deep_view() =~= Seq::<ObjectView>::empty());
        }
        while i < entries.len()
            invariant
                i <= entries.len(),
                all == entries.deep_view(),
                filters == pairs_view(custom_filters@),
                kept.deep_view() == retained(
                    all.take(i as int),
                    prefix.deep_view(),
                    etag_filter.deep_view(),
                    filters,
                ),
            decreases entries.len() - i,
        {
            proof {
                assert(all.take(i + 1).drop_last() =~= all.take(i as int));
                assert(all.take(i + 1).last() == entries[i as int]@);
            }
            if passes(&entries[i], &prefix, &etag_filter, &custom_filters) {
                let ghost before = kept.deep_view();
                kept.push(entries[i].to_object());
                proof {
                    assert(kept.deep_view() =~= before.push(entries[i as int]@.object()));
                }
            }
            i += 1;
        }
        proof {
            assert(all.take(all.len() as int) =~= all);
        }
        match delimiter {
            Some(d) => {
                let from: usize = match &prefix {
                    Some(p) => p.as_str().unicode_len(),
                    None => 0,
                };
                Ok(roll_up(kept, d.as_str(), from, bucket_name, now))
            },
            None => Ok(kept),
        }
    }

    /// Lists the objects of the bucket; directories bear the moment the
    /// clock shows.
    pub fn list_objects_with_custom_filter(
        &self,
        bucket_name: &str,
        prefix: Option<String>,
        delimiter: Option<String>,
        max_keys: Option<u32>,
        marker: Option<String>,
        etag_filter: Option<String>,
        custom_filters: Vec<(String, String)>,
    ) -> (r: Result<Vec<Object>, StorageError>)
        ensures
            exists|now: Timestamp|
                listing_outcome(r) == self@.list_objects(
                    bucket_name@,
                    prefix.deep_view(),
                    delimiter.deep_view(),
                    max_keys,
                    marker.deep_view(),
                    etag_filter.deep_view(),
                    pairs_view(custom_filters@),
                    now,
                ),
    {
        let now = current_time();
        self.list_objects_with_custom_filter_at(
            bucket_name,
            prefix,
            delimiter,
            max_keys,
            marker,
            etag_filter,
            custom_filters,
            now,
        )
    }

    /// Lists the objects of the bucket at the moment `now`, by prefix and
    /// delimiter alone.
    pub fn list_objects_at(
        &self,
        bucket_name: &str,
        prefix: Option<String>,
        delimiter: Option<String>,
        max_keys: Option<u32>,
        marker: Option<String>,
        now: Timestamp,
    ) -> (r: Result<Vec<Object>, StorageError>)
        ensures
            listing_outcome(r) == self@.list_objects(
                bucket_name@,
                prefix.deep_view(),
                delimiter.deep_view(),
                max_keys,
                marker.deep_view(),
                None,
                Seq::empty(),
                now,
            ),
    {
        let none: Vec<(String, String)> = Vec::new();
        proof {
            assert(pairs_view(none@) =~= Seq::<(Seq<char>, Seq<char>)>::empty());
        }
        self.list_objects_with_custom_filter_at(
            bucket_name,
            prefix,
            delimiter,
            max_keys,
            marker,
            None,
            none,
            now,
        )
    }

    /// Lists the objects of the bucket by prefix and delimiter alone;
    /// directories bear the moment the clock shows.
    pub fn list_objects(
        &self,
        bucket_name: &str,
        prefix: Option<String>,
        delimiter: Option<String>,
        max_keys: Option<u32>,
        marker: Option<String>,
    ) -> (r: Result<Vec<Object>, StorageError>)
        ensures
            exists|now: Timestamp|
                listing_outcome(r) == self@.list_objects(
                    bucket_name@,
                    prefix.deep_view(),
                    delimiter.deep_view(),
                    max_keys,
                    marker.deep_view(),
                    None,
                    Seq::empty(),
                    now,
                ),
    {
        let now = current_time();
        self.list_objects_at(bucket_name, prefix, delimiter, max_keys, marker, now)
    }

    /// The metadata of the bucket that has the key `key`, the newest first.
    pub fn list_object_versions(&self, bucket_name: &str, key: &str) -> (r: Vec<ObjectMetadata>)
        ensures
            r.deep_view() == self@.list_object_versions(bucket_name@, key@),
    {
        let entries = self.storage().list_object_metadata(bucket_name);
        let ghost all = entries.deep_view();
        let mut out: Vec<ObjectMetadata> = Vec::new();
        let mut i: usize = 0;
        proof {
            assert(all.take(0).len() == 0);
            assert(out.deep_view() =~= Seq::<crate::models::ObjectMetadataView>::empty());
        }
        while i < entries.len()
            invariant
                i <= entries.len(),
                all == entries.deep_view(),
                out.deep_view() == newest_first(with_key(all.take(i as int), key@)),
            decreases entries.len() - i,
        {
            proof {
                assert(all.take(i + 1).drop_last() =~= all.take(i as int));
                assert(all.take(i + 1).last() == entries[i as int]@);
            }
            if same_text(entries[i].key.as_str(), key) {
                let ghost sorted = out.deep_view();
                proof {
                    let chosen = with_key(all.take(i + 1), key@);
                    assert(chosen == with_key(all.take(i as int), key@).push(entries[i as int]@));
                    assert(chosen.drop_last() =~= with_key(all.take(i as int), key@));
                }
                let mut at: usize = out.len();
                while at > 0 && out[at - 1].created_at.is_before(&entries[i].created_at)
                    invariant
                        at <= out.len(),
                        i < entries.len(),
                        sorted == out.deep_view(),
                        forall|k: int|
                            at <= k < out.len() ==> (#[trigger] sorted[k]).created_at.precedes(
                                entries[i as int]@.created_at,
                            ),
                    decreases at,
                {
                    at -= 1;
                }
                proof {
                    lemma_entered_by_time(sorted, entries[i as int]@, at as int);
                }
                out.insert(at, entries[i].clone());
                proof {
                    assert(out.deep_view() =~= sorted.insert(at as int, entries[i as int]@));
                }
            }
            i += 1;
        }
        proof {
            assert(all.take(all.len() as int) =~= all);
        }
        out
    }

    /// The bytes and the metadata stored under `key` and `version_id`.
    pub fn get_object_version(&self, bucket_name: &str, key: &str, version_id: &str) -> (r: Result<
        (Vec<u8>, ObjectMetadata),
        StorageError,
    >)
        ensures
            data_outcome(r) == self@.get_object_version(bucket_name@, key@, version_id@),
    {
        let object_id = versioned_object_id(bucket_name, key, version_id);
        let metadata = match self.storage().load_object_metadata(bucket_name, object_id.as_str()) {
            Some(metadata) => metadata,
            None => {
                return Err(StorageError::VersionNotFound);
            },
        };
        match self.storage().read_object_data(bucket_name, object_id.as_str()) {
            Some(data) => Ok((data, metadata)),
            None => Err(StorageError::DataMissing),
        }
    }

    /// The metadata of the bucket that refers to the data holder
    /// `object_id`.
    pub fn find_references_to_object(&self, bucket_name: &str, object_id: &str) -> (r: Vec<
        ObjectMetadata,
    >)
        ensures
            r.deep_view() == self@.find_references_to_object(bucket_name@, object_id@),
    {
        let entries = self.storage().list_object_metadata(bucket_name);
        let ghost all = entries.deep_view();
        let mut out: Vec<ObjectMetadata> = Vec::new();
        let mut i: usize = 0;
        proof {
            assert(all.take(0).len() == 0);
            assert(out.deep_view() =~= Seq::<crate::models::ObjectMetadataView>::empty());
        }
        while i < entries.len()
            invariant
                i <= entries.len(),
                all == entries.deep_view(),
                out.deep_view() == referring(all.take(i as int), object_id@),
            decreases entries.len() - i,
        {
            proof {
                assert(all.take(i + 1).drop_last() =~= all.take(i as int));
                assert(all.take(i + 1).last() == entries[i as int]@);
            }
            let refers = match &entries[i].data_holder_id {
                Some(h) => same_text(h.as_str(), object_id),
                None => false,
            };
            if refers {
                let ghost before = out.deep_view();
                out.push(entries[i].clone());
                proof {
                    assert(out.deep_view() =~= before.push(entries[i as int]@));
                }
            }
            i += 1;
        }
        proof {
            assert(all.take(all.len() as int) =~= all);
        }
        out
    }
}

impl ObjectService {
    /// Deletes the object under `key` together with the references that
    /// rely on it: first each reference, in the order in which the bucket
    /// lists them, then the object itself. A delete that fails ends the run.
    pub fn force_delete_object_with_references(&mut self, bucket_name: &str, key: &str) -> (r:
        Result<(), StorageError>)
        ensures
            (final(self)@, unit_outcome(r)) == old(self)@.force_delete_object_with_references(
                bucket_name@,
                key@,
            ),
    {
        let object_id = match self.storage().find_object_id_by_key(bucket_name, key) {
            Some(id) => id,
            None => {
                return Err(
                    StorageError::ObjectNotFound {
                        key: key.to_owned(),
                        bucket: bucket_name.to_owned(),
                    },
                );
            },
        };
        let references = self.find_references_to_object(bucket_name, object_id.as_str());
        let ghost start = self@;
        let ghost keys = keys_in(references.deep_view());
        let mut i: usize = 0;
        proof {
            assert(keys.skip(0) =~= keys);
        }
        while i < references.len()
            invariant
                i <= references.len(),
                start == old(self)@,
                start.keys(bucket_name@).contains_key(key@),
                keys == keys_in(
                    start.find_references_to_object(bucket_name@, start.keys(bucket_name@)[key@]),
                ),
                keys == keys_in(references.deep_view()),
                start.delete_objects(bucket_name@, keys) == self@.delete_objects(
                    bucket_name@,
                    keys.skip(i as int),
                ),
            decreases references.len() - i,
        {
            proof {
                assert(keys.skip(i as int)[0] == references[i as int]@.key);
                assert(keys.skip(i as int).drop_first() =~= keys.skip(i + 1));
            }
            match self.delete_object(bucket_name, references[i].key.as_str()) {
                Ok(_) => {},
                Err(e) => {
                    return Err(e);
                },
            }
            i += 1;
        }
        proof {
            assert(keys.skip(i as int).len() == 0);
        }
        self.delete_object(bucket_name, key)
    }
}

} // verus!
