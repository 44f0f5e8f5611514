//! What a store is made of when it starts over a directory tree that it finds:
//! the registry and both indexes are built from the tree alone.

use crate::layout::object_id_of;
use crate::listing::listing;
use crate::models::{BucketView, ObjectMetadataView, Timestamp};
use crate::state::{DirView, StoreView};
use vstd::prelude::*;

verus! {

/// A name that begins with a dot is reserved and names no bucket.
pub open spec fn is_system_name(name: Seq<char>) -> bool {
    name.len() > 0 && name[0] == '.'
}

/// The key index that the metadata files `ids` give: each key they name is
/// indexed under its identifier.
pub open spec fn key_index_from(
    bucket: Seq<char>,
    sc: Map<Seq<char>, ObjectMetadataView>,
    ids: Seq<Seq<char>>,
) -> Map<Seq<char>, Seq<char>> {
    Map::new(
        |k: Seq<char>| exists|j: int| 0 <= j < ids.len() && sc[#[trigger] ids[j]].key == k,
        |k: Seq<char>| object_id_of(bucket, k),
    )
}

/// The identifiers that the metadata files `ids` give under `etag`: for each
/// file with that entity tag, in order, the identifier of the key it names.
pub open spec fn ids_tagged(
    bucket: Seq<char>,
    sc: Map<Seq<char>, ObjectMetadataView>,
    ids: Seq<Seq<char>>,
    etag: Seq<char>,
) -> Seq<Seq<char>>
    decreases ids.len(),
{
    if ids.len() == 0 {
        Seq::empty()
    } else {
        let before = ids_tagged(bucket, sc, ids.drop_last(), etag);
        if sc[ids.last()].etag == etag {
            before.push(object_id_of(bucket, sc[ids.last()].key))
        } else {
            before
        }
    }
}

/// The entity-tag index that the metadata files `ids` give.
pub open spec fn etag_index_from(
    bucket: Seq<char>,
    sc: Map<Seq<char>, ObjectMetadataView>,
    ids: Seq<Seq<char>>,
) -> Map<Seq<char>, Seq<Seq<char>>> {
    Map::new(
        |e: Seq<char>| exists|j: int| 0 <= j < ids.len() && sc[#[trigger] ids[j]].etag == e,
        |e: Seq<char>| ids_tagged(bucket, sc, ids, e),
    )
}

/// The key index of a bucket, built from its metadata files.
pub open spec fn key_index_of(bucket: Seq<char>, sc: Map<Seq<char>, ObjectMetadataView>) -> Map<
    Seq<char>,
    Seq<char>,
> {
    key_index_from(bucket, sc, listing(sc.dom()))
}

/// The entity-tag index of a bucket, built from its metadata files taken in
/// the order of their names.
pub open spec fn etag_index_of(bucket: Seq<char>, sc: Map<Seq<char>, ObjectMetadataView>) -> Map<
    Seq<char>,
    Seq<Seq<char>>,
> {
    etag_index_from(bucket, sc, listing(sc.dom()))
}

/// The directories that a scan takes for buckets: all but the reserved ones.
pub open spec fn scanned(disk: Map<Seq<char>, DirView>, bucket: Seq<char>) -> bool {
    disk.contains_key(bucket) && !is_system_name(bucket)
}

/// The registry built from a tree: each bucket's own description, or, for a
/// directory without one, a bucket of the directory's name created at `now`.
pub open spec fn loaded_buckets(disk: Map<Seq<char>, DirView>, now: Timestamp) -> Map<
    Seq<char>,
    BucketView,
> {
    Map::new(
        |b: Seq<char>| scanned(disk, b),
        |b: Seq<char>|
            match disk[b].bucket_file {
                Some(described) => described,
                None => BucketView::fresh(b, now),
            },
    )
}

/// The key index built from a tree; a bucket without metadata files has no
/// entry.
pub open spec fn built_object_index(disk: Map<Seq<char>, DirView>) -> Map<
    Seq<char>,
    Map<Seq<char>, Seq<char>>,
> {
    Map::new(
        |b: Seq<char>|
            scanned(disk, b) && key_index_of(b, disk[b].sidecars) != Map::<
                Seq<char>,
                Seq<char>,
            >::empty(),
        |b: Seq<char>| key_index_of(b, disk[b].sidecars),
    )
}

/// The entity-tag index built from a tree; a bucket without metadata files
/// has no entry.
pub open spec fn built_etag_index(disk: Map<Seq<char>, DirView>) -> Map<
    Seq<char>,
    Map<Seq<char>, Seq<Seq<char>>>,
> {
    Map::new(
        |b: Seq<char>|
            scanned(disk, b) && etag_index_of(b, disk[b].sidecars) != Map::<
                Seq<char>,
                Seq<Seq<char>>,
            >::empty(),
        |b: Seq<char>| etag_index_of(b, disk[b].sidecars),
    )
}

impl StoreView {
    /// The store that starts at `now` over the tree `disk`.
    pub open spec fn restored(
        data_dir: Seq<char>,
        disk: Map<Seq<char>, DirView>,
        now: Timestamp,
    ) -> StoreView {
        StoreView {
            data_dir,
            buckets: loaded_buckets(disk, now),
            object_index: built_object_index(disk),
            etag_index: built_etag_index(disk),
            disk,
            journal: Seq::empty(),
        }
    }

    /// The key index is built anew from the tree.
    pub open spec fn rebuild_object_index(self) -> StoreView {
        StoreView { object_index: built_object_index(self.disk), ..self }
    }
}

/// Where none of the files has the entity tag, none is given under it.
pub proof fn lemma_ids_tagged_none(
    bucket: Seq<char>,
    sc: Map<Seq<char>, ObjectMetadataView>,
    ids: Seq<Seq<char>>,
    etag: Seq<char>,
)
    requires
        forall|j: int| 0 <= j < ids.len() ==> sc[#[trigger] ids[j]].etag != etag,
    ensures
        ids_tagged(bucket, sc, ids, etag) == Seq::<Seq<char>>::empty(),
    decreases ids.len(),
{
    if ids.len() > 0 {
        assert(sc[ids[ids.len() - 1]].etag != etag);
        assert forall|j: int| 0 <= j < ids.drop_last().len() implies sc[#[trigger] ids.drop_last()[j]].etag
            != etag by {
            assert(ids.drop_last()[j] == ids[j]);
        }
        lemma_ids_tagged_none(bucket, sc, ids.drop_last(), etag);
    }
}

/// One file more gives its key one entry more in the key index.
pub proof fn lemma_key_index_step(
    bucket: Seq<char>,
    sc: Map<Seq<char>, ObjectMetadataView>,
    ids: Seq<Seq<char>>,
    i: int,
)
    requires
        0 <= i < ids.len(),
    ensures
        key_index_from(bucket, sc, ids.take(i + 1)) == key_index_from(
            bucket,
            sc,
            ids.take(i),
        ).insert(sc[ids[i]].key, object_id_of(bucket, sc[ids[i]].key)),
{
    let before = ids.take(i);
    let next = ids.take(i + 1);
    let a = key_index_from(bucket, sc, next);
    let b = key_index_from(bucket, sc, before).insert(
        sc[ids[i]].key,
        object_id_of(bucket, sc[ids[i]].key),
    );
    assert forall|k: Seq<char>| a.contains_key(k) <==> b.contains_key(k) by {
        if a.contains_key(k) {
            let j = choose|j: int| 0 <= j < next.len() && sc[#[trigger] next[j]].key == k;
            if j < i {
                assert(before[j] == next[j]);
            }
        }
        if b.contains_key(k) {
            if k == sc[ids[i]].key {
                assert(next[i] == ids[i]);
            } else {
                let j = choose|j: int| 0 <= j < before.len() && sc[#[trigger] before[j]].key == k;
                assert(next[j] == before[j]);
            }
        }
    }
    assert(a =~= b);
}

/// One file more gives its entity tag one identifier more in the entity-tag
/// index.
pub proof fn lemma_etag_index_step(
    bucket: Seq<char>,
    sc: Map<Seq<char>, ObjectMetadataView>,
    ids: Seq<Seq<char>>,
    i: int,
)
    requires
        0 <= i < ids.len(),
    ensures
        ({
            let before = etag_index_from(bucket, sc, ids.take(i));
            let etag = sc[ids[i]].etag;
            let listed = if before.contains_key(etag) {
                before[etag]
            } else {
                Seq::<Seq<char>>::empty()
            };
            etag_index_from(bucket, sc, ids.take(i + 1)) == before.insert(
                etag,
                listed.push(object_id_of(bucket, sc[ids[i]].key)),
            )
        }),
{
    let prefix = ids.take(i);
    let next = ids.take(i + 1);
    let before = etag_index_from(bucket, sc, prefix);
    let etag = sc[ids[i]].etag;
    let listed = if before.contains_key(etag) {
        before[etag]
    } else {
        Seq::<Seq<char>>::empty()
    };
    let a = etag_index_from(bucket, sc, next);
    let b = before.insert(etag, listed.push(object_id_of(bucket, sc[ids[i]].key)));
    assert(next.drop_last() =~= prefix);
    assert(next.last() == ids[i]);
    assert forall|e: Seq<char>| a.contains_key(e) <==> b.contains_key(e) by {
        if a.contains_key(e) {
            let j = choose|j: int| 0 <= j < next.len() && sc[#[trigger] next[j]].etag == e;
            if j < i {
                assert(prefix[j] == next[j]);
            }
        }
        if b.contains_key(e) {
            if e == etag {
                assert(next[i] == ids[i]);
            } else {
                let j = choose|j: int| 0 <= j < prefix.len() && sc[#[trigger] prefix[j]].etag == e;
                assert(next[j] == prefix[j]);
            }
        }
    }
    assert forall|e: Seq<char>| a.contains_key(e) implies a[e] == b[e] by {
        if e == etag {
            if !before.contains_key(etag) {
                lemma_ids_tagged_none(bucket, sc, prefix, etag);
            }
        }
    }
    assert(a =~= b);
}

} // verus!
