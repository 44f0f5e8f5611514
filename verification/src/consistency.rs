//! What it means for the indexes and the directory tree to agree, stated for
//! the parts of one bucket, and the changes of those parts under which the
//! agreement lasts.

use crate::effects::{tagged, untagged};
use crate::layout::object_id_of;
use crate::models::ObjectMetadataView;
use crate::rules::counted;
use crate::state::without_first;
use crate::utils::etag_of;
use vstd::prelude::*;

verus! {

/// The metadata files of a bucket.
pub type Sidecars = Map<Seq<char>, ObjectMetadataView>;

/// The key index fits the metadata files: each key is indexed under the
/// identifier of the metadata that names it, and all metadata is indexed
/// under its key.
pub open spec fn keys_fit(sc: Sidecars, ks: Map<Seq<char>, Seq<char>>) -> bool {
    &&& ks.dom().finite()
    &&& forall|k: Seq<char>| #[trigger]
        ks.contains_key(k) ==> sc.contains_key(ks[k]) && sc[ks[k]].key == k
    &&& forall|id: Seq<char>| #[trigger]
        sc.contains_key(id) ==> ks.contains_key(sc[id].key) && ks[sc[id].key] == id
}

/// The entity-tag index fits the metadata files: under each entity tag
/// stand, each once, the identifiers of the metadata with that tag, and at
/// least one.
pub open spec fn etags_fit(sc: Sidecars, es: Map<Seq<char>, Seq<Seq<char>>>) -> bool {
    &&& forall|e: Seq<char>| #[trigger]
        es.contains_key(e) ==> es[e].len() > 0 && es[e].no_duplicates()
    &&& forall|e: Seq<char>, i: int|
        es.contains_key(e) && 0 <= i < es[e].len() ==> sc.contains_key(#[trigger] es[e][i])
            && sc[es[e][i]].etag == e
    &&& forall|id: Seq<char>| #[trigger]
        sc.contains_key(id) ==> es.contains_key(sc[id].etag) && es[sc[id].etag].contains(id)
}

/// The files fit each other: metadata stands under the identifier of its
/// key; an object without a data holder has its bytes, and they have its
/// entity tag and size; a reference names a data holder that has metadata,
/// is no reference itself and has the same entity tag, and counts no
/// references of its own.
pub open spec fn files_fit(bucket: Seq<char>, sc: Sidecars, bl: Map<Seq<char>, Seq<u8>>) -> bool {
    &&& sc.dom().finite()
    &&& forall|id: Seq<char>| #[trigger]
        sc.contains_key(id) ==> id == object_id_of(bucket, sc[id].key) && sc[id].bucket_name
            == bucket
    &&& forall|id: Seq<char>| #[trigger]
        sc.contains_key(id) && sc[id].data_holder_id is None ==> bl.contains_key(id) && etag_of(
            bl[id],
        ) == sc[id].etag && sc[id].size == bl[id].len()
    &&& forall|id: Seq<char>| #[trigger]
        sc.contains_key(id) && sc[id].data_holder_id is Some ==> {
            let h = sc[id].data_holder_id->Some_0;
            &&& sc.contains_key(h)
            &&& sc[h].data_holder_id is None
            &&& sc[h].etag == sc[id].etag
            &&& sc[id].reference_count == 0
        }
}

/// The references to the data holder `holder`.
pub open spec fn referrers(sc: Sidecars, holder: Seq<char>) -> Set<Seq<char>> {
    Set::new(|id: Seq<char>| sc.contains_key(id) && sc[id].data_holder_id == Some(holder))
}

/// The counts fit: each object without a data holder counts exactly the
/// references to it.
pub open spec fn counts_fit(sc: Sidecars) -> bool {
    forall|h: Seq<char>| #[trigger]
        sc.contains_key(h) && sc[h].data_holder_id is None ==> sc[h].reference_count
            == referrers(sc, h).len()
}

/// The parts of one bucket agree.
pub open spec fn bucket_fits(
    bucket: Seq<char>,
    sc: Sidecars,
    bl: Map<Seq<char>, Seq<u8>>,
    ks: Map<Seq<char>, Seq<char>>,
    es: Map<Seq<char>, Seq<Seq<char>>>,
) -> bool {
    &&& keys_fit(sc, ks)
    &&& etags_fit(sc, es)
    &&& files_fit(bucket, sc, bl)
    &&& counts_fit(sc)
}

/// Taking the first occurrence out of a list without repetitions leaves the
/// other elements, each once.
pub proof fn lemma_without_first_distinct(ids: Seq<Seq<char>>, id: Seq<char>)
    requires
        ids.no_duplicates(),
    ensures
        without_first(ids, id).no_duplicates(),
        forall|x: Seq<char>| #[trigger]
            without_first(ids, id).contains(x) <==> ids.contains(x) && x != id,
        forall|i: int|
            0 <= i < without_first(ids, id).len() ==> ids.contains(
                #[trigger] without_first(ids, id)[i],
            ),
        ids.contains(id) ==> without_first(ids, id).len() == ids.len() - 1,
        !ids.contains(id) ==> without_first(ids, id) == ids,
    decreases ids.len(),
{
    let out = without_first(ids, id);
    if ids.len() == 0 {
    } else if ids[0] == id {
        let rest = ids.drop_first();
        assert forall|x: Seq<char>| #[trigger] out.contains(x) <==> ids.contains(x) && x
            != id by {
            if out.contains(x) {
                let j = choose|j: int| 0 <= j < rest.len() && rest[j] == x;
                assert(ids[j + 1] == x);
            }
            if ids.contains(x) && x != id {
                let j = choose|j: int| 0 <= j < ids.len() && ids[j] == x;
                assert(rest[j - 1] == x);
            }
        }
        assert forall|i: int| 0 <= i < out.len() implies ids.contains(#[trigger] out[i]) by {
            assert(ids[i + 1] == out[i]);
        }
    } else {
        let rest = ids.drop_first();
        lemma_without_first_distinct(rest, id);
        let tail = without_first(rest, id);
        assert(out == seq![ids[0]] + tail);
        assert forall|x: Seq<char>| #[trigger] out.contains(x) <==> ids.contains(x) && x
            != id by {
            if out.contains(x) {
                let j = choose|j: int| 0 <= j < out.len() && out[j] == x;
                if j == 0 {
                    assert(ids[0] == x);
                } else {
                    assert(tail[j - 1] == x);
                    assert(tail.contains(x));
                    let m = choose|m: int| 0 <= m < rest.len() && rest[m] == x;
                    assert(ids[m + 1] == x);
                }
            }
            if ids.contains(x) && x != id {
                let j = choose|j: int| 0 <= j < ids.len() && ids[j] == x;
                if j == 0 {
                    assert(out[0] == x);
                } else {
                    assert(rest[j - 1] == x);
                    assert(tail.contains(x));
                    let m = choose|m: int| 0 <= m < tail.len() && tail[m] == x;
                    assert(out[m + 1] == x);
                }
            }
        }
        assert forall|i: int, j: int| 0 <= i < out.len() && 0 <= j < out.len() && i != j implies out[i]
            != out[j] by {
            if i == 0 {
                assert(tail[j - 1] == out[j]);
                assert(tail.contains(out[j]));
                if out[j] == ids[0] {
                    let m = choose|m: int| 0 <= m < rest.len() && rest[m] == out[j];
                    assert(ids[m + 1] == ids[0]);
                }
            } else if j == 0 {
                assert(tail[i - 1] == out[i]);
                assert(tail.contains(out[i]));
                if out[i] == ids[0] {
                    let m = choose|m: int| 0 <= m < rest.len() && rest[m] == out[i];
                    assert(ids[m + 1] == ids[0]);
                }
            } else {
                assert(tail[i - 1] == out[i]);
                assert(tail[j - 1] == out[j]);
            }
        }
        assert forall|i: int| 0 <= i < out.len() implies ids.contains(#[trigger] out[i]) by {
            assert(out.contains(out[i]));
        }
        if ids.contains(id) {
            let j = choose|j: int| 0 <= j < ids.len() && ids[j] == id;
            assert(rest[j - 1] == id);
        } else {
            assert forall|m: int| 0 <= m < rest.len() implies rest[m] != id by {
                assert(ids[m + 1] == rest[m]);
            }
            assert(out =~= ids);
        }
    }
}

/// The key index still fits when an object goes with its key.
pub proof fn lemma_keys_fit_remove(sc: Sidecars, ks: Map<Seq<char>, Seq<char>>, id: Seq<char>)
    requires
        keys_fit(sc, ks),
        sc.contains_key(id),
    ensures
        keys_fit(sc.remove(id), ks.remove(sc[id].key)),
{
    let key = sc[id].key;
    let sc2 = sc.remove(id);
    let ks2 = ks.remove(key);
    assert forall|k: Seq<char>| #[trigger] ks2.contains_key(k) implies sc2.contains_key(ks2[k])
        && sc2[ks2[k]].key == k by {
        assert(ks.contains_key(k));
    }
    assert forall|x: Seq<char>| #[trigger] sc2.contains_key(x) implies ks2.contains_key(
        sc2[x].key,
    ) && ks2[sc2[x].key] == x by {
        assert(sc.contains_key(x));
    }
}

/// The key index still fits when an object comes whose place and key were
/// free.
pub proof fn lemma_keys_fit_insert(
    sc: Sidecars,
    ks: Map<Seq<char>, Seq<char>>,
    id: Seq<char>,
    metadata: ObjectMetadataView,
)
    requires
        keys_fit(sc, ks),
        !sc.contains_key(id),
        !ks.contains_key(metadata.key),
    ensures
        keys_fit(sc.insert(id, metadata), ks.insert(metadata.key, id)),
{
    let sc2 = sc.insert(id, metadata);
    let ks2 = ks.insert(metadata.key, id);
    assert forall|k: Seq<char>| #[trigger] ks2.contains_key(k) implies sc2.contains_key(ks2[k])
        && sc2[ks2[k]].key == k by {
        if k != metadata.key {
            assert(ks.contains_key(k));
        }
    }
    assert forall|x: Seq<char>| #[trigger] sc2.contains_key(x) implies ks2.contains_key(
        sc2[x].key,
    ) && ks2[sc2[x].key] == x by {
        if x != id {
            assert(sc.contains_key(x));
        }
    }
}

/// The key index still fits when metadata changes and keeps its key.
pub proof fn lemma_keys_fit_change(
    sc: Sidecars,
    ks: Map<Seq<char>, Seq<char>>,
    id: Seq<char>,
    metadata: ObjectMetadataView,
)
    requires
        keys_fit(sc, ks),
        sc.contains_key(id),
        metadata.key == sc[id].key,
    ensures
        keys_fit(sc.insert(id, metadata), ks),
{
    let sc2 = sc.insert(id, metadata);
    assert forall|k: Seq<char>| #[trigger] ks.contains_key(k) implies sc2.contains_key(ks[k])
        && sc2[ks[k]].key == k by {}
    assert forall|x: Seq<char>| #[trigger] sc2.contains_key(x) implies ks.contains_key(
        sc2[x].key,
    ) && ks[sc2[x].key] == x by {
        assert(sc.contains_key(x));
    }
}

/// The entity-tag index still fits when an object goes with its entry.
pub proof fn lemma_etags_fit_remove(
    sc: Sidecars,
    es: Map<Seq<char>, Seq<Seq<char>>>,
    id: Seq<char>,
)
    requires
        etags_fit(sc, es),
        sc.contains_key(id),
    ensures
        etags_fit(sc.remove(id), untagged(es, sc[id].etag, id)),
{
    let etag = sc[id].etag;
    let sc2 = sc.remove(id);
    let es2 = untagged(es, etag, id);
    assert(es.contains_key(etag));
    lemma_without_first_distinct(es[etag], id);
    let rest = without_first(es[etag], id);
    assert forall|e: Seq<char>| #[trigger] es2.contains_key(e) implies es2[e].len() > 0
        && es2[e].no_duplicates() by {
        if e != etag {
            assert(es.contains_key(e));
        }
    }
    assert forall|e: Seq<char>, i: int| es2.contains_key(e) && 0 <= i < es2[e].len() implies sc2.contains_key(
    #[trigger] es2[e][i]) && sc2[es2[e][i]].etag == e by {
        if e != etag {
            assert(es.contains_key(e));
            assert(sc.contains_key(es[e][i]) && sc[es[e][i]].etag == e);
        } else {
            assert(rest.contains(rest[i]));
            let j = choose|j: int| 0 <= j < es[etag].len() && es[etag][j] == rest[i];
            assert(sc.contains_key(es[etag][j]) && sc[es[etag][j]].etag == etag);
        }
    }
    assert forall|x: Seq<char>| #[trigger] sc2.contains_key(x) implies es2.contains_key(
        sc2[x].etag,
    ) && es2[sc2[x].etag].contains(x) by {
        assert(sc.contains_key(x));
        if sc[x].etag == etag {
            assert(rest.contains(x));
        }
    }
}

/// The entity-tag index still fits when an object comes whose place was free
/// and is entered under its entity tag.
pub proof fn lemma_etags_fit_insert(
    sc: Sidecars,
    es: Map<Seq<char>, Seq<Seq<char>>>,
    id: Seq<char>,
    metadata: ObjectMetadataView,
)
    requires
        etags_fit(sc, es),
        !sc.contains_key(id),
    ensures
        etags_fit(sc.insert(id, metadata), tagged(es, metadata.etag, id)),
{
    let etag = metadata.etag;
    let sc2 = sc.insert(id, metadata);
    let es2 = tagged(es, etag, id);
    let before = if es.contains_key(etag) {
        es[etag]
    } else {
        Seq::<Seq<char>>::empty()
    };
    assert(es2[etag] == before.push(id));
    assert forall|i: int| 0 <= i < before.len() implies before[i] != id by {
        assert(sc.contains_key(es[etag][i]));
    }
    assert forall|e: Seq<char>| #[trigger] es2.contains_key(e) implies es2[e].len() > 0
        && es2[e].no_duplicates() by {
        if e != etag {
            assert(es.contains_key(e));
        }
    }
    assert forall|e: Seq<char>, i: int| es2.contains_key(e) && 0 <= i < es2[e].len() implies sc2.contains_key(
    #[trigger] es2[e][i]) && sc2[es2[e][i]].etag == e by {
        if e != etag {
            assert(es.contains_key(e));
            assert(sc.contains_key(es[e][i]) && sc[es[e][i]].etag == e);
        } else if i < before.len() {
            assert(sc.contains_key(es[etag][i]) && sc[es[etag][i]].etag == etag);
        }
    }
    assert forall|x: Seq<char>| #[trigger] sc2.contains_key(x) implies es2.contains_key(
        sc2[x].etag,
    ) && es2[sc2[x].etag].contains(x) by {
        if x == id {
            assert(es2[etag][before.len() as int] == id);
        } else {
            assert(sc.contains_key(x));
            if sc[x].etag == etag {
                let j = choose|j: int| 0 <= j < es[etag].len() && es[etag][j] == x;
                assert(es2[etag][j] == x);
            }
        }
    }
}

/// The entity-tag index still fits when metadata changes and keeps its
/// entity tag.
pub proof fn lemma_etags_fit_change(
    sc: Sidecars,
    es: Map<Seq<char>, Seq<Seq<char>>>,
    id: Seq<char>,
    metadata: ObjectMetadataView,
)
    requires
        etags_fit(sc, es),
        sc.contains_key(id),
        metadata.etag == sc[id].etag,
    ensures
        etags_fit(sc.insert(id, metadata), es),
{
    let sc2 = sc.insert(id, metadata);
    assert forall|e: Seq<char>, i: int| es.contains_key(e) && 0 <= i < es[e].len() implies sc2.contains_key(
    #[trigger] es[e][i]) && sc2[es[e][i]].etag == e by {
        assert(sc.contains_key(es[e][i]) && sc[es[e][i]].etag == e);
    }
    assert forall|x: Seq<char>| #[trigger] sc2.contains_key(x) implies es.contains_key(
        sc2[x].etag,
    ) && es[sc2[x].etag].contains(x) by {
        assert(sc.contains_key(x));
    }
}

/// The references to a holder are among the metadata, so they are finitely
/// many where the metadata files are.
pub proof fn lemma_referrers_finite(sc: Sidecars, holder: Seq<char>)
    requires
        sc.dom().finite(),
    ensures
        referrers(sc, holder).finite(),
{
    assert(referrers(sc, holder).subset_of(sc.dom()));
    vstd::set_lib::lemma_set_subset_finite(sc.dom(), referrers(sc, holder));
}

/// The files and the counts still fit when metadata changes in nothing but
/// its content type, the user's metadata and the time of its last change.
pub proof fn lemma_files_fit_change(
    bucket: Seq<char>,
    sc: Sidecars,
    bl: Map<Seq<char>, Seq<u8>>,
    id: Seq<char>,
    metadata: ObjectMetadataView,
)
    requires
        files_fit(bucket, sc, bl),
        counts_fit(sc),
        sc.contains_key(id),
        metadata.key == sc[id].key,
        metadata.bucket_name == sc[id].bucket_name,
        metadata.etag == sc[id].etag,
        metadata.size == sc[id].size,
        metadata.data_holder_id == sc[id].data_holder_id,
        metadata.reference_count == sc[id].reference_count,
    ensures
        files_fit(bucket, sc.insert(id, metadata), bl),
        counts_fit(sc.insert(id, metadata)),
{
    let sc2 = sc.insert(id, metadata);
    assert(sc2.dom() =~= sc.dom());
    assert forall|x: Seq<char>| #[trigger] sc2.contains_key(x) implies x == object_id_of(
        bucket,
        sc2[x].key,
    ) && sc2[x].bucket_name == bucket by {
        assert(sc.contains_key(x));
    }
    assert forall|x: Seq<char>| #[trigger]
        sc2.contains_key(x) && sc2[x].data_holder_id is None implies bl.contains_key(x)
        && etag_of(bl[x]) == sc2[x].etag && sc2[x].size == bl[x].len() by {
        assert(sc.contains_key(x));
    }
    assert forall|x: Seq<char>| #[trigger]
        sc2.contains_key(x) && sc2[x].data_holder_id is Some implies ({
        let h = sc2[x].data_holder_id->Some_0;
        &&& sc2.contains_key(h)
        &&& sc2[h].data_holder_id is None
        &&& sc2[h].etag == sc2[x].etag
        &&& sc2[x].reference_count == 0
    }) by {
        assert(sc.contains_key(x));
        let h = sc[x].data_holder_id->Some_0;
        assert(sc.contains_key(h));
    }
    assert forall|h: Seq<char>| #[trigger]
        sc2.contains_key(h) && sc2[h].data_holder_id is None implies sc2[h].reference_count
        == referrers(sc2, h).len() by {
        assert(sc.contains_key(h));
        assert(referrers(sc2, h) =~= referrers(sc, h));
    }
}

/// The files and the counts still fit when a reference goes and its data
/// holder counts one reference less. The holder did count one at least.
pub proof fn lemma_files_fit_remove_reference(
    bucket: Seq<char>,
    sc: Sidecars,
    bl: Map<Seq<char>, Seq<u8>>,
    id: Seq<char>,
)
    requires
        files_fit(bucket, sc, bl),
        counts_fit(sc),
        sc.contains_key(id),
        sc[id].data_holder_id is Some,
    ensures
        ({
            let h = sc[id].data_holder_id->Some_0;
            let sc2 = sc.remove(id).insert(
                h,
                counted(sc[h], (sc[h].reference_count - 1) as u32),
            );
            &&& h != id
            &&& sc.contains_key(h)
            &&& sc[h].reference_count > 0
            &&& files_fit(bucket, sc2, bl)
            &&& counts_fit(sc2)
        }),
{
    let h = sc[id].data_holder_id->Some_0;
    assert(sc.contains_key(h) && sc[h].data_holder_id is None);
    lemma_referrers_finite(sc, h);
    assert(referrers(sc, h).contains(id));
    let held = counted(sc[h], (sc[h].reference_count - 1) as u32);
    let sc2 = sc.remove(id).insert(h, held);
    assert(sc2.dom() =~= sc.dom().remove(id));
    assert forall|x: Seq<char>| #[trigger] sc2.contains_key(x) implies x == object_id_of(
        bucket,
        sc2[x].key,
    ) && sc2[x].bucket_name == bucket by {
        assert(sc.contains_key(x));
    }
    assert forall|x: Seq<char>| #[trigger]
        sc2.contains_key(x) && sc2[x].data_holder_id is None implies bl.contains_key(x)
        && etag_of(bl[x]) == sc2[x].etag && sc2[x].size == bl[x].len() by {
        assert(sc.contains_key(x));
    }
    assert forall|x: Seq<char>| #[trigger]
        sc2.contains_key(x) && sc2[x].data_holder_id is Some implies ({
        let g = sc2[x].data_holder_id->Some_0;
        &&& sc2.contains_key(g)
        &&& sc2[g].data_holder_id is None
        &&& sc2[g].etag == sc2[x].etag
        &&& sc2[x].reference_count == 0
    }) by {
        assert(sc.contains_key(x));
        let g = sc[x].data_holder_id->Some_0;
        assert(sc.contains_key(g));
    }
    assert forall|g: Seq<char>| #[trigger]
        sc2.contains_key(g) && sc2[g].data_holder_id is None implies sc2[g].reference_count
        == referrers(sc2, g).len() by {
        assert(sc.contains_key(g));
        lemma_referrers_finite(sc, g);
        if g == h {
            assert(referrers(sc2, g) =~= referrers(sc, g).remove(id));
        } else {
            assert(referrers(sc2, g) =~= referrers(sc, g));
        }
    }
}

/// The files and the counts still fit when an object goes that holds its own
/// bytes and that nothing refers to.
pub proof fn lemma_files_fit_remove_holder(
    bucket: Seq<char>,
    sc: Sidecars,
    bl: Map<Seq<char>, Seq<u8>>,
    id: Seq<char>,
)
    requires
        files_fit(bucket, sc, bl),
        counts_fit(sc),
        sc.contains_key(id),
        sc[id].data_holder_id is None,
        sc[id].reference_count == 0,
    ensures
        files_fit(bucket, sc.remove(id), bl.remove(id)),
        counts_fit(sc.remove(id)),
        referrers(sc, id) == Set::<Seq<char>>::empty(),
{
    lemma_referrers_finite(sc, id);
    referrers(sc, id).lemma_len0_is_empty();
    assert(referrers(sc, id) =~= Set::<Seq<char>>::empty());
    let sc2 = sc.remove(id);
    let bl2 = bl.remove(id);
    assert(sc2.dom() =~= sc.dom().remove(id));
    assert forall|x: Seq<char>| #[trigger] sc2.contains_key(x) implies x == object_id_of(
        bucket,
        sc2[x].key,
    ) && sc2[x].bucket_name == bucket by {
        assert(sc.contains_key(x));
    }
    assert forall|x: Seq<char>| #[trigger]
        sc2.contains_key(x) && sc2[x].data_holder_id is None implies bl2.contains_key(x)
        && etag_of(bl2[x]) == sc2[x].etag && sc2[x].size == bl2[x].len() by {
        assert(sc.contains_key(x));
    }
    assert forall|x: Seq<char>| #[trigger]
        sc2.contains_key(x) && sc2[x].data_holder_id is Some implies ({
        let g = sc2[x].data_holder_id->Some_0;
        &&& sc2.contains_key(g)
        &&& sc2[g].data_holder_id is None
        &&& sc2[g].etag == sc2[x].etag
        &&& sc2[x].reference_count == 0
    }) by {
        assert(sc.contains_key(x));
        let g = sc[x].data_holder_id->Some_0;
        assert(sc.contains_key(g));
        if g == id {
            assert(referrers(sc, id).contains(x));
        }
    }
    assert forall|g: Seq<char>| #[trigger]
        sc2.contains_key(g) && sc2[g].data_holder_id is None implies sc2[g].reference_count
        == referrers(sc2, g).len() by {
        assert(sc.contains_key(g));
        assert(referrers(sc2, g) =~= referrers(sc, g));
    }
}

/// The files and the counts still fit when an object comes into a free
/// place with its own bytes.
pub proof fn lemma_files_fit_insert_holder(
    bucket: Seq<char>,
    sc: Sidecars,
    bl: Map<Seq<char>, Seq<u8>>,
    id: Seq<char>,
    metadata: ObjectMetadataView,
    data: Seq<u8>,
)
    requires
        files_fit(bucket, sc, bl),
        counts_fit(sc),
        !sc.contains_key(id),
        id == object_id_of(bucket, metadata.key),
        metadata.bucket_name == bucket,
        metadata.data_holder_id is None,
        metadata.reference_count == 0,
        metadata.etag == etag_of(data),
        metadata.size == data.len(),
    ensures
        files_fit(bucket, sc.insert(id, metadata), bl.insert(id, data)),
        counts_fit(sc.insert(id, metadata)),
{
    let sc2 = sc.insert(id, metadata);
    let bl2 = bl.insert(id, data);
    assert(sc2.dom() =~= sc.dom().insert(id));
    assert forall|x: Seq<char>| #[trigger] sc2.contains_key(x) implies x == object_id_of(
        bucket,
        sc2[x].key,
    ) && sc2[x].bucket_name == bucket by {
        if x != id {
            assert(sc.contains_key(x));
        }
    }
    assert forall|x: Seq<char>| #[trigger]
        sc2.contains_key(x) && sc2[x].data_holder_id is None implies bl2.contains_key(x)
        && etag_of(bl2[x]) == sc2[x].etag && sc2[x].size == bl2[x].len() by {
        if x != id {
            assert(sc.contains_key(x));
        }
    }
    assert forall|x: Seq<char>| #[trigger]
        sc2.contains_key(x) && sc2[x].data_holder_id is Some implies ({
        let g = sc2[x].data_holder_id->Some_0;
        &&& sc2.contains_key(g)
        &&& sc2[g].data_holder_id is None
        &&& sc2[g].etag == sc2[x].etag
        &&& sc2[x].reference_count == 0
    }) by {
        assert(sc.contains_key(x));
        let g = sc[x].data_holder_id->Some_0;
        assert(sc.contains_key(g));
    }
    assert forall|g: Seq<char>| #[trigger]
        sc2.contains_key(g) && sc2[g].data_holder_id is None implies sc2[g].reference_count
        == referrers(sc2, g).len() by {
        if g == id {
            assert forall|x: Seq<char>| !referrers(sc2, id).contains(x) by {
                if sc.contains_key(x) && sc[x].data_holder_id == Some(id) {
                    assert(sc.contains_key(sc[x].data_holder_id->Some_0));
                }
            }
            assert(referrers(sc2, id) =~= Set::<Seq<char>>::empty());
        } else {
            assert(sc.contains_key(g));
            assert(referrers(sc2, g) =~= referrers(sc, g));
        }
    }
}

/// The files and the counts still fit when a reference comes into a free
/// place and the data holder it names, which has the same entity tag, counts
/// one reference more.
pub proof fn lemma_files_fit_insert_reference(
    bucket: Seq<char>,
    sc: Sidecars,
    bl: Map<Seq<char>, Seq<u8>>,
    id: Seq<char>,
    metadata: ObjectMetadataView,
    holder: Seq<char>,
)
    requires
        files_fit(bucket, sc, bl),
        counts_fit(sc),
        !sc.contains_key(id),
        id == object_id_of(bucket, metadata.key),
        metadata.bucket_name == bucket,
        metadata.data_holder_id == Some(holder),
        metadata.reference_count == 0,
        sc.contains_key(holder),
        sc[holder].data_holder_id is None,
        sc[holder].etag == metadata.etag,
        sc[holder].reference_count < u32::MAX,
    ensures
        ({
            let sc2 = sc.insert(
                holder,
                counted(sc[holder], (sc[holder].reference_count + 1) as u32),
            ).insert(id, metadata);
            &&& files_fit(bucket, sc2, bl)
            &&& counts_fit(sc2)
        }),
{
    let held = counted(sc[holder], (sc[holder].reference_count + 1) as u32);
    let sc2 = sc.insert(holder, held).insert(id, metadata);
    assert(sc2.dom() =~= sc.dom().insert(id));
    assert forall|x: Seq<char>| #[trigger] sc2.contains_key(x) implies x == object_id_of(
        bucket,
        sc2[x].key,
    ) && sc2[x].bucket_name == bucket by {
        if x != id {
            assert(sc.contains_key(x));
        }
    }
    assert forall|x: Seq<char>| #[trigger]
        sc2.contains_key(x) && sc2[x].data_holder_id is None implies bl.contains_key(x)
        && etag_of(bl[x]) == sc2[x].etag && sc2[x].size == bl[x].len() by {
        assert(sc.contains_key(x));
    }
    assert forall|x: Seq<char>| #[trigger]
        sc2.contains_key(x) && sc2[x].data_holder_id is Some implies ({
        let g = sc2[x].data_holder_id->Some_0;
        &&& sc2.contains_key(g)
        &&& sc2[g].data_holder_id is None
        &&& sc2[g].etag == sc2[x].etag
        &&& sc2[x].reference_count == 0
    }) by {
        if x != id {
            assert(sc.contains_key(x));
            let g = sc[x].data_holder_id->Some_0;
            assert(sc.contains_key(g));
        }
    }
    assert forall|g: Seq<char>| #[trigger]
        sc2.contains_key(g) && sc2[g].data_holder_id is None implies sc2[g].reference_count
        == referrers(sc2, g).len() by {
        assert(sc.contains_key(g));
        lemma_referrers_finite(sc, g);
        if g == holder {
            assert(!referrers(sc, g).contains(id));
            assert(referrers(sc2, g) =~= referrers(sc, g).insert(id));
        } else {
            assert(referrers(sc2, g) =~= referrers(sc, g));
        }
    }
}

} // verus!
