//! The storage service: the registry of buckets, the two indexes and the
//! picture of the directory tree, with the elementary steps on each.

use crate::dict::{keys_of, lemma_map_of_ends, lemma_map_of_len, lemma_map_of_step, map_of, Dict};
use crate::disk::{copy_bytes, lemma_bytes_deep_view, BucketDir, DiskOp};
use crate::layout::{
    bucket_dir, bucket_metadata_path, object_data_path, object_metadata_path, sidecar_name,
    sidecar_name_of,
};
use crate::listing::{
    lemma_listing, lemma_page_within, lemma_sidecar_name_injective, listing, lists, page_of,
    sorted_positions, texts_of,
};
use crate::layout::{generate_object_id, object_id_of};
use crate::models::{current_time, Bucket, ObjectMetadata, Timestamp};
use crate::restart::{
    built_etag_index, built_object_index, etag_index_from, etag_index_of, is_system_name,
    key_index_from, key_index_of, lemma_etag_index_step, lemma_key_index_step, loaded_buckets,
};
use crate::state::{without_first, DiskOpView, StoreView};
use crate::text::{chars_of, same_text, text_lt};
use vstd::prelude::*;
use vstd::string::*;

verus! {

/// Where `id` first stands in `ids`, it is at `i`; taking it out is removing
/// position `i`. Where it stands nowhere, nothing is taken out.
pub proof fn lemma_without_first(ids: Seq<Seq<char>>, id: Seq<char>, i: int)
    requires
        0 <= i <= ids.len(),
        forall|j: int| 0 <= j < i ==> ids[j] != id,
        i < ids.len() ==> ids[i] == id,
    ensures
        without_first(ids, id) == if i < ids.len() {
            ids.remove(i)
        } else {
            ids
        },
    decreases ids.len(),
{
    if ids.len() == 0 {
    } else if i == 0 {
        assert(ids.remove(0) =~= ids.drop_first());
    } else {
        let rest = ids.drop_first();
        lemma_without_first(rest, id, i - 1);
        if i < ids.len() {
            assert(seq![ids[0]] + rest.remove(i - 1) =~= ids.remove(i));
        } else {
            assert(seq![ids[0]] + rest =~= ids);
        }
    }
}

/// Takes the first occurrence of `id` out of `ids`.
pub fn remove_first_text(ids: &mut Vec<String>, id: &str)
    ensures
        final(ids).deep_view() == without_first(old(ids).deep_view(), id@),
{
    let mut i: usize = 0;
    while i < ids.len()
        invariant
            i <= ids.len(),
            *ids == *old(ids),
            forall|j: int| 0 <= j < i ==> ids.deep_view()[j] != id@,
        decreases ids.len() - i,
    {
        if same_text(ids[i].as_str(), id) {
            proof {
                lemma_without_first(ids.deep_view(), id@, i as int);
            }
            let ghost before = ids.deep_view();
            ids.remove(i);
            proof {
                assert(ids.deep_view() =~= before.remove(i as int));
            }
            return ;
        }
        i += 1;
    }
    proof {
        lemma_without_first(ids.deep_view(), id@, i as int);
    }
}

/// A copy of a list of texts.
pub fn copy_texts(texts: &Vec<String>) -> (r: Vec<String>)
    ensures
        r.deep_view() == texts.deep_view(),
{
    let mut out: Vec<String> = Vec::new();
    let mut i: usize = 0;
    while i < texts.len()
        invariant
            i <= texts.len(),
            out.deep_view() == texts.deep_view().take(i as int),
        decreases texts.len() - i,
    {
        let ghost before = out.deep_view();
        out.push(texts[i].clone());
        proof {
            assert(out.deep_view() =~= before.push(texts.deep_view()[i as int]));
            assert(texts.deep_view().take(i + 1) =~= texts.deep_view().take(i as int).push(
                texts.deep_view()[i as int],
            ));
        }
        i += 1;
    }
    proof {
        assert(texts.deep_view().take(i as int) =~= texts.deep_view());
    }
    out
}

/// The identifiers of the metadata files of a directory, in the order of
/// their file names.
pub fn list_directory(dir: &BucketDir) -> (r: Vec<String>)
    ensures
        r.deep_view() == listing(dir@.sidecars.dom()),
        lists(r.deep_view(), dir@.sidecars.dom()),
{
    let mut out: Vec<String> = Vec::new();
    let n = dir.sidecars.len();
    let ghost pairs = dir.sidecars.pairs();
    let ghost ids = keys_of(pairs);
    let mut names: Vec<Vec<char>> = Vec::new();
    let mut i: usize = 0;
    while i < n
        invariant
            i <= n,
            n == pairs.len(),
            pairs == dir.sidecars.pairs(),
            ids == keys_of(pairs),
            names.len() == i,
            forall|k: int| 0 <= k < i ==> (#[trigger] names[k])@ == sidecar_name_of(ids[k]),
        decreases n - i,
    {
        let name = sidecar_name(dir.sidecars.key_at(i).as_str());
        names.push(chars_of(name.as_str()));
        i += 1;
    }
    proof {
        assert forall|a: int, b: int|
            0 <= a < names.len() && 0 <= b < names.len() && a != b implies names[a]@
            != names[b]@ by {
            if names[a]@ == names[b]@ {
                lemma_sidecar_name_injective(ids[a], ids[b]);
            }
        }
    }
    let order = sorted_positions(&names);
    let ghost all = texts_of(names@);
    let mut k: usize = 0;
    proof {
        assert(out.deep_view() =~= Seq::<Seq<char>>::empty());
    }
    while k < n
        invariant
            k <= n,
            n == pairs.len(),
            pairs == dir.sidecars.pairs(),
            ids == keys_of(pairs),
            order.len() == n,
            forall|q: int| 0 <= q < n ==> (#[trigger] order[q]) < n,
            out.len() == k,
            forall|q: int| 0 <= q < k ==> (#[trigger] out.deep_view()[q]) == ids[order[q] as int],
        decreases n - k,
    {
        let ghost before = out.deep_view();
        out.push(dir.sidecars.key_at(order[k]).clone());
        proof {
            assert(out.deep_view() =~= before.push(ids[order[k as int] as int]));
        }
        k += 1;
    }
    proof {
        let listed = out.deep_view();
        let dom = dir@.sidecars.dom();
        lemma_map_of_len(pairs);
        assert(dom == ids.to_set());
        assert forall|a: int, b: int| 0 <= a < b < listed.len() implies text_lt(
            sidecar_name_of(#[trigger] listed[a]),
            sidecar_name_of(#[trigger] listed[b]),
        ) by {
            assert(all[order[a] as int] == names[order[a] as int]@);
            assert(all[order[b] as int] == names[order[b] as int]@);
            assert(text_lt(all[order[a] as int], all[order[b] as int]));
        }
        assert forall|x: Seq<char>| #[trigger] listed.contains(x) <==> dom.contains(x) by {
            if listed.contains(x) {
                let q = choose|q: int| 0 <= q < listed.len() && listed[q] == x;
                assert(ids[order[q] as int] == x);
                assert(ids.contains(x));
            }
            if dom.contains(x) {
                assert(ids.contains(x));
                let p = choose|p: int| 0 <= p < ids.len() && ids[p] == x;
                assert(order@.contains(p as usize));
                let q = choose|q: int| 0 <= q < order.len() && order[q] == p as usize;
                assert(listed[q] == x);
            }
        }
        lemma_listing(listed, dom);
    }
    out
}

/// `values` are the values of `map` under the keys `keys`, which are all its
/// keys, each once.
pub open spec fn listed_under<T>(values: Seq<T>, map: Map<Seq<char>, T>, keys: Seq<Seq<char>>) -> bool {
    &&& keys.no_duplicates()
    &&& keys.to_set() == map.dom()
    &&& keys.len() == values.len()
    &&& forall|i: int| 0 <= i < keys.len() ==> map[keys[i]] == #[trigger] values[i]
}

/// `values` are the values of `map`, each entry once, in some order.
pub open spec fn is_listing_of<T>(values: Seq<T>, map: Map<Seq<char>, T>) -> bool {
    exists|keys: Seq<Seq<char>>| listed_under(values, map, keys)
}

/// The storage service.
#[derive(Debug)]
pub struct StorageService {
    data_dir: String,
    buckets: Dict<Bucket>,
    object_index: Dict<Dict<String>>,
    etag_index: Dict<Dict<Vec<String>>>,
    disk: Dict<BucketDir>,
    journal: Vec<DiskOp>,
}

impl View for StorageService {
    type V = StoreView;

    closed spec fn view(&self) -> StoreView {
        StoreView {
            data_dir: self.data_dir@,
            buckets: self.buckets@,
            object_index: self.object_index@,
            etag_index: self.etag_index@,
            disk: self.disk@,
            journal: self.journal.deep_view(),
        }
    }
}

impl StorageService {
    /// The identifier of the object `key` of `bucket_name`.
    pub fn generate_object_id(bucket_name: &str, key: &str) -> (r: String)
        ensures
            r@ == object_id_of(bucket_name@, key@),
            r@.len() == 64,
    {
        generate_object_id(bucket_name, key)
    }

    /// A store without buckets over an empty tree rooted at `data_dir`.
    pub fn empty(data_dir: String) -> (r: Self)
        ensures
            r@ == StoreView::empty(data_dir@),
    {
        let r = StorageService {
            data_dir,
            buckets: Dict::new(),
            object_index: Dict::new(),
            etag_index: Dict::new(),
            disk: Dict::new(),
            journal: Vec::new(),
        };
        proof {
            assert(r.journal.deep_view() =~= Seq::<DiskOpView>::empty());
        }
        r
    }

    /// The root of the directory tree.
    pub fn data_dir(&self) -> (r: &String)
        ensures
            r@ == self@.data_dir,
    {
        &self.data_dir
    }

    /// Hands out the changes of the tree written down so far, oldest first,
    /// and starts the journal anew.
    pub fn take_journal(&mut self) -> (r: Vec<DiskOp>)
        ensures
            r.deep_view() == old(self)@.journal,
            final(self)@ == old(self)@.without_journal(),
    {
        let mut out: Vec<DiskOp> = Vec::new();
        std::mem::swap(&mut self.journal, &mut out);
        proof {
            assert(self.journal.deep_view() =~= Seq::<DiskOpView>::empty());
        }
        out
    }

    /// Whether a bucket of this name is registered.
    pub fn has_bucket(&self, bucket_name: &str) -> (r: bool)
        ensures
            r == self@.buckets.contains_key(bucket_name@),
    {
        self.buckets.contains_key(bucket_name)
    }

    /// The registered bucket of this name.
    pub fn find_bucket(&self, bucket_name: &str) -> (r: Option<Bucket>)
        ensures
            r.deep_view() == if self@.buckets.contains_key(bucket_name@) {
                Some(self@.buckets[bucket_name@])
            } else {
                None
            },
    {
        match self.buckets.get(bucket_name) {
            Some(b) => Some(b.clone()),
            None => None,
        }
    }

    /// The registered buckets, each once, in no particular order.
    pub fn list_buckets(&self) -> (r: Vec<Bucket>)
        ensures
            is_listing_of(r.deep_view(), self@.buckets),
    {
        let mut out: Vec<Bucket> = Vec::new();
        let n = self.buckets.len();
        let mut i: usize = 0;
        while i < n
            invariant
                i <= n,
                n == self.buckets.pairs().len(),
                out.len() == i,
                forall|j: int| 0 <= j < i ==> (#[trigger] out[j]@) == self.buckets.pairs()[j].1,
            decreases n - i,
        {
            out.push(self.buckets.value_at(i).clone());
            i += 1;
        }
        proof {
            let pairs = self.buckets.pairs();
            let names = crate::dict::keys_of(pairs);
            crate::dict::lemma_map_of_len(pairs);
            assert forall|j: int| 0 <= j < names.len() implies self@.buckets.contains_key(
                names[j],
            ) && self@.buckets[names[j]] == #[trigger] out.deep_view()[j] by {
                crate::dict::lemma_map_of_at(pairs, j);
            }
            assert(listed_under(out.deep_view(), self@.buckets, names));
        }
        out
    }

    /// Enters a bucket into the registry under its name.
    pub fn register_bucket(&mut self, bucket: Bucket)
        ensures
            final(self)@ == old(self)@.register_bucket(bucket@),
    {
        let name = bucket.name.clone();
        self.buckets.insert(name, bucket);
    }

    /// Takes a bucket out of the registry.
    pub fn unregister_bucket(&mut self, bucket_name: &str)
        ensures
            final(self)@ == old(self)@.unregister_bucket(bucket_name@),
    {
        let _ = self.buckets.remove(bucket_name);
    }

    fn take_dir(&mut self, bucket_name: &str) -> (r: BucketDir)
        ensures
            r@ == old(self)@.dir(bucket_name@),
            final(self)@ == (StoreView { disk: old(self)@.disk.remove(bucket_name@), ..old(self)@ }),
    {
        match self.disk.remove(bucket_name) {
            Some(dir) => dir,
            None => BucketDir::new(),
        }
    }

    fn put_dir(&mut self, bucket_name: &str, dir: BucketDir, op: DiskOp)
        ensures
            final(self)@ == (StoreView {
                disk: old(self)@.disk.insert(bucket_name@, dir@),
                journal: old(self)@.journal.push(op@),
                ..old(self)@
            }),
    {
        self.disk.insert(bucket_name.to_owned(), dir);
        let ghost before = self.journal.deep_view();
        self.journal.push(op);
        proof {
            assert(self.journal.deep_view() =~= before.push(op@));
        }
    }

    /// Writes the description of a bucket into its directory.
    pub fn save_bucket_metadata(&mut self, bucket: &Bucket)
        ensures
            final(self)@ == old(self)@.save_bucket_metadata(bucket@),
    {
        let path = bucket_metadata_path(self.data_dir.as_str(), bucket.name.as_str());
        let mut dir = self.take_dir(bucket.name.as_str());
        dir.bucket_file = Some(bucket.clone());
        self.put_dir(bucket.name.as_str(), dir, DiskOp::WriteBucket { path, bucket: bucket.clone() });
        proof {
            let expected = old(self)@.save_bucket_metadata(bucket@);
            assert(self@.disk =~= expected.disk);
        }
    }

    /// Removes the directory of a bucket with all it holds.
    pub fn delete_bucket_directory(&mut self, bucket_name: &str)
        ensures
            final(self)@ == old(self)@.delete_bucket_directory(bucket_name@),
    {
        match self.disk.remove(bucket_name) {
            Some(_) => {
                let path = bucket_dir(self.data_dir.as_str(), bucket_name);
                let ghost before = self.journal.deep_view();
                let op = DiskOp::RemoveDirAll { path };
                self.journal.push(op);
                proof {
                    assert(self.journal.deep_view() =~= before.push(op@));
                }
            },
            None => {
                proof {
                    assert(self@.disk =~= old(self)@.disk);
                }
            },
        }
    }

    /// Writes the metadata of the object `object_id`.
    pub fn save_object_metadata(
        &mut self,
        bucket_name: &str,
        object_id: &str,
        metadata: &ObjectMetadata,
    )
        ensures
            final(self)@ == old(self)@.save_object_metadata(bucket_name@, object_id@, metadata@),
    {
        let path = object_metadata_path(self.data_dir.as_str(), bucket_name, object_id);
        let mut dir = self.take_dir(bucket_name);
        dir.sidecars.insert(object_id.to_owned(), metadata.clone());
        self.put_dir(bucket_name, dir, DiskOp::WriteSidecar { path, metadata: metadata.clone() });
        proof {
            let expected = old(self)@.save_object_metadata(bucket_name@, object_id@, metadata@);
            assert(self@.disk =~= expected.disk);
        }
    }

    /// The metadata of the object `object_id`, where the tree holds it.
    pub fn load_object_metadata(&self, bucket_name: &str, object_id: &str) -> (r: Option<
        ObjectMetadata,
    >)
        ensures
            r.deep_view() == if self@.sidecars(bucket_name@).contains_key(object_id@) {
                Some(self@.sidecars(bucket_name@)[object_id@])
            } else {
                None
            },
    {
        match self.disk.get(bucket_name) {
            Some(dir) => match dir.sidecars.get(object_id) {
                Some(metadata) => Some(metadata.clone()),
                None => None,
            },
            None => None,
        }
    }

    /// Removes the metadata of the object `object_id`.
    pub fn delete_object_metadata(&mut self, bucket_name: &str, object_id: &str)
        ensures
            final(self)@ == old(self)@.delete_object_metadata(bucket_name@, object_id@),
    {
        let present = match self.disk.get(bucket_name) {
            Some(dir) => dir.sidecars.contains_key(object_id),
            None => false,
        };
        if present {
            let path = object_metadata_path(self.data_dir.as_str(), bucket_name, object_id);
            let mut dir = self.take_dir(bucket_name);
            let _ = dir.sidecars.remove(object_id);
            self.put_dir(bucket_name, dir, DiskOp::RemoveFile { path });
            proof {
                let expected = old(self)@.delete_object_metadata(bucket_name@, object_id@);
                assert(self@.disk =~= expected.disk);
            }
        }
    }

    /// Writes the bytes of the object `object_id`.
    pub fn write_object_data(&mut self, bucket_name: &str, object_id: &str, data: &Vec<u8>)
        ensures
            final(self)@ == old(self)@.write_object_data(bucket_name@, object_id@, data@),
    {
        let path = object_data_path(self.data_dir.as_str(), bucket_name, object_id);
        let mut dir = self.take_dir(bucket_name);
        let stored = copy_bytes(data);
        let logged = copy_bytes(data);
        proof {
            lemma_bytes_deep_view(stored);
        }
        dir.data.insert(object_id.to_owned(), stored);
        self.put_dir(bucket_name, dir, DiskOp::WriteData { path, data: logged });
        proof {
            let expected = old(self)@.write_object_data(bucket_name@, object_id@, data@);
            assert(self@.disk =~= expected.disk);
        }
    }

    /// The bytes of the object `object_id`, where the tree holds them.
    pub fn read_object_data(&self, bucket_name: &str, object_id: &str) -> (r: Option<Vec<u8>>)
        ensures
            match r {
                Some(data) => self@.blobs(bucket_name@).contains_key(object_id@) && data@
                    == self@.blobs(bucket_name@)[object_id@],
                None => !self@.blobs(bucket_name@).contains_key(object_id@),
            },
    {
        match self.disk.get(bucket_name) {
            Some(dir) => match dir.data.get(object_id) {
                Some(data) => {
                    proof {
                        lemma_bytes_deep_view(*data);
                    }
                    Some(copy_bytes(data))
                },
                None => None,
            },
            None => None,
        }
    }

    /// Whether the tree holds bytes for the object `object_id`.
    pub fn has_object_data(&self, bucket_name: &str, object_id: &str) -> (r: bool)
        ensures
            r == self@.blobs(bucket_name@).contains_key(object_id@),
    {
        match self.disk.get(bucket_name) {
            Some(dir) => dir.data.contains_key(object_id),
            None => false,
        }
    }

    /// Removes the bytes of the object `object_id`.
    pub fn delete_object_data(&mut self, bucket_name: &str, object_id: &str)
        ensures
            final(self)@ == old(self)@.delete_object_data(bucket_name@, object_id@),
    {
        if self.has_object_data(bucket_name, object_id) {
            let path = object_data_path(self.data_dir.as_str(), bucket_name, object_id);
            let mut dir = self.take_dir(bucket_name);
            let _ = dir.data.remove(object_id);
            self.put_dir(bucket_name, dir, DiskOp::RemoveFile { path });
            proof {
                let expected = old(self)@.delete_object_data(bucket_name@, object_id@);
                assert(self@.disk =~= expected.disk);
            }
        }
    }

    /// The identifiers of the metadata files of the bucket, in the order of
    /// their file names.
    pub fn list_object_ids(&self, bucket_name: &str) -> (r: Vec<String>)
        ensures
            r.deep_view() == self@.sidecar_listing(bucket_name@),
            lists(r.deep_view(), self@.sidecars(bucket_name@).dom()),
    {
        match self.disk.get(bucket_name) {
            Some(dir) => list_directory(dir),
            None => {
                let out: Vec<String> = Vec::new();
                proof {
                    let dom = self@.sidecars(bucket_name@).dom();
                    let listed = out.deep_view();
                    assert(listed =~= Seq::<Seq<char>>::empty());
                    assert(dom =~= Set::<Seq<char>>::empty());
                    lemma_listing(listed, dom);
                }
                out
            },
        }
    }

    /// The metadata that the files `ids` hold, which are files of the
    /// bucket.
    pub fn load_all_metadata(&self, bucket_name: &str, ids: &Vec<String>) -> (r: Vec<
        ObjectMetadata,
    >)
        requires
            forall|k: int|
                0 <= k < ids.len() ==> self@.sidecars(bucket_name@).contains_key(
                    #[trigger] ids.deep_view()[k],
                ),
        ensures
            r.deep_view() == self@.metadata_at(bucket_name@, ids.deep_view()),
    {
        let mut out: Vec<ObjectMetadata> = Vec::new();
        let ghost all = ids.deep_view();
        let ghost want = self@.metadata_at(bucket_name@, all);
        let mut i: usize = 0;
        proof {
            assert(out.deep_view() =~= want.take(0));
        }
        while i < ids.len()
            invariant
                i <= ids.len(),
                all == ids.deep_view(),
                want == self@.metadata_at(bucket_name@, all),
                forall|k: int|
                    0 <= k < ids.len() ==> self@.sidecars(bucket_name@).contains_key(
                        #[trigger] all[k],
                    ),
                out.deep_view() == want.take(i as int),
            decreases ids.len() - i,
        {
            proof {
                assert(self@.sidecars(bucket_name@).contains_key(all[i as int]));
            }
            match self.load_object_metadata(bucket_name, ids[i].as_str()) {
                Some(metadata) => {
                    let ghost before = out.deep_view();
                    out.push(metadata);
                    proof {
                        assert(out.deep_view() =~= before.push(metadata@));
                        assert(want.take(i + 1) =~= want.take(i as int).push(want[i as int]));
                    }
                },
                None => {},
            }
            i += 1;
        }
        proof {
            assert(want.take(want.len() as int) =~= want);
        }
        out
    }

    /// A page of the metadata of the bucket, in the order of the file names:
    /// what follows the file named `marker`, where one is given, and of that
    /// the first `max_keys` at most, where a limit is given.
    pub fn list_object_metadata_with_pagination(
        &self,
        bucket_name: &str,
        max_keys: Option<usize>,
        marker: Option<String>,
    ) -> (r: Vec<ObjectMetadata>)
        ensures
            r.deep_view() == self@.list_object_metadata_with_pagination(
                bucket_name@,
                max_keys,
                marker.deep_view(),
            ),
    {
        let ids = self.list_object_ids(bucket_name);
        let wanted = match &marker {
            Some(m) => page_of(&ids, max_keys, Some(m.as_str())),
            None => page_of(&ids, max_keys, None),
        };
        proof {
            let all = ids.deep_view();
            lemma_page_within(all, max_keys, marker.deep_view());
            assert forall|k: int| 0 <= k < wanted.len() implies self@.sidecars(
                bucket_name@,
            ).contains_key(#[trigger] wanted.deep_view()[k]) by {
                assert(all.contains(wanted.deep_view()[k]));
            }
        }
        self.load_all_metadata(bucket_name, &wanted)
    }

    /// All metadata of the bucket, in the order of the file names.
    pub fn list_object_metadata(&self, bucket_name: &str) -> (r: Vec<ObjectMetadata>)
        ensures
            r.deep_view() == self@.list_object_metadata(bucket_name@),
    {
        let r = self.list_object_metadata_with_pagination(bucket_name, None, None);
        r
    }

    /// Whether the index counts as many objects of the bucket as the tree
    /// has metadata files.
    pub fn validate_index_consistency(&self, bucket_name: &str) -> (r: bool)
        ensures
            r == (self@.object_count(bucket_name@) == self@.sidecar_listing(bucket_name@).len()),
    {
        let indexed = self.get_bucket_object_count(bucket_name);
        let listed = self.list_object_ids(bucket_name);
        indexed == listed.len()
    }

    /// The identifier that `key` is indexed under.
    pub fn find_object_id_by_key(&self, bucket_name: &str, key: &str) -> (r: Option<String>)
        ensures
            r.deep_view() == if self@.keys(bucket_name@).contains_key(key@) {
                Some(self@.keys(bucket_name@)[key@])
            } else {
                None
            },
    {
        match self.object_index.get(bucket_name) {
            Some(keys) => match keys.get(key) {
                Some(id) => Some(id.clone()),
                None => None,
            },
            None => None,
        }
    }

    /// Indexes `key` under `object_id`.
    pub fn add_object_to_index(&mut self, bucket_name: &str, key: &str, object_id: &str)
        ensures
            final(self)@ == old(self)@.add_object_to_index(bucket_name@, key@, object_id@),
    {
        let mut keys = match self.object_index.remove(bucket_name) {
            Some(keys) => keys,
            None => Dict::new(),
        };
        keys.insert(key.to_owned(), object_id.to_owned());
        self.object_index.insert(bucket_name.to_owned(), keys);
        proof {
            let expected = old(self)@.add_object_to_index(bucket_name@, key@, object_id@);
            assert(self@.object_index =~= expected.object_index);
        }
    }

    /// Takes `key` out of the index.
    pub fn remove_object_from_index(&mut self, bucket_name: &str, key: &str)
        ensures
            final(self)@ == old(self)@.remove_object_from_index(bucket_name@, key@),
    {
        match self.object_index.remove(bucket_name) {
            Some(keys) => {
                let mut keys = keys;
                let _ = keys.remove(key);
                if !keys.is_empty() {
                    self.object_index.insert(bucket_name.to_owned(), keys);
                }
                proof {
                    let expected = old(self)@.remove_object_from_index(bucket_name@, key@);
                    assert(self@.object_index =~= expected.object_index);
                }
            },
            None => {
                proof {
                    assert(self@.object_index =~= old(self)@.object_index);
                }
            },
        }
    }

    /// How many keys of the bucket are indexed.
    pub fn get_bucket_object_count(&self, bucket_name: &str) -> (r: usize)
        ensures
            r == self@.object_count(bucket_name@),
    {
        match self.object_index.get(bucket_name) {
            Some(keys) => keys.len(),
            None => {
                proof {
                    assert(Map::<Seq<char>, Seq<char>>::empty().dom() =~= Set::<
                        Seq<char>,
                    >::empty());
                }
                0
            },
        }
    }

    /// Whether no key of the bucket is indexed.
    pub fn is_bucket_empty(&self, bucket_name: &str) -> (r: bool)
        ensures
            r == (self@.object_count(bucket_name@) == 0),
    {
        self.get_bucket_object_count(bucket_name) == 0
    }

    /// Adds `object_id` to the objects indexed under `etag`.
    pub fn add_etag_to_index(&mut self, bucket_name: &str, etag: &str, object_id: &str)
        ensures
            final(self)@ == old(self)@.add_etag_to_index(bucket_name@, etag@, object_id@),
    {
        let mut tags = match self.etag_index.remove(bucket_name) {
            Some(tags) => tags,
            None => Dict::new(),
        };
        let mut ids = match tags.remove(etag) {
            Some(ids) => ids,
            None => Vec::new(),
        };
        let ghost before = ids.deep_view();
        ids.push(object_id.to_owned());
        proof {
            assert(ids.deep_view() =~= before.push(object_id@));
            assert(before =~= old(self)@.ids_with_etag(bucket_name@, etag@));
        }
        tags.insert(etag.to_owned(), ids);
        self.etag_index.insert(bucket_name.to_owned(), tags);
        proof {
            let expected = old(self)@.add_etag_to_index(bucket_name@, etag@, object_id@);
            assert(tags@ =~= expected.etag_index[bucket_name@]);
            assert(self@.etag_index =~= expected.etag_index);
        }
    }

    /// Takes one occurrence of `object_id` out of the objects indexed under
    /// `etag`.
    pub fn remove_etag_from_index(&mut self, bucket_name: &str, etag: &str, object_id: &str)
        ensures
            final(self)@ == old(self)@.remove_etag_from_index(bucket_name@, etag@, object_id@),
    {
        match self.etag_index.remove(bucket_name) {
            Some(tags) => {
                let mut tags = tags;
                let ghost tags_before = tags@;
                match tags.remove(etag) {
                    Some(ids) => {
                        let mut ids = ids;
                        remove_first_text(&mut ids, object_id);
                        if ids.len() > 0 {
                            tags.insert(etag.to_owned(), ids);
                            proof {
                                assert(tags@ =~= tags_before.insert(etag@, ids.deep_view()));
                            }
                        }
                    },
                    None => {
                        proof {
                            assert(tags@ =~= tags_before);
                        }
                    },
                }
                if !tags.is_empty() {
                    self.etag_index.insert(bucket_name.to_owned(), tags);
                }
                proof {
                    let expected = old(self)@.remove_etag_from_index(
                        bucket_name@,
                        etag@,
                        object_id@,
                    );
                    assert(self@.etag_index =~= expected.etag_index);
                }
            },
            None => {
                proof {
                    assert(self@.etag_index =~= old(self)@.etag_index);
                }
            },
        }
    }

    /// The identifiers of the objects indexed under `etag`.
    pub fn find_objects_by_etag(&self, bucket_name: &str, etag: &str) -> (r: Vec<String>)
        ensures
            r.deep_view() == self@.ids_with_etag(bucket_name@, etag@),
    {
        match self.etag_index.get(bucket_name) {
            Some(tags) => match tags.get(etag) {
                Some(ids) => copy_texts(ids),
                None => {
                    let r: Vec<String> = Vec::new();
                    proof {
                        assert(r.deep_view() =~= Seq::<Seq<char>>::empty());
                    }
                    r
                },
            },
            None => {
                let r: Vec<String> = Vec::new();
                proof {
                    assert(r.deep_view() =~= Seq::<Seq<char>>::empty());
                }
                r
            },
        }
    }

    /// Whether any object is indexed under `etag`.
    pub fn is_etag_exists(&self, bucket_name: &str, etag: &str) -> (r: bool)
        ensures
            r == (self@.ids_with_etag(bucket_name@, etag@).len() > 0),
    {
        let ids = self.find_objects_by_etag(bucket_name, etag);
        ids.len() > 0
    }
}

/// Whether a name is reserved: it begins with a dot.
pub fn is_reserved_name(name: &str) -> (r: bool)
    ensures
        r == is_system_name(name@),
{
    let chars = chars_of(name);
    chars.len() > 0 && chars[0] == '.'
}

/// Builds the key index and the entity-tag index of a bucket from its
/// metadata files, taken in the order of their names.
pub fn index_directory(bucket_name: &str, dir: &BucketDir) -> (r: (Dict<String>, Dict<Vec<String>>))
    ensures
        r.0@ == key_index_of(bucket_name@, dir@.sidecars),
        r.1@ == etag_index_of(bucket_name@, dir@.sidecars),
{
    let ids = list_directory(dir);
    let ghost all = ids.deep_view();
    let ghost sc = dir@.sidecars;
    let mut keys: Dict<String> = Dict::new();
    let mut tags: Dict<Vec<String>> = Dict::new();
    let mut i: usize = 0;
    proof {
        assert(all.take(0).len() == 0);
        assert(keys@ =~= key_index_from(bucket_name@, sc, all.take(0)));
        assert(tags@ =~= etag_index_from(bucket_name@, sc, all.take(0)));
    }
    while i < ids.len()
        invariant
            i <= ids.len(),
            all == ids.deep_view(),
            sc == dir@.sidecars,
            lists(all, sc.dom()),
            keys@ == key_index_from(bucket_name@, sc, all.take(i as int)),
            tags@ == etag_index_from(bucket_name@, sc, all.take(i as int)),
        decreases ids.len() - i,
    {
        proof {
            assert(all.contains(all[i as int]));
            assert(sc.contains_key(all[i as int]));
            lemma_key_index_step(bucket_name@, sc, all, i as int);
            lemma_etag_index_step(bucket_name@, sc, all, i as int);
        }
        match dir.sidecars.get(ids[i].as_str()) {
            Some(metadata) => {
                let object_id = generate_object_id(bucket_name, metadata.key.as_str());
                keys.insert(metadata.key.clone(), object_id.clone());
                let mut listed = match tags.remove(metadata.etag.as_str()) {
                    Some(listed) => listed,
                    None => Vec::new(),
                };
                let ghost before = listed.deep_view();
                listed.push(object_id);
                proof {
                    assert(listed.deep_view() =~= before.push(
                        object_id_of(bucket_name@, metadata@.key),
                    ));
                    let old_tags = etag_index_from(bucket_name@, sc, all.take(i as int));
                    if !old_tags.contains_key(metadata@.etag) {
                        assert(before =~= Seq::<Seq<char>>::empty());
                    }
                }
                tags.insert(metadata.etag.clone(), listed);
                proof {
                    let old_tags = etag_index_from(bucket_name@, sc, all.take(i as int));
                    assert(tags@ =~= old_tags.insert(metadata@.etag, listed.deep_view()));
                }
            },
            None => {},
        }
        i += 1;
    }
    proof {
        assert(all.take(all.len() as int) =~= all);
    }
    (keys, tags)
}

impl StorageService {
    /// The store that starts at `now` over the tree `disk`: the registry
    /// and both indexes are built from the tree.
    pub fn new_at(data_dir: String, disk: Dict<BucketDir>, now: Timestamp) -> (r: Self)
        ensures
            r@ == StoreView::restored(data_dir@, disk@, now),
    {
        let mut buckets: Dict<Bucket> = Dict::new();
        let mut object_index: Dict<Dict<String>> = Dict::new();
        let mut etag_index: Dict<Dict<Vec<String>>> = Dict::new();
        let n = disk.len();
        let ghost pairs = disk.pairs();
        let ghost tree = disk@;
        let mut i: usize = 0;
        proof {
            lemma_map_of_ends(pairs);
            assert(buckets@ =~= loaded_buckets(map_of(pairs.take(0)), now));
            assert(object_index@ =~= built_object_index(map_of(pairs.take(0))));
            assert(etag_index@ =~= built_etag_index(map_of(pairs.take(0))));
        }
        while i < n
            invariant
                i <= n,
                n == pairs.len(),
                pairs == disk.pairs(),
                tree == disk@,
                keys_of(pairs).no_duplicates(),
                buckets@ == loaded_buckets(map_of(pairs.take(i as int)), now),
                object_index@ == built_object_index(map_of(pairs.take(i as int))),
                etag_index@ == built_etag_index(map_of(pairs.take(i as int))),
            decreases n - i,
        {
            let name = disk.key_at(i);
            let dir = disk.value_at(i);
            let ghost seen = map_of(pairs.take(i as int));
            let ghost next = map_of(pairs.take(i + 1));
            proof {
                lemma_map_of_step(pairs, i as int);
                assert(next == seen.insert(name@, dir@));
            }
            if !is_reserved_name(name.as_str()) {
                let bucket = match &dir.bucket_file {
                    Some(described) => described.clone(),
                    None => Bucket::new_at(name.clone(), now),
                };
                buckets.insert(name.clone(), bucket);
                let (keys, tags) = index_directory(name.as_str(), dir);
                if !keys.is_empty() {
                    object_index.insert(name.clone(), keys);
                }
                if !tags.is_empty() {
                    etag_index.insert(name.clone(), tags);
                }
            }
            proof {
                assert(buckets@ =~= loaded_buckets(next, now));
                assert(object_index@ =~= built_object_index(next));
                assert(etag_index@ =~= built_etag_index(next));
            }
            i += 1;
        }
        proof {
            lemma_map_of_ends(pairs);
        }
        let r = StorageService {
            data_dir,
            buckets,
            object_index,
            etag_index,
            disk,
            journal: Vec::new(),
        };
        proof {
            assert(r.journal.deep_view() =~= Seq::<DiskOpView>::empty());
        }
        r
    }

    /// The store that starts over the tree `disk` at the moment the clock
    /// shows.
    pub fn new(data_dir: String, disk: Dict<BucketDir>) -> (r: Self)
        ensures
            exists|now: Timestamp| r@ == StoreView::restored(data_dir@, disk@, now),
    {
        let now = current_time();
        StorageService::new_at(data_dir, disk, now)
    }

    /// Builds the key index anew from the tree.
    pub fn rebuild_object_index(&mut self)
        ensures
            final(self)@ == old(self)@.rebuild_object_index(),
    {
        let mut object_index: Dict<Dict<String>> = Dict::new();
        let n = self.disk.len();
        let ghost pairs = self.disk.pairs();
        let mut i: usize = 0;
        proof {
            lemma_map_of_ends(pairs);
            assert(object_index@ =~= built_object_index(map_of(pairs.take(0))));
        }
        while i < n
            invariant
                i <= n,
                n == pairs.len(),
                pairs == self.disk.pairs(),
                *self == *old(self),
                keys_of(pairs).no_duplicates(),
                object_index@ == built_object_index(map_of(pairs.take(i as int))),
            decreases n - i,
        {
            let name = self.disk.key_at(i);
            let dir = self.disk.value_at(i);
            let ghost seen = map_of(pairs.take(i as int));
            let ghost next = map_of(pairs.take(i + 1));
            proof {
                lemma_map_of_step(pairs, i as int);
                assert(next == seen.insert(name@, dir@));
            }
            if !is_reserved_name(name.as_str()) {
                let (keys, _tags) = index_directory(name.as_str(), dir);
                if !keys.is_empty() {
                    object_index.insert(name.clone(), keys);
                }
            }
            proof {
                assert(object_index@ =~= built_object_index(next));
            }
            i += 1;
        }
        proof {
            lemma_map_of_ends(pairs);
        }
        self.object_index = object_index;
    }
}

} // verus!
