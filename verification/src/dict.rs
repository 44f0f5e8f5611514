//! A dictionary keyed by strings, held as a list of entries in which no key
//! occurs twice. Its view is the map from each key's characters to the view
//! of the value stored under it.

use crate::text::same_text;
use vstd::prelude::*;
use vstd::string::*;

verus! {

/// The keys of a list of pairs, in order.
pub open spec fn keys_of<T>(pairs: Seq<(Seq<char>, T)>) -> Seq<Seq<char>> {
    pairs.map_values(|p: (Seq<char>, T)| p.0)
}

/// The map that a list of pairs stands for.
pub open spec fn map_of<T>(pairs: Seq<(Seq<char>, T)>) -> Map<Seq<char>, T> {
    Map::new(
        |k: Seq<char>| keys_of(pairs).contains(k),
        |k: Seq<char>| pairs[keys_of(pairs).index_of(k)].1,
    )
}

/// With distinct keys, the map holds each pair of the list.
pub proof fn lemma_map_of_at<T>(pairs: Seq<(Seq<char>, T)>, i: int)
    requires
        keys_of(pairs).no_duplicates(),
        0 <= i < pairs.len(),
    ensures
        map_of(pairs).contains_key(pairs[i].0),
        map_of(pairs)[pairs[i].0] == pairs[i].1,
{
    let keys = keys_of(pairs);
    assert(keys[i] == pairs[i].0);
    let j = keys.index_of(pairs[i].0);
    assert(0 <= j < keys.len() && keys[j] == pairs[i].0);
}

/// With distinct keys, the map has as many entries as the list has pairs.
pub proof fn lemma_map_of_len<T>(pairs: Seq<(Seq<char>, T)>)
    requires
        keys_of(pairs).no_duplicates(),
    ensures
        map_of(pairs).dom().finite(),
        map_of(pairs).dom() == keys_of(pairs).to_set(),
        map_of(pairs).len() == pairs.len(),
{
    let keys = keys_of(pairs);
    assert(map_of(pairs).dom() =~= keys.to_set());
    vstd::seq_lib::seq_to_set_is_finite(keys);
    keys.unique_seq_to_set();
}

/// Appending a pair under a new key inserts it into the map.
pub proof fn lemma_map_of_push<T>(pairs: Seq<(Seq<char>, T)>, key: Seq<char>, value: T)
    requires
        keys_of(pairs).no_duplicates(),
        !keys_of(pairs).contains(key),
    ensures
        keys_of(pairs.push((key, value))).no_duplicates(),
        map_of(pairs.push((key, value))) == map_of(pairs).insert(key, value),
{
    let next = pairs.push((key, value));
    assert(keys_of(next) =~= keys_of(pairs).push(key));
    assert forall|k: Seq<char>| #[trigger] map_of(next).contains_key(k) implies map_of(
        next,
    )[k] == map_of(pairs).insert(key, value)[k] by {
        let j = keys_of(next).index_of(k);
        assert(0 <= j < next.len() && keys_of(next)[j] == k);
        lemma_map_of_at(next, j);
        if j < pairs.len() {
            assert(keys_of(pairs)[j] == k);
            lemma_map_of_at(pairs, j);
        }
    }
    assert forall|k: Seq<char>|
        map_of(next).contains_key(k) == #[trigger] map_of(pairs).insert(key, value).contains_key(
            k,
        ) by {
        if keys_of(pairs).contains(k) {
            let j = keys_of(pairs).index_of(k);
            assert(keys_of(next)[j] == k);
        }
        if k == key {
            assert(keys_of(next)[pairs.len() as int] == k);
        }
    }
    assert(map_of(next) =~= map_of(pairs).insert(key, value));
}

/// Replacing the value of the pair at `i` replaces it in the map.
pub proof fn lemma_map_of_update<T>(pairs: Seq<(Seq<char>, T)>, i: int, value: T)
    requires
        keys_of(pairs).no_duplicates(),
        0 <= i < pairs.len(),
    ensures
        keys_of(pairs.update(i, (pairs[i].0, value))) == keys_of(pairs),
        map_of(pairs.update(i, (pairs[i].0, value))) == map_of(pairs).insert(pairs[i].0, value),
{
    let key = pairs[i].0;
    let next = pairs.update(i, (key, value));
    assert(keys_of(next) =~= keys_of(pairs));
    assert forall|k: Seq<char>| #[trigger] map_of(next).contains_key(k) implies map_of(
        next,
    )[k] == map_of(pairs).insert(key, value)[k] by {
        let j = keys_of(next).index_of(k);
        assert(0 <= j < keys_of(next).len() && keys_of(next)[j] == k);
        assert(keys_of(next).len() == next.len());
        assert(keys_of(pairs)[j] == k);
        assert(next[j].0 == k && pairs[j].0 == k);
        lemma_map_of_at(next, j);
        lemma_map_of_at(pairs, j);
        assert(keys_of(pairs)[i] == key);
        if j == i {
            assert(next[j].1 == value);
        } else {
            assert(next[j] == pairs[j]);
            assert(k != key);
        }
    }
    assert forall|k: Seq<char>|
        map_of(next).contains_key(k) == #[trigger] map_of(pairs).insert(key, value).contains_key(
            k,
        ) by {
        if k == key {
            assert(keys_of(pairs)[i] == k);
        }
    }
    assert(map_of(next) =~= map_of(pairs).insert(key, value));
}

/// Taking the pair at `i` out of the list removes its key from the map.
pub proof fn lemma_map_of_remove<T>(pairs: Seq<(Seq<char>, T)>, i: int)
    requires
        keys_of(pairs).no_duplicates(),
        0 <= i < pairs.len(),
    ensures
        keys_of(pairs.remove(i)).no_duplicates(),
        !keys_of(pairs.remove(i)).contains(pairs[i].0),
        map_of(pairs.remove(i)) == map_of(pairs).remove(pairs[i].0),
{
    let key = pairs[i].0;
    let next = pairs.remove(i);
    let keys = keys_of(pairs);
    assert(keys_of(next) =~= keys.remove(i));
    assert forall|a: int, b: int|
        0 <= a < next.len() && 0 <= b < next.len() && a != b implies keys_of(next)[a] != keys_of(
            next,
        )[b] by {
        let a0 = if a < i { a } else { a + 1 };
        let b0 = if b < i { b } else { b + 1 };
        assert(keys_of(next)[a] == keys[a0]);
        assert(keys_of(next)[b] == keys[b0]);
    }
    assert forall|a: int| 0 <= a < next.len() implies keys_of(next)[a] != key by {
        let a0 = if a < i { a } else { a + 1 };
        assert(keys_of(next)[a] == keys[a0]);
        assert(keys[i] == key);
    }
    assert forall|k: Seq<char>| #[trigger] map_of(next).contains_key(k) implies map_of(
        pairs,
    ).remove(key).contains_key(k) && map_of(next)[k] == map_of(pairs).remove(key)[k] by {
        let j = keys_of(next).index_of(k);
        assert(0 <= j < next.len() && keys_of(next)[j] == k);
        lemma_map_of_at(next, j);
        let j0 = if j < i { j } else { j + 1 };
        assert(next[j] == pairs[j0]);
        assert(keys[j0] == k);
        lemma_map_of_at(pairs, j0);
    }
    assert forall|k: Seq<char>| #[trigger]
        map_of(pairs).remove(key).contains_key(k) implies map_of(next).contains_key(k) by {
        let j0 = keys.index_of(k);
        assert(0 <= j0 < keys.len() && keys[j0] == k);
        assert(keys[i] == key);
        let j = if j0 < i { j0 } else { j0 - 1 };
        assert(keys_of(next)[j] == k);
    }
    assert(map_of(next) =~= map_of(pairs).remove(key));
}

/// Walking a list with distinct keys: the map of the first `i + 1` pairs is
/// the map of the first `i` with the next pair inserted under a key that was
/// not there.
pub proof fn lemma_map_of_step<T>(pairs: Seq<(Seq<char>, T)>, i: int)
    requires
        keys_of(pairs).no_duplicates(),
        0 <= i < pairs.len(),
    ensures
        keys_of(pairs.take(i)).no_duplicates(),
        keys_of(pairs.take(i + 1)).no_duplicates(),
        !map_of(pairs.take(i)).contains_key(pairs[i].0),
        map_of(pairs.take(i + 1)) == map_of(pairs.take(i)).insert(pairs[i].0, pairs[i].1),
{
    let before = pairs.take(i);
    assert(keys_of(before) =~= keys_of(pairs).take(i));
    assert(pairs.take(i + 1) =~= before.push(pairs[i]));
    assert(keys_of(pairs)[i] == pairs[i].0);
    assert forall|j: int| 0 <= j < before.len() implies keys_of(before)[j] != pairs[i].0 by {
        assert(keys_of(before)[j] == keys_of(pairs)[j]);
    }
    lemma_map_of_push(before, pairs[i].0, pairs[i].1);
}

/// The map of the empty list is empty, and the map of a whole list is that of
/// all its pairs taken.
pub proof fn lemma_map_of_ends<T>(pairs: Seq<(Seq<char>, T)>)
    ensures
        map_of(pairs.take(0)) == Map::<Seq<char>, T>::empty(),
        pairs.take(pairs.len() as int) == pairs,
{
    assert(keys_of(pairs.take(0)) =~= Seq::<Seq<char>>::empty());
    assert(map_of(pairs.take(0)) =~= Map::<Seq<char>, T>::empty());
    assert(pairs.take(pairs.len() as int) =~= pairs);
}

/// A dictionary from strings to values of type `V`.
#[derive(Debug)]
pub struct Dict<V> {
    entries: Vec<(String, V)>,
}

impl<V> Dict<V> {
    #[verifier::type_invariant]
    spec fn distinct_keys(self) -> bool {
        self.key_list().no_duplicates()
    }

    /// The keys in the order in which the entries are held.
    pub closed spec fn key_list(self) -> Seq<Seq<char>> {
        self.entries@.map_values(|e: (String, V)| e.0@)
    }
}

impl<V: DeepView> Dict<V> {
    /// The entries in the order in which they are held, each by its view.
    pub closed spec fn pairs(self) -> Seq<(Seq<char>, V::V)> {
        self.entries@.map_values(|e: (String, V)| (e.0@, e.1.deep_view()))
    }

    proof fn lemma_keys(self)
        ensures
            keys_of(self.pairs()) == self.key_list(),
    {
        assert(keys_of(self.pairs()) =~= self.key_list());
    }

    /// A dictionary without entries.
    pub fn new() -> (r: Self)
        ensures
            r@ == Map::<Seq<char>, V::V>::empty(),
            r.pairs().len() == 0,
    {
        let r = Dict { entries: Vec::new() };
        proof {
            assert(keys_of(r.pairs()) =~= Seq::<Seq<char>>::empty());
            assert(r@ =~= Map::<Seq<char>, V::V>::empty());
        }
        r
    }

    /// How many entries the dictionary holds.
    pub fn len(&self) -> (r: usize)
        ensures
            r == self.pairs().len(),
            r == self@.len(),
            self@.dom().finite(),
            keys_of(self.pairs()).no_duplicates(),
    {
        proof {
            use_type_invariant(self);
            self.lemma_keys();
            lemma_map_of_len(self.pairs());
        }
        self.entries.len()
    }

    /// Whether the dictionary holds nothing.
    pub fn is_empty(&self) -> (r: bool)
        ensures
            r == (self@.len() == 0),
            r == (self@ == Map::<Seq<char>, V::V>::empty()),
            self@.dom().finite(),
    {
        let n = self.len();
        proof {
            if n == 0 {
                assert(self@ =~= Map::<Seq<char>, V::V>::empty());
            }
        }
        n == 0
    }

    /// The key of the entry at position `i`.
    pub fn key_at(&self, i: usize) -> (r: &String)
        requires
            i < self.pairs().len(),
        ensures
            r@ == self.pairs()[i as int].0,
            self@.contains_key(r@),
    {
        proof {
            use_type_invariant(self);
            self.lemma_keys();
            lemma_map_of_at(self.pairs(), i as int);
        }
        &self.entries[i].0
    }

    /// The value of the entry at position `i`.
    pub fn value_at(&self, i: usize) -> (r: &V)
        requires
            i < self.pairs().len(),
        ensures
            r.deep_view() == self.pairs()[i as int].1,
            self@.contains_key(self.pairs()[i as int].0),
            self@[self.pairs()[i as int].0] == r.deep_view(),
    {
        proof {
            use_type_invariant(self);
            self.lemma_keys();
            lemma_map_of_at(self.pairs(), i as int);
        }
        &self.entries[i].1
    }

    fn position(&self, key: &str) -> (r: Option<usize>)
        ensures
            match r {
                Some(i) => i < self.pairs().len() && self.pairs()[i as int].0 == key@,
                None => !keys_of(self.pairs()).contains(key@),
            },
    {
        let mut i: usize = 0;
        while i < self.entries.len()
            invariant
                i <= self.entries.len(),
                forall|j: int| 0 <= j < i ==> self.pairs()[j].0 != key@,
            decreases self.entries.len() - i,
        {
            if same_text(self.entries[i].0.as_str(), key) {
                return Some(i);
            }
            i += 1;
        }
        None
    }

    /// Whether an entry stands under `key`.
    pub fn contains_key(&self, key: &str) -> (r: bool)
        ensures
            r == self@.contains_key(key@),
    {
        let found = self.position(key);
        proof {
            if let Some(i) = found {
                assert(keys_of(self.pairs())[i as int] == key@);
            }
        }
        found.is_some()
    }

    /// The value under `key`, if there is one.
    pub fn get(&self, key: &str) -> (r: Option<&V>)
        ensures
            match r {
                Some(v) => self@.contains_key(key@) && self@[key@] == v.deep_view(),
                None => !self@.contains_key(key@),
            },
    {
        proof {
            use_type_invariant(self);
            self.lemma_keys();
        }
        match self.position(key) {
            Some(i) => {
                proof {
                    lemma_map_of_at(self.pairs(), i as int);
                }
                Some(&self.entries[i].1)
            },
            None => None,
        }
    }

    /// Puts `value` under `key`, in place of what stood there.
    pub fn insert(&mut self, key: String, value: V)
        ensures
            final(self)@ == old(self)@.insert(key@, value.deep_view()),
    {
        proof {
            use_type_invariant(&*self);
            self.lemma_keys();
        }
        let found = self.position(key.as_str());
        let ghost before = self.pairs();
        let ghost pair = (key@, value.deep_view());
        let mut entries: Vec<(String, V)> = Vec::new();
        std::mem::swap(&mut self.entries, &mut entries);
        match found {
            Some(i) => {
                entries.set(i, (key, value));
                proof {
                    lemma_map_of_update(before, i as int, pair.1);
                    assert(entries@.map_values(|e: (String, V)| (e.0@, e.1.deep_view()))
                        =~= before.update(i as int, pair));
                }
            },
            None => {
                entries.push((key, value));
                proof {
                    lemma_map_of_push(before, pair.0, pair.1);
                    assert(entries@.map_values(|e: (String, V)| (e.0@, e.1.deep_view()))
                        =~= before.push(pair));
                }
            },
        }
        proof {
            let after = entries@.map_values(|e: (String, V)| (e.0@, e.1.deep_view()));
            assert(entries@.map_values(|e: (String, V)| e.0@) =~= keys_of(after));
        }
        std::mem::swap(&mut self.entries, &mut entries);
    }

    /// Takes the entry under `key` out and returns its value.
    pub fn remove(&mut self, key: &str) -> (r: Option<V>)
        ensures
            final(self)@ == old(self)@.remove(key@),
            match r {
                Some(v) => old(self)@.contains_key(key@) && old(self)@[key@] == v.deep_view(),
                None => !old(self)@.contains_key(key@),
            },
    {
        proof {
            use_type_invariant(&*self);
            self.lemma_keys();
        }
        let found = self.position(key);
        let ghost before = self.pairs();
        match found {
            Some(i) => {
                let mut entries: Vec<(String, V)> = Vec::new();
                std::mem::swap(&mut self.entries, &mut entries);
                let gone = entries.remove(i);
                proof {
                    lemma_map_of_at(before, i as int);
                    lemma_map_of_remove(before, i as int);
                    let after = entries@.map_values(|e: (String, V)| (e.0@, e.1.deep_view()));
                    assert(after =~= before.remove(i as int));
                    assert(entries@.map_values(|e: (String, V)| e.0@) =~= keys_of(after));
                }
                std::mem::swap(&mut self.entries, &mut entries);
                Some(gone.1)
            },
            None => {
                proof {
                    assert(self@ =~= self@.remove(key@));
                }
                None
            },
        }
    }
}

impl Clone for Dict<String> {
    fn clone(&self) -> (r: Self)
        ensures
            r@ == self@,
    {
        let mut out: Dict<String> = Dict::new();
        let n = self.len();
        let mut i: usize = 0;
        proof {
            lemma_map_of_ends(self.pairs());
        }
        while i < n
            invariant
                i <= n,
                n == self.pairs().len(),
                keys_of(self.pairs()).no_duplicates(),
                out@ == map_of(self.pairs().take(i as int)),
            decreases n - i,
        {
            let k = self.key_at(i).clone();
            let v = self.value_at(i).clone();
            proof {
                lemma_map_of_step(self.pairs(), i as int);
            }
            out.insert(k, v);
            i += 1;
        }
        proof {
            lemma_map_of_ends(self.pairs());
        }
        out
    }
}

impl<V: DeepView> View for Dict<V> {
    type V = Map<Seq<char>, V::V>;

    open spec fn view(&self) -> Map<Seq<char>, V::V> {
        map_of(self.pairs())
    }
}

impl<V: DeepView> DeepView for Dict<V> {
    type V = Map<Seq<char>, V::V>;

    open spec fn deep_view(&self) -> Map<Seq<char>, V::V> {
        self@
    }
}

} // verus!
