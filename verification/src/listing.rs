//! The order in which the metadata files of a bucket are listed, the page of
//! a listing that a caller asks for, and the patterns that entity tags are
//! matched against.

use crate::layout::sidecar_name_of;
use crate::text::{
    lemma_text_lt_irreflexive, lemma_text_lt_total, lemma_text_lt_transitive, less_text, text_lt,
};
use vstd::prelude::*;

verus! {

/// The identifiers stand in the order of their file names, each name
/// strictly below the next.
pub open spec fn ascending(ids: Seq<Seq<char>>) -> bool {
    forall|i: int, j: int|
        0 <= i < j < ids.len() ==> text_lt(
            sidecar_name_of(#[trigger] ids[i]),
            sidecar_name_of(#[trigger] ids[j]),
        )
}

/// `ids` lists the identifiers `all`: each once, in the order of their file
/// names.
pub open spec fn lists(ids: Seq<Seq<char>>, all: Set<Seq<char>>) -> bool {
    &&& ascending(ids)
    &&& forall|x: Seq<char>| #[trigger] ids.contains(x) <==> all.contains(x)
}

/// The listing of the identifiers `all`.
pub open spec fn listing(all: Set<Seq<char>>) -> Seq<Seq<char>> {
    choose|ids: Seq<Seq<char>>| lists(ids, all)
}

/// What follows, in a listing, the entry whose file name is `marker`:
/// nothing where no entry has that name.
pub open spec fn after_marker(ids: Seq<Seq<char>>, marker: Seq<char>) -> Seq<Seq<char>>
    decreases ids.len(),
{
    if ids.len() == 0 {
        ids
    } else if sidecar_name_of(ids[0]) == marker {
        ids.drop_first()
    } else {
        after_marker(ids.drop_first(), marker)
    }
}

/// The page of a listing: the entries after the marker, where one is given,
/// and of those the first `max_keys` at most, where a limit is given.
pub open spec fn page(
    ids: Seq<Seq<char>>,
    max_keys: Option<usize>,
    marker: Option<Seq<char>>,
) -> Seq<Seq<char>> {
    let rest = match marker {
        Some(m) => after_marker(ids, m),
        None => ids,
    };
    match max_keys {
        Some(n) => if n < rest.len() {
            rest.take(n as int)
        } else {
            rest
        },
        None => rest,
    }
}

/// Whether the text `s` matches the pattern `p`, in which `*` stands for any
/// run of characters and `?` for any one character.
pub open spec fn glob_matches(p: Seq<char>, s: Seq<char>) -> bool
    decreases p.len(), s.len(),
{
    if p.len() == 0 {
        s.len() == 0
    } else if p[0] == '*' {
        glob_matches(p.drop_first(), s) || (s.len() > 0 && glob_matches(p, s.drop_first()))
    } else if s.len() > 0 && (p[0] == '?' || p[0] == s[0]) {
        glob_matches(p.drop_first(), s.drop_first())
    } else {
        false
    }
}

/// Two file names are the same only where the identifiers are.
pub proof fn lemma_sidecar_name_injective(a: Seq<char>, b: Seq<char>)
    requires
        sidecar_name_of(a) == sidecar_name_of(b),
    ensures
        a == b,
{
    let tail = ".json"@;
    assert((a + tail).len() == a.len() + tail.len());
    assert((b + tail).len() == b.len() + tail.len());
    assert((a + tail).take(a.len() as int) =~= a);
    assert((b + tail).take(b.len() as int) =~= b);
}

/// An ascending list holds nothing twice.
pub proof fn lemma_ascending_distinct(ids: Seq<Seq<char>>)
    requires
        ascending(ids),
    ensures
        ids.no_duplicates(),
{
    assert forall|i: int, j: int| 0 <= i < ids.len() && 0 <= j < ids.len() && i != j implies ids[i]
        != ids[j] by {
        lemma_text_lt_irreflexive(sidecar_name_of(ids[i]));
        if i < j {
            assert(text_lt(sidecar_name_of(ids[i]), sidecar_name_of(ids[j])));
        } else {
            assert(text_lt(sidecar_name_of(ids[j]), sidecar_name_of(ids[i])));
        }
    }
}

/// Two lists of the same identifiers are one list.
pub proof fn lemma_lists_unique(a: Seq<Seq<char>>, b: Seq<Seq<char>>, all: Set<Seq<char>>)
    requires
        lists(a, all),
        lists(b, all),
    ensures
        a == b,
    decreases a.len(),
{
    lemma_ascending_distinct(a);
    lemma_ascending_distinct(b);
    if a.len() == 0 {
        if b.len() > 0 {
            assert(b.contains(b[0]));
            assert(a.contains(b[0]));
        }
        assert(a =~= b);
    } else if b.len() == 0 {
        assert(a.contains(a[0]));
        assert(b.contains(a[0]));
    } else {
        // both begin with the least name
        assert(a.contains(a[0]));
        assert(b.contains(a[0]));
        let j = choose|j: int| 0 <= j < b.len() && b[j] == a[0];
        assert(b.contains(b[0]));
        assert(a.contains(b[0]));
        let i = choose|i: int| 0 <= i < a.len() && a[i] == b[0];
        if j > 0 && i > 0 {
            assert(text_lt(sidecar_name_of(b[0]), sidecar_name_of(b[j])));
            assert(text_lt(sidecar_name_of(a[0]), sidecar_name_of(a[i])));
            lemma_text_lt_transitive(
                sidecar_name_of(a[0]),
                sidecar_name_of(b[0]),
                sidecar_name_of(a[0]),
            );
            lemma_text_lt_irreflexive(sidecar_name_of(a[0]));
        }
        assert(a[0] == b[0]);
        let ra = a.drop_first();
        let rb = b.drop_first();
        let rest = all.remove(a[0]);
        assert forall|x: Seq<char>| #[trigger] ra.contains(x) <==> rest.contains(x) by {
            if ra.contains(x) {
                let k = choose|k: int| 0 <= k < ra.len() && ra[k] == x;
                assert(a[k + 1] == x);
                assert(a.contains(x));
            }
            if rest.contains(x) {
                assert(a.contains(x));
                let k = choose|k: int| 0 <= k < a.len() && a[k] == x;
                assert(ra[k - 1] == x);
            }
        }
        assert forall|x: Seq<char>| #[trigger] rb.contains(x) <==> rest.contains(x) by {
            if rb.contains(x) {
                let k = choose|k: int| 0 <= k < rb.len() && rb[k] == x;
                assert(b[k + 1] == x);
                assert(b.contains(x));
            }
            if rest.contains(x) {
                assert(b.contains(x));
                let k = choose|k: int| 0 <= k < b.len() && b[k] == x;
                assert(rb[k - 1] == x);
            }
        }
        assert(ascending(ra)) by {
            assert forall|i: int, j: int| 0 <= i < j < ra.len() implies text_lt(
                sidecar_name_of(#[trigger] ra[i]),
                sidecar_name_of(#[trigger] ra[j]),
            ) by {
                assert(ra[i] == a[i + 1] && ra[j] == a[j + 1]);
            }
        }
        assert(ascending(rb)) by {
            assert forall|i: int, j: int| 0 <= i < j < rb.len() implies text_lt(
                sidecar_name_of(#[trigger] rb[i]),
                sidecar_name_of(#[trigger] rb[j]),
            ) by {
                assert(rb[i] == b[i + 1] && rb[j] == b[j + 1]);
            }
        }
        lemma_lists_unique(ra, rb, rest);
        assert(a =~= seq![a[0]] + ra);
        assert(b =~= seq![b[0]] + rb);
    }
}

/// A list of the identifiers `all` is their listing.
pub proof fn lemma_listing(ids: Seq<Seq<char>>, all: Set<Seq<char>>)
    requires
        lists(ids, all),
    ensures
        listing(all) == ids,
{
    lemma_lists_unique(listing(all), ids, all);
}

/// The texts that lists of characters hold.
pub open spec fn texts_of(names: Seq<Vec<char>>) -> Seq<Seq<char>> {
    names.map_values(|name: Vec<char>| name@)
}

/// The positions `0..names.len()` in the order of the names at them.
pub open spec fn ordered_positions(order: Seq<usize>, names: Seq<Seq<char>>) -> bool {
    &&& order.len() == names.len()
    &&& forall|k: int| 0 <= k < order.len() ==> (#[trigger] order[k]) < names.len()
    &&& forall|i: int, j: int|
        0 <= i < j < order.len() ==> text_lt(
            names[(#[trigger] order[i]) as int],
            names[(#[trigger] order[j]) as int],
        )
    &&& forall|p: usize| p < names.len() ==> #[trigger] order.contains(p)
}

/// Sorts the positions of distinct names by the names at them.
pub fn sorted_positions(names: &Vec<Vec<char>>) -> (order: Vec<usize>)
    requires
        forall|i: int, j: int|
            0 <= i < names.len() && 0 <= j < names.len() && i != j ==> names[i]@ != names[j]@,
    ensures
        ordered_positions(order@, texts_of(names@)),
{
    let mut order: Vec<usize> = Vec::new();
    let ghost all = texts_of(names@);
    let mut n: usize = 0;
    while n < names.len()
        invariant
            n <= names.len(),
            all == texts_of(names@),
            order.len() == n,
            forall|i: int, j: int|
                0 <= i < names.len() && 0 <= j < names.len() && i != j ==> names[i]@
                    != names[j]@,
            forall|k: int| 0 <= k < order.len() ==> (#[trigger] order[k]) < n,
            forall|i: int, j: int|
                0 <= i < j < order.len() ==> text_lt(
                    all[(#[trigger] order[i]) as int],
                    all[(#[trigger] order[j]) as int],
                ),
            forall|p: usize| p < n ==> #[trigger] order@.contains(p),
        decreases names.len() - n,
    {
        // the place of the name at `n`: behind all names below it
        let mut at: usize = 0;
        while at < order.len() && less_text(&names[order[at]], &names[n])
            invariant
                at <= order.len(),
                n < names.len(),
                all == texts_of(names@),
                order.len() == n,
                forall|k: int| 0 <= k < order.len() ==> (#[trigger] order[k]) < n,
                forall|k: int|
                    0 <= k < at ==> text_lt(all[(#[trigger] order[k]) as int], all[n as int]),
            decreases order.len() - at,
        {
            at += 1;
        }
        let ghost before = order@;
        proof {
            assert forall|k: int| at <= k < before.len() implies text_lt(
                all[n as int],
                all[(#[trigger] before[k]) as int],
            ) by {
                let first = all[before[at as int] as int];
                let here = all[before[k] as int];
                assert(!text_lt(first, all[n as int]));
                assert(names[before[at as int] as int]@ != names[n as int]@);
                lemma_text_lt_total(first, all[n as int]);
                assert(text_lt(all[n as int], first));
                if k > at {
                    assert(text_lt(first, here));
                    lemma_text_lt_transitive(all[n as int], first, here);
                }
            }
        }
        order.insert(at, n);
        proof {
            let after = order@;
            assert(after == before.insert(at as int, n));
            assert forall|k: int| 0 <= k < after.len() implies (#[trigger] after[k]) < n + 1 by {
                if k < at {
                    assert(after[k] == before[k]);
                } else if k > at {
                    assert(after[k] == before[k - 1]);
                }
            }
            assert forall|i: int, j: int| 0 <= i < j < after.len() implies text_lt(
                all[(#[trigger] after[i]) as int],
                all[(#[trigger] after[j]) as int],
            ) by {
                let bi = if i < at {
                    i
                } else {
                    i - 1
                };
                let bj = if j < at {
                    j
                } else {
                    j - 1
                };
                if i != at {
                    assert(after[i] == before[bi]);
                }
                if j != at {
                    assert(after[j] == before[bj]);
                }
            }
            assert forall|p: usize| p < n + 1 implies #[trigger] after.contains(p) by {
                if p == n {
                    assert(after[at as int] == n);
                } else {
                    assert(before.contains(p));
                    let k = choose|k: int| 0 <= k < before.len() && before[k] == p;
                    if k < at {
                        assert(after[k] == before[k]);
                    } else {
                        assert(after[k + 1] == before[k]);
                    }
                }
            }
        }
        n += 1;
    }
    order
}

/// Whether `text` matches the pattern `pattern`.
pub fn matches_glob(pattern: &Vec<char>, text: &Vec<char>) -> (r: bool)
    ensures
        r == glob_matches(pattern@, text@),
{
    let m = pattern.len();
    let n = text.len();
    // `below[k]` says whether the text from `k` on matches the pattern from
    // the position below the one being worked on; `below_end` says the same
    // of the empty rest of the text
    let mut below: Vec<bool> = Vec::new();
    let mut below_end: bool = true;
    let mut k: usize = 0;
    proof {
        assert(pattern@.skip(m as int).len() == 0);
    }
    while k < n
        invariant
            k <= n,
            n == text.len(),
            m == pattern.len(),
            below.len() == k,
            pattern@.skip(m as int).len() == 0,
            forall|q: int| 0 <= q < k ==> below[q] == glob_matches(pattern@.skip(m as int), text@.skip(q)),
        decreases n - k,
    {
        proof {
            assert(text@.skip(k as int).len() > 0);
        }
        below.push(false);
        k += 1;
    }
    proof {
        assert(text@.skip(n as int).len() == 0);
    }
    let mut i: usize = m;
    while i > 0
        invariant
            i <= m,
            n == text.len(),
            m == pattern.len(),
            below.len() == n,
            forall|q: int| 0 <= q < n ==> below[q] == glob_matches(pattern@.skip(i as int), text@.skip(q)),
            below_end == glob_matches(pattern@.skip(i as int), text@.skip(n as int)),
        decreases i,
    {
        i -= 1;
        let c = pattern[i];
        let ghost p = pattern@.skip(i as int);
        let ghost rest = pattern@.skip(i + 1);
        proof {
            assert(p.len() > 0 && p[0] == c);
            assert(p.drop_first() =~= rest);
            assert(text@.skip(n as int).len() == 0);
        }
        let here_end = c == '*' && below_end;
        let mut row: Vec<bool> = below.clone();
        proof {
            assert(row@ =~= below@);
        }
        let mut at: usize = n;
        let mut next: bool = here_end;
        while at > 0
            invariant
                at <= n,
                i < m,
                n == text.len(),
                m == pattern.len(),
                c == pattern[i as int],
                p == pattern@.skip(i as int),
                rest == pattern@.skip(i + 1),
                p.len() > 0 && p[0] == c,
                p.drop_first() == rest,
                below.len() == n,
                row.len() == n,
                forall|q: int| 0 <= q < n ==> below[q] == glob_matches(rest, text@.skip(q)),
                below_end == glob_matches(rest, text@.skip(n as int)),
                here_end == glob_matches(p, text@.skip(n as int)),
                forall|q: int| at <= q < n ==> row[q] == glob_matches(p, text@.skip(q)),
                next == glob_matches(p, text@.skip(at as int)),
            decreases at,
        {
            at -= 1;
            let ghost s = text@.skip(at as int);
            proof {
                assert(s.len() > 0 && s[0] == text@[at as int]);
                assert(s.drop_first() =~= text@.skip(at + 1));
            }
            let after = if at + 1 < n {
                below[at + 1]
            } else {
                below_end
            };
            let here = if c == '*' {
                below[at] || next
            } else if c == '?' || c == text[at] {
                after
            } else {
                false
            };
            proof {
                assert(after == glob_matches(rest, text@.skip(at + 1)));
                assert(here == glob_matches(p, s));
            }
            row.set(at, here);
            next = here;
        }
        below = row;
        below_end = here_end;
    }
    proof {
        assert(pattern@.skip(0) =~= pattern@);
        assert(text@.skip(0) =~= text@);
    }
    if n == 0 {
        below_end
    } else {
        below[0]
    }
}

/// What follows the marker is what follows the first entry with its name.
pub proof fn lemma_after_marker(ids: Seq<Seq<char>>, marker: Seq<char>, at: int)
    requires
        0 <= at <= ids.len(),
        forall|i: int| 0 <= i < at ==> sidecar_name_of(#[trigger] ids[i]) != marker,
        at < ids.len() ==> sidecar_name_of(ids[at]) == marker,
    ensures
        after_marker(ids, marker) == if at < ids.len() {
            ids.skip(at + 1)
        } else {
            Seq::<Seq<char>>::empty()
        },
    decreases ids.len(),
{
    if ids.len() == 0 {
        assert(ids =~= Seq::<Seq<char>>::empty());
    } else if at == 0 {
        assert(ids.drop_first() =~= ids.skip(1));
    } else {
        assert(sidecar_name_of(ids[0]) != marker);
        let rest = ids.drop_first();
        assert forall|i: int| 0 <= i < at - 1 implies sidecar_name_of(#[trigger] rest[i])
            != marker by {
            assert(rest[i] == ids[i + 1]);
        }
        lemma_after_marker(rest, marker, at - 1);
        if at < ids.len() {
            assert(rest.skip(at) =~= ids.skip(at + 1));
        }
    }
}

/// The page of the listing `ids` that a caller asks for.
pub fn page_of(ids: &Vec<String>, max_keys: Option<usize>, marker: Option<&str>) -> (r: Vec<String>)
    ensures
        r.deep_view() == page(
            ids.deep_view(),
            max_keys,
            match marker {
                Some(m) => Some(m@),
                None => None,
            },
        ),
{
    let ghost all = ids.deep_view();
    let start: usize = match marker {
        Some(m) => {
            let mut at: usize = 0;
            let mut found = false;
            while at < ids.len() && !found
                invariant
                    at <= ids.len(),
                    all == ids.deep_view(),
                    forall|i: int| 0 <= i < at ==> sidecar_name_of(#[trigger] all[i]) != m@,
                    found ==> at < ids.len() && sidecar_name_of(all[at as int]) == m@,
                decreases ids.len() - at + if found { 0int } else { 1int },
            {
                let name = crate::layout::sidecar_name(ids[at].as_str());
                if crate::text::same_text(name.as_str(), m) {
                    found = true;
                } else {
                    at += 1;
                }
            }
            proof {
                lemma_after_marker(all, m@, at as int);
            }
            if at < ids.len() {
                at + 1
            } else {
                at
            }
        },
        None => 0,
    };
    let ghost rest = all.skip(start as int);
    proof {
        assert(all.skip(0) =~= all);
        assert(all.skip(all.len() as int) =~= Seq::<Seq<char>>::empty());
    }
    let available = ids.len() - start;
    let count: usize = match max_keys {
        Some(n) => if n < available {
            n
        } else {
            available
        },
        None => available,
    };
    let mut out: Vec<String> = Vec::new();
    let mut i: usize = 0;
    proof {
        assert(out.deep_view() =~= rest.take(0));
    }
    while i < count
        invariant
            i <= count,
            start + count <= ids.len(),
            all == ids.deep_view(),
            rest == all.skip(start as int),
            out.deep_view() == rest.take(i as int),
        decreases count - i,
    {
        let ghost before = out.deep_view();
        out.push(ids[start + i].clone());
        proof {
            assert(out.deep_view() =~= before.push(all[start + i]));
            assert(rest.take(i + 1) =~= rest.take(i as int).push(rest[i as int]));
        }
        i += 1;
    }
    proof {
        assert(rest.take(rest.len() as int) =~= rest);
    }
    out
}

/// What follows the marker is part of the listing.
pub proof fn lemma_after_marker_within(ids: Seq<Seq<char>>, marker: Seq<char>)
    ensures
        forall|k: int|
            0 <= k < after_marker(ids, marker).len() ==> ids.contains(
                #[trigger] after_marker(ids, marker)[k],
            ),
    decreases ids.len(),
{
    if ids.len() > 0 {
        let rest = ids.drop_first();
        assert forall|k: int| 0 <= k < rest.len() implies ids.contains(#[trigger] rest[k]) by {
            assert(ids[k + 1] == rest[k]);
        }
        if sidecar_name_of(ids[0]) != marker {
            lemma_after_marker_within(rest, marker);
            assert forall|k: int| 0 <= k < after_marker(ids, marker).len() implies ids.contains(
                #[trigger] after_marker(ids, marker)[k],
            ) by {
                let x = after_marker(rest, marker)[k];
                assert(rest.contains(x));
                let j = choose|j: int| 0 <= j < rest.len() && rest[j] == x;
                assert(ids[j + 1] == x);
            }
        }
    }
}

/// Every entry of a page is an entry of the listing.
pub proof fn lemma_page_within(
    ids: Seq<Seq<char>>,
    max_keys: Option<usize>,
    marker: Option<Seq<char>>,
)
    ensures
        forall|k: int|
            0 <= k < page(ids, max_keys, marker).len() ==> ids.contains(
                #[trigger] page(ids, max_keys, marker)[k],
            ),
{
    let rest = match marker {
        Some(m) => after_marker(ids, m),
        None => ids,
    };
    if let Some(m) = marker {
        lemma_after_marker_within(ids, m);
    }
    assert forall|k: int| 0 <= k < page(ids, max_keys, marker).len() implies ids.contains(
        #[trigger] page(ids, max_keys, marker)[k],
    ) by {
        assert(page(ids, max_keys, marker)[k] == rest[k]);
        assert(ids.contains(rest[k]));
    }
}

/// How many entries at the head of a listing have a name below that of
/// `id`.
pub open spec fn place_of(ids: Seq<Seq<char>>, id: Seq<char>) -> int
    decreases ids.len(),
{
    if ids.len() == 0 {
        0
    } else if text_lt(sidecar_name_of(ids[0]), sidecar_name_of(id)) {
        1 + place_of(ids.drop_first(), id)
    } else {
        0
    }
}

/// In a listing, the entries before the place of `id` have names below its
/// name, and the entries from its place on have not.
pub proof fn lemma_place_of(ids: Seq<Seq<char>>, id: Seq<char>)
    requires
        ascending(ids),
    ensures
        0 <= place_of(ids, id) <= ids.len(),
        forall|i: int|
            0 <= i < place_of(ids, id) ==> text_lt(
                sidecar_name_of(#[trigger] ids[i]),
                sidecar_name_of(id),
            ),
        forall|i: int|
            place_of(ids, id) <= i < ids.len() ==> !text_lt(
                sidecar_name_of(#[trigger] ids[i]),
                sidecar_name_of(id),
            ),
    decreases ids.len(),
{
    if ids.len() > 0 {
        let rest = ids.drop_first();
        assert(ascending(rest)) by {
            assert forall|i: int, j: int| 0 <= i < j < rest.len() implies text_lt(
                sidecar_name_of(#[trigger] rest[i]),
                sidecar_name_of(#[trigger] rest[j]),
            ) by {
                assert(rest[i] == ids[i + 1] && rest[j] == ids[j + 1]);
            }
        }
        if text_lt(sidecar_name_of(ids[0]), sidecar_name_of(id)) {
            lemma_place_of(rest, id);
            let p = place_of(ids, id);
            assert forall|i: int| 0 <= i < p implies text_lt(
                sidecar_name_of(#[trigger] ids[i]),
                sidecar_name_of(id),
            ) by {
                if i > 0 {
                    assert(rest[i - 1] == ids[i]);
                }
            }
            assert forall|i: int| p <= i < ids.len() implies !text_lt(
                sidecar_name_of(#[trigger] ids[i]),
                sidecar_name_of(id),
            ) by {
                assert(rest[i - 1] == ids[i]);
            }
        } else {
            assert forall|i: int| 0 <= i < ids.len() implies !text_lt(
                sidecar_name_of(#[trigger] ids[i]),
                sidecar_name_of(id),
            ) by {
                if i > 0 && text_lt(sidecar_name_of(ids[i]), sidecar_name_of(id)) {
                    assert(text_lt(sidecar_name_of(ids[0]), sidecar_name_of(ids[i])));
                    lemma_text_lt_transitive(
                        sidecar_name_of(ids[0]),
                        sidecar_name_of(ids[i]),
                        sidecar_name_of(id),
                    );
                }
            }
        }
    }
}

/// Finitely many identifiers have a listing, and it lists them.
pub proof fn lemma_listing_exists(all: Set<Seq<char>>)
    requires
        all.finite(),
    ensures
        lists(listing(all), all),
    decreases all.len(),
{
    if all.len() == 0 {
        all.lemma_len0_is_empty();
        let none = Seq::<Seq<char>>::empty();
        assert(lists(none, all));
    } else {
        let x = all.choose();
        let rest = all.remove(x);
        lemma_listing_exists(rest);
        let l = listing(rest);
        let p = place_of(l, x);
        lemma_place_of(l, x);
        let out = l.insert(p, x);
        assert forall|i: int, j: int| 0 <= i < j < out.len() implies text_lt(
            sidecar_name_of(#[trigger] out[i]),
            sidecar_name_of(#[trigger] out[j]),
        ) by {
            let li = if i < p {
                i
            } else {
                i - 1
            };
            let lj = if j < p {
                j
            } else {
                j - 1
            };
            if i != p {
                assert(out[i] == l[li]);
            }
            if j != p {
                assert(out[j] == l[lj]);
            }
            if i == p {
                assert(l.contains(l[lj]));
                assert(l[lj] != x);
                if sidecar_name_of(l[lj]) == sidecar_name_of(x) {
                    lemma_sidecar_name_injective(l[lj], x);
                }
                lemma_text_lt_total(sidecar_name_of(l[lj]), sidecar_name_of(x));
            }
        }
        assert forall|y: Seq<char>| #[trigger] out.contains(y) <==> all.contains(y) by {
            if out.contains(y) {
                let k = choose|k: int| 0 <= k < out.len() && out[k] == y;
                if k < p {
                    assert(l[k] == y);
                    assert(l.contains(y));
                } else if k > p {
                    assert(l[k - 1] == y);
                    assert(l.contains(y));
                }
            }
            if all.contains(y) {
                if y == x {
                    assert(out[p] == x);
                } else {
                    assert(rest.contains(y));
                    assert(l.contains(y));
                    let k = choose|k: int| 0 <= k < l.len() && l[k] == y;
                    if k < p {
                        assert(out[k] == y);
                    } else {
                        assert(out[k + 1] == y);
                    }
                }
            }
        }
        assert(lists(out, all));
    }
}

} // verus!
