//! Insertion-ordered maps keyed by text, as `indexmap::IndexMap` keeps them.
//!
//! A map is modelled by its entries in order: keys are distinct, inserting a known key replaces
//! the value in place, and inserting a new key puts it last.

use indexmap::IndexMap;
use vstd::prelude::*;
use vstd::seq_lib::{to_multiset_contains, to_multiset_len, to_multiset_remove};

use crate::text::{order_is_strict, precedes};

verus! {

/// `indexmap::IndexMap`, a hash table whose entries have an order.
#[verifier::external_type_specification]
#[verifier::external_body]
#[verifier::reject_recursive_types(K)]
#[verifier::reject_recursive_types(V)]
#[verifier::reject_recursive_types(S)]
pub struct ExIndexMap<K, V, S>(IndexMap<K, V, S>);

/// The entries of a map from text to text, in the map's order.
pub uninterp spec fn text_entries(m: IndexMap<String, String>) -> Seq<(Seq<char>, Seq<char>)>;

/// The entries of a map from paths to contents, in the map's order.
pub uninterp spec fn file_entries(m: IndexMap<String, Vec<u8>>) -> Seq<(Seq<char>, Seq<u8>)>;

/// Whether some entry has this key.
pub open spec fn has_key<V>(entries: Seq<(Seq<char>, V)>, key: Seq<char>) -> bool {
    exists|i: int| 0 <= i < entries.len() && (#[trigger] entries[i]).0 == key
}

/// Whether no two entries share a key.
pub open spec fn distinct_keys<V>(entries: Seq<(Seq<char>, V)>) -> bool {
    forall|i: int, j: int|
        0 <= i < j < entries.len() ==> (#[trigger] entries[i]).0 != (#[trigger] entries[j]).0
}

/// The entries after inserting `value` under `key`: in place if the key is there, else last.
pub open spec fn put<V>(entries: Seq<(Seq<char>, V)>, key: Seq<char>, value: V) -> Seq<
    (Seq<char>, V),
> {
    if has_key(entries, key) {
        entries.map_values(
            |e: (Seq<char>, V)|
                if e.0 == key {
                    (key, value)
                } else {
                    e
                },
        )
    } else {
        entries.push((key, value))
    }
}

/// Whether the keys are strictly increasing in the order of code points.
pub open spec fn sorted_keys<V>(entries: Seq<(Seq<char>, V)>) -> bool {
    forall|i: int, j: int|
        0 <= i < j < entries.len() ==> precedes(
            (#[trigger] entries[i]).0,
            (#[trigger] entries[j]).0,
        )
}

/// The entries of a list of borrowed text pairs.
pub open spec fn text_pairs_view(pairs: Seq<(&String, &String)>) -> Seq<(Seq<char>, Seq<char>)> {
    pairs.map_values(|p: (&String, &String)| (p.0@, p.1@))
}

/// The entries of a list of borrowed pairs of path and contents.
pub open spec fn file_pairs_view(pairs: Seq<(&String, &Vec<u8>)>) -> Seq<(Seq<char>, Seq<u8>)> {
    pairs.map_values(|p: (&String, &Vec<u8>)| (p.0@, p.1@))
}

/// `IndexMap::new`: a map without entries.
#[verifier::external_body]
pub(crate) fn new_text_map() -> (m: IndexMap<String, String>)
    ensures
        text_entries(m) == Seq::<(Seq<char>, Seq<char>)>::empty(),
{
    IndexMap::new()
}

/// `IndexMap::insert`: replaces the value of a known key in place, or adds the entry last.
#[verifier::external_body]
pub(crate) fn insert_text(m: &mut IndexMap<String, String>, key: String, value: String)
    ensures
        text_entries(*final(m)) == put(text_entries(*old(m)), key@, value@),
{
    m.insert(key, value);
}

/// `IndexMap::sort_keys`: the same entries, ordered by key. Strings are ordered by code points.
#[verifier::external_body]
pub(crate) fn sort_text(m: &mut IndexMap<String, String>)
    ensures
        text_entries(*final(m)).to_multiset() == text_entries(*old(m)).to_multiset(),
        sorted_keys(text_entries(*final(m))),
{
    m.sort_keys();
}

/// `IndexMap::iter`: the entries in the map's order. A map holds no key twice.
#[verifier::external_body]
pub(crate) fn text_pairs<'a>(m: &'a IndexMap<String, String>) -> (r: Vec<(&'a String, &'a String)>)
    ensures
        text_pairs_view(r@) == text_entries(*m),
        distinct_keys(text_pairs_view(r@)),
{
    m.iter().collect()
}

/// `IndexMap::new`: a map without entries.
#[verifier::external_body]
pub(crate) fn new_file_map() -> (m: IndexMap<String, Vec<u8>>)
    ensures
        file_entries(m) == Seq::<(Seq<char>, Seq<u8>)>::empty(),
{
    IndexMap::new()
}

/// `IndexMap::insert`: replaces the value of a known key in place, or adds the entry last.
#[verifier::external_body]
pub(crate) fn insert_file(m: &mut IndexMap<String, Vec<u8>>, key: String, value: Vec<u8>)
    ensures
        file_entries(*final(m)) == put(file_entries(*old(m)), key@, value@),
{
    m.insert(key, value);
}

/// `IndexMap::contains_key`: whether the map has the key.
#[verifier::external_body]
pub(crate) fn contains_file(m: &IndexMap<String, Vec<u8>>, key: &str) -> (r: bool)
    ensures
        r == has_key(file_entries(*m), key@),
{
    m.contains_key(key)
}

/// `IndexMap::sort_keys`: the same entries, ordered by key. Strings are ordered by code points.
#[verifier::external_body]
pub(crate) fn sort_files(m: &mut IndexMap<String, Vec<u8>>)
    ensures
        file_entries(*final(m)).to_multiset() == file_entries(*old(m)).to_multiset(),
        sorted_keys(file_entries(*final(m))),
{
    m.sort_keys();
}

/// `IndexMap::iter`: the entries in the map's order. A map holds no key twice.
#[verifier::external_body]
pub(crate) fn file_pairs<'a>(m: &'a IndexMap<String, Vec<u8>>) -> (r: Vec<
    (&'a String, &'a Vec<u8>),
>)
    ensures
        file_pairs_view(r@) == file_entries(*m),
        distinct_keys(file_pairs_view(r@)),
{
    m.iter().collect()
}

/// Putting a value under a key keeps keys distinct, holds the value under the key, and leaves what
/// is under other keys as it is.
pub proof fn put_changes_one_key<V>(entries: Seq<(Seq<char>, V)>, key: Seq<char>, value: V)
    ensures
        put(entries, key, value).contains((key, value)),
        forall|e: (Seq<char>, V)|
            e.0 != key ==> #[trigger] put(entries, key, value).contains(e) == entries.contains(e),
        forall|e: (Seq<char>, V)| #[trigger]
            put(entries, key, value).contains(e) && e.0 == key ==> e.1 == value,
        distinct_keys(entries) ==> distinct_keys(put(entries, key, value)),
{
    let after = put(entries, key, value);
    if has_key(entries, key) {
        let i = choose|i: int| 0 <= i < entries.len() && (#[trigger] entries[i]).0 == key;
        assert(after[i] == (key, value));
        assert forall|e: (Seq<char>, V)| e.0 != key implies #[trigger] after.contains(e)
            == entries.contains(e) by {
            if entries.contains(e) {
                let j = choose|j: int| 0 <= j < entries.len() && entries[j] == e;
                assert(after[j] == e);
            }
            if after.contains(e) {
                let j = choose|j: int| 0 <= j < after.len() && after[j] == e;
                assert(entries[j] == e);
            }
        }
        if distinct_keys(entries) {
            assert forall|a: int, b: int| 0 <= a < b < after.len() implies (#[trigger] after[a]).0
                != (#[trigger] after[b]).0 by {
                assert(entries[a].0 != entries[b].0);
            }
        }
    } else {
        assert(after[entries.len() as int] == (key, value));
        assert forall|e: (Seq<char>, V)| e.0 != key implies #[trigger] after.contains(e)
            == entries.contains(e) by {
            if entries.contains(e) {
                let j = choose|j: int| 0 <= j < entries.len() && entries[j] == e;
                assert(after[j] == e);
            }
            if after.contains(e) {
                let j = choose|j: int| 0 <= j < after.len() && after[j] == e;
                assert(j < entries.len() && entries[j] == e);
            }
        }
        assert forall|e: (Seq<char>, V)| #[trigger] after.contains(e) && e.0 == key implies e.1
            == value by {
            let j = choose|j: int| 0 <= j < after.len() && after[j] == e;
            if j < entries.len() {
                assert(entries[j].0 == key);
            }
        }
        if distinct_keys(entries) {
            assert forall|a: int, b: int| 0 <= a < b < after.len() implies (#[trigger] after[a]).0
                != (#[trigger] after[b]).0 by {
                assert(entries[a] == after[a]);
                if b < entries.len() {
                    assert(entries[b] == after[b]);
                }
            }
        }
    }
}

/// Entries can be put in the order of their keys in one way only.
pub proof fn arrangement_is_unique<V>(a: Seq<(Seq<char>, V)>, b: Seq<(Seq<char>, V)>)
    requires
        sorted_keys(a),
        sorted_keys(b),
        a.to_multiset() == b.to_multiset(),
    ensures
        a == b,
    decreases a.len(),
{
    to_multiset_len(a);
    to_multiset_len(b);
    if a.len() == 0 {
        assert(a =~= b);
    } else {
        let n = a.len() - 1;
        to_multiset_contains(a, a.last());
        to_multiset_contains(b, a.last());
        to_multiset_contains(a, b.last());
        to_multiset_contains(b, b.last());
        assert(a[n] == a.last() && b[n] == b.last());
        if a.last() != b.last() {
            let i = choose|i: int| 0 <= i < b.len() && b[i] == a.last();
            let j = choose|j: int| 0 <= j < a.len() && a[j] == b.last();
            assert(precedes(b[i].0, b[n].0));
            assert(precedes(a[j].0, a[n].0));
            order_is_strict(a.last().0, b.last().0);
        }
        to_multiset_remove(a, n);
        to_multiset_remove(b, n);
        assert(a.remove(n) =~= a.drop_last());
        assert(b.remove(n) =~= b.drop_last());
        arrangement_is_unique(a.drop_last(), b.drop_last());
        assert(a =~= a.drop_last().push(a.last()));
        assert(b =~= b.drop_last().push(b.last()));
    }
}

/// Entries in the order of their keys are known by what they hold.
pub proof fn membership_decides<V>(a: Seq<(Seq<char>, V)>, b: Seq<(Seq<char>, V)>)
    requires
        sorted_keys(a),
        sorted_keys(b),
        forall|e: (Seq<char>, V)| #[trigger] a.contains(e) == b.contains(e),
    ensures
        a == b,
{
    lemma_sorted_distinct(a);
    lemma_sorted_distinct(b);
    lemma_same_members(a, b);
    arrangement_is_unique(a, b);
}

/// No two keys are the same where each comes before the next.
pub(crate) proof fn lemma_sorted_distinct<V>(entries: Seq<(Seq<char>, V)>)
    requires
        sorted_keys(entries),
    ensures
        distinct_keys(entries),
{
    assert forall|i: int, j: int| 0 <= i < j < entries.len() implies (#[trigger] entries[i]).0 != (
    #[trigger] entries[j]).0 by {
        order_is_strict(entries[i].0, entries[j].0);
    }
}

/// Lists with distinct keys that hold the same hold it as often.
pub(crate) proof fn lemma_same_members<V>(a: Seq<(Seq<char>, V)>, b: Seq<(Seq<char>, V)>)
    requires
        distinct_keys(a),
        distinct_keys(b),
        forall|e: (Seq<char>, V)| #[trigger] a.contains(e) == b.contains(e),
    ensures
        a.to_multiset() == b.to_multiset(),
{
    broadcast use vstd::multiset::group_multiset_axioms;

    a.lemma_multiset_has_no_duplicates();
    b.lemma_multiset_has_no_duplicates();
    assert forall|e: (Seq<char>, V)| a.to_multiset().count(e) == b.to_multiset().count(e) by {
        to_multiset_contains(a, e);
        to_multiset_contains(b, e);
        assert(a.contains(e) == b.contains(e));
    }
    assert(a.to_multiset() =~= b.to_multiset());
}

/// Lists that hold the same as often do so after every item is mapped.
pub(crate) proof fn lemma_mapped_multiset<A, B>(a: Seq<A>, b: Seq<A>, f: spec_fn(A) -> B)
    requires
        a.to_multiset() == b.to_multiset(),
    ensures
        a.map_values(f).to_multiset() == b.map_values(f).to_multiset(),
    decreases a.len(),
{
    broadcast use vstd::multiset::group_multiset_axioms;

    to_multiset_len(a);
    to_multiset_len(b);
    if a.len() == 0 {
        assert(a.map_values(f) =~= b.map_values(f));
    } else {
        let n = a.len() - 1;
        to_multiset_contains(a, a[n]);
        to_multiset_contains(b, a[n]);
        let j = choose|j: int| 0 <= j < b.len() && b[j] == a[n];
        to_multiset_remove(a, n);
        to_multiset_remove(b, j);
        lemma_mapped_multiset(a.remove(n), b.remove(j), f);
        let fa = a.map_values(f);
        let fb = b.map_values(f);
        assert(fa.remove(n) =~= a.remove(n).map_values(f));
        assert(fb.remove(j) =~= b.remove(j).map_values(f));
        to_multiset_remove(fa, n);
        to_multiset_remove(fb, j);
        to_multiset_contains(fa, fa[n]);
        to_multiset_contains(fb, fb[j]);
        assert(fa.to_multiset() =~= fa.to_multiset().remove(fa[n]).insert(fa[n]));
        assert(fb.to_multiset() =~= fb.to_multiset().remove(fb[j]).insert(fb[j]));
    }
}

/// Another order keeps keys distinct.
pub(crate) proof fn lemma_reordered_distinct<V>(a: Seq<(Seq<char>, V)>, b: Seq<(Seq<char>, V)>)
    requires
        distinct_keys(a),
        a.to_multiset() == b.to_multiset(),
    ensures
        distinct_keys(b),
{
    a.lemma_multiset_has_no_duplicates();
    b.lemma_multiset_has_no_duplicates_conv();
    assert forall|i: int, j: int| 0 <= i < j < b.len() implies (#[trigger] b[i]).0 != (
    #[trigger] b[j]).0 by {
        to_multiset_contains(a, b[i]);
        to_multiset_contains(a, b[j]);
        to_multiset_contains(b, b[i]);
        to_multiset_contains(b, b[j]);
        let k = choose|k: int| 0 <= k < a.len() && a[k] == b[i];
        let l = choose|l: int| 0 <= l < a.len() && a[l] == b[j];
        assert(b[i] != b[j]);
        if k < l {
            assert(a[k].0 != a[l].0);
        } else {
            assert(a[l].0 != a[k].0);
        }
    }
}

/// Putting a value under a key adds no other key.
pub(crate) proof fn lemma_put_keys<V>(
    entries: Seq<(Seq<char>, V)>,
    key: Seq<char>,
    value: V,
    other: Seq<char>,
)
    ensures
        has_key(put(entries, key, value), other) == (other == key || has_key(entries, other)),
{
    let after = put(entries, key, value);
    put_changes_one_key(entries, key, value);
    if other == key {
        let i = choose|i: int| 0 <= i < after.len() && after[i] == (key, value);
        assert(after[i].0 == other);
    } else {
        if has_key(entries, other) {
            let i = choose|i: int| 0 <= i < entries.len() && (#[trigger] entries[i]).0 == other;
            assert(entries.contains(entries[i]));
            assert(after.contains(entries[i]));
        }
        if has_key(after, other) {
            let i = choose|i: int| 0 <= i < after.len() && (#[trigger] after[i]).0 == other;
            assert(after.contains(after[i]));
            assert(entries.contains(after[i]));
        }
    }
}

} // verus!
