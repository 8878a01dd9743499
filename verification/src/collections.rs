//! Insertion-ordered maps from indexmap, seen through their entries.

use indexmap::IndexMap;
use vstd::prelude::*;

verus! {

#[verifier::external_type_specification]
#[verifier::external_body]
#[verifier::reject_recursive_types(K)]
#[verifier::reject_recursive_types(V)]
#[verifier::reject_recursive_types(S)]
pub struct ExIndexMap<K, V, S>(IndexMap<K, V, S>);

/// Position of the first entry whose key is `k`, or -1.
pub open spec fn key_index<V>(e: Seq<(Seq<char>, V)>, k: Seq<char>) -> int
    decreases e.len(),
{
    if e.len() == 0 {
        -1
    } else if e[0].0 == k {
        0
    } else {
        let r = key_index(e.drop_first(), k);
        if r < 0 {
            -1
        } else {
            r + 1
        }
    }
}

pub proof fn lemma_key_index<V>(e: Seq<(Seq<char>, V)>, k: Seq<char>)
    ensures
        -1 <= key_index(e, k) < e.len(),
        key_index(e, k) >= 0 ==> e[key_index(e, k)].0 == k,
        key_index(e, k) >= 0 ==> forall|j: int| 0 <= j < key_index(e, k) ==> (#[trigger] e[j]).0 != k,
        key_index(e, k) < 0 ==> forall|j: int| 0 <= j < e.len() ==> (#[trigger] e[j]).0 != k,
    decreases e.len(),
{
    if e.len() > 0 && e[0].0 != k {
        let t = e.drop_first();
        lemma_key_index(t, k);
        assert forall|j: int| 0 < j < e.len() implies e[j] == t[j - 1] by {}
    }
}

/// `IndexMap::insert`: an existing key keeps its place and takes the new
/// value; a new key is added last.
pub open spec fn entries_insert<V>(e: Seq<(Seq<char>, V)>, k: Seq<char>, v: V) -> Seq<(Seq<char>, V)> {
    let i = key_index(e, k);
    if 0 <= i < e.len() {
        e.update(i, (k, v))
    } else {
        e.push((k, v))
    }
}

/// `IndexMap::get`.
pub open spec fn entries_get<V>(e: Seq<(Seq<char>, V)>, k: Seq<char>) -> Option<V> {
    let i = key_index(e, k);
    if 0 <= i < e.len() {
        Some(e[i].1)
    } else {
        None
    }
}

/// No key appears twice.
pub open spec fn keys_distinct<V>(e: Seq<(Seq<char>, V)>) -> bool {
    forall|i: int, j: int| 0 <= i < j < e.len() ==> (#[trigger] e[i]).0 != (#[trigger] e[j]).0
}

/// Inserting keeps keys distinct, makes the key read back as the value and
/// leaves every other key's value as it was.
pub proof fn law_insert_then_get<V>(e: Seq<(Seq<char>, V)>, k: Seq<char>, v: V, other: Seq<char>)
    requires
        keys_distinct(e),
    ensures
        keys_distinct(entries_insert(e, k, v)),
        entries_get(entries_insert(e, k, v), k) == Some(v),
        other != k ==> entries_get(entries_insert(e, k, v), other) == entries_get(e, other),
        entries_insert(e, k, v).len() == e.len() + (if entries_get(e, k) is Some {
            0int
        } else {
            1int
        }),
{
    lemma_key_index(e, k);
    lemma_key_index(e, other);
    let r = entries_insert(e, k, v);
    let i = key_index(e, k);
    if i >= 0 {
        assert forall|a: int, b: int| 0 <= a < b < r.len() implies (#[trigger] r[a]).0 != (
        #[trigger] r[b]).0 by {
            assert(e[a].0 != e[b].0);
        }
    } else {
        assert forall|a: int, b: int| 0 <= a < b < r.len() implies (#[trigger] r[a]).0 != (
        #[trigger] r[b]).0 by {
            if b < e.len() {
                assert(e[a].0 != e[b].0);
            } else {
                assert(r[b].0 == k);
                assert(e[a].0 != k);
            }
        }
    }
    lemma_key_index(r, k);
    lemma_key_index(r, other);
    let ri = key_index(r, k);
    if i >= 0 {
        assert(r[i].0 == k);
        if ri < i {
            if ri >= 0 {
                assert(r[ri] == e[ri]);
            }
        }
        assert(ri == i);
    } else {
        assert(r[e.len() as int].0 == k);
        if ri < e.len() && ri >= 0 {
            assert(r[ri] == e[ri]);
        }
        assert(ri == e.len());
    }
    if other != k {
        let oi = key_index(e, other);
        let ro = key_index(r, other);
        if oi >= 0 {
            assert(r[oi].0 == other);
            if ro < oi && ro >= 0 {
                assert(r[ro].0 == e[ro].0);
            }
            if ro < 0 {
                assert(r[oi].0 == other);
            }
        } else {
            if ro >= 0 {
                if ro < e.len() {
                    assert(r[ro].0 == e[ro].0);
                } else {
                    assert(r[ro].0 == k);
                }
            }
        }
    }
}

/// The entries of a map from names to numeric ids, in insertion order.
pub uninterp spec fn id_map_entries(m: IndexMap<String, i64>) -> Seq<(Seq<char>, i64)>;

/// `IndexMap::new`.
#[verifier::external_body]
pub(crate) fn id_map_new() -> (r: IndexMap<String, i64>)
    ensures
        id_map_entries(r) == Seq::<(Seq<char>, i64)>::empty(),
        keys_distinct(id_map_entries(r)),
{
    IndexMap::new()
}

/// `IndexMap::insert`, as its documentation describes it; an IndexMap never
/// holds a key twice.
#[verifier::external_body]
pub(crate) fn id_map_insert(m: &mut IndexMap<String, i64>, k: String, v: i64)
    ensures
        id_map_entries(*final(m)) == entries_insert(id_map_entries(*old(m)), k@, v),
        keys_distinct(id_map_entries(*final(m))),
{
    m.insert(k, v);
}

/// `IndexMap::get`, the value copied out.
#[verifier::external_body]
pub(crate) fn id_map_get(m: &IndexMap<String, i64>, k: &str) -> (r: Option<i64>)
    ensures
        r == entries_get(id_map_entries(*m), k@),
{
    m.get(k).copied()
}

pub open spec fn id_entry_views(v: Seq<(String, i64)>) -> Seq<(Seq<char>, i64)> {
    v.map_values(|p: (String, i64)| (p.0@, p.1))
}

/// `IndexMap::iter`, each entry copied out in order.
#[verifier::external_body]
pub(crate) fn id_map_pairs(m: &IndexMap<String, i64>) -> (r: Vec<(String, i64)>)
    ensures
        id_entry_views(r@) == id_map_entries(*m),
{
    m.iter().map(|(k, v)| (k.clone(), *v)).collect()
}

/// The entries of a map from names to text, in insertion order.
pub uninterp spec fn text_map_entries(m: IndexMap<String, String>) -> Seq<(Seq<char>, Seq<char>)>;

/// `IndexMap::new`.
#[verifier::external_body]
pub(crate) fn text_map_new() -> (r: IndexMap<String, String>)
    ensures
        text_map_entries(r) == Seq::<(Seq<char>, Seq<char>)>::empty(),
        keys_distinct(text_map_entries(r)),
{
    IndexMap::new()
}

/// `IndexMap::insert`, as its documentation describes it; an IndexMap never
/// holds a key twice.
#[verifier::external_body]
pub(crate) fn text_map_insert(m: &mut IndexMap<String, String>, k: String, v: String)
    ensures
        text_map_entries(*final(m)) == entries_insert(text_map_entries(*old(m)), k@, v@),
        keys_distinct(text_map_entries(*final(m))),
{
    m.insert(k, v);
}

pub open spec fn opt_text(o: Option<String>) -> Option<Seq<char>> {
    match o {
        Some(s) => Some(s@),
        None => None,
    }
}

/// `IndexMap::get`, the value copied out.
#[verifier::external_body]
pub(crate) fn text_map_get(m: &IndexMap<String, String>, k: &str) -> (r: Option<String>)
    ensures
        opt_text(r) == entries_get(text_map_entries(*m), k@),
{
    m.get(k).cloned()
}

/// `IndexMap::clone`: the same entries in the same order.
#[verifier::external_body]
pub(crate) fn text_map_clone(m: &IndexMap<String, String>) -> (r: IndexMap<String, String>)
    ensures
        text_map_entries(r) == text_map_entries(*m),
        keys_distinct(text_map_entries(r)),
{
    m.clone()
}

pub open spec fn text_entry_views(v: Seq<(String, String)>) -> Seq<(Seq<char>, Seq<char>)> {
    v.map_values(|p: (String, String)| (p.0@, p.1@))
}

/// `IndexMap::iter`, each entry copied out in order.
#[verifier::external_body]
pub(crate) fn text_map_pairs(m: &IndexMap<String, String>) -> (r: Vec<(String, String)>)
    ensures
        text_entry_views(r@) == text_map_entries(*m),
{
    m.iter().map(|(k, v)| (k.clone(), v.clone())).collect()
}

} // verus!
