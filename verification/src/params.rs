//! Ordered parameter maps (`indexmap::IndexMap`), as the boot settings hold them.
//!
//! The logic of this crate sees such a map through the sequence of its entries
//! in insertion order; the trusted items below say how the `indexmap` calls
//! that the logic makes act on that sequence.

use indexmap::IndexMap;
use vstd::prelude::*;

verus! {

/// The map type of `indexmap`, opaque to Verus.
#[verifier::external_type_specification]
#[verifier::external_body]
#[verifier::reject_recursive_types(K)]
#[verifier::reject_recursive_types(V)]
#[verifier::reject_recursive_types(S)]
pub struct ExIndexMap<K, V, S>(IndexMap<K, V, S>);

/// The parameters of one section of the boot config: keys to lists of values.
pub type ParamMap = IndexMap<String, Vec<String>>;

/// One entry of a parameter map: a key and its list of values.
pub type Entry = (Seq<char>, Seq<Seq<char>>);

/// The entries of a parameter map, in the map's order.
pub uninterp spec fn param_entries(m: IndexMap<String, Vec<String>>) -> Seq<(Seq<char>, Seq<Seq<char>>)>;

/// The position of the first entry whose key is `k`, if there is one.
pub open spec fn key_index(entries: Seq<Entry>, k: Seq<char>) -> Option<int>
    decreases entries.len(),
{
    if entries.len() == 0 {
        None
    } else if entries[0].0 == k {
        Some(0)
    } else {
        match key_index(entries.drop_first(), k) {
            Some(i) => Some(i + 1),
            None => None,
        }
    }
}

/// What `IndexMap::insert` does to the entries: an existing key keeps its place
/// and gets the new values; a new key is appended.
pub open spec fn insert_entry(entries: Seq<Entry>, k: Seq<char>, vs: Seq<Seq<char>>) -> Seq<Entry> {
    match key_index(entries, k) {
        Some(i) => entries.update(i, (entries[i].0, vs)),
        None => entries.push((k, vs)),
    }
}

/// `IndexMap::new`: the empty map.
#[verifier::external_body]
pub(crate) fn params_new() -> (m: ParamMap)
    ensures
        param_entries(m) == Seq::<Entry>::empty(),
{
    IndexMap::new()
}

/// `IndexMap::insert`: replaces the values of an existing key in place, or
/// appends a new entry last (the returned old value is not used).
#[verifier::external_body]
pub(crate) fn params_insert(m: &mut ParamMap, key: String, values: Vec<String>)
    ensures
        param_entries(*final(m)) == insert_entry(param_entries(*old(m)), key@, values.deep_view()),
{
    m.insert(key, values);
}

/// `IndexMap::len`: the number of entries.
#[verifier::external_body]
pub(crate) fn params_len(m: &ParamMap) -> (n: usize)
    ensures
        n == param_entries(*m).len(),
{
    m.len()
}

/// `IndexMap::is_empty`: whether there are no entries.
#[verifier::external_body]
pub(crate) fn params_is_empty(m: &ParamMap) -> (r: bool)
    ensures
        r == (param_entries(*m).len() == 0),
{
    m.is_empty()
}

/// `IndexMap::get_index`: the entry at position `i`, if `i` is below the length.
#[verifier::external_body]
pub(crate) fn params_get_index(m: &ParamMap, i: usize) -> (r: Option<(&String, &Vec<String>)>)
    ensures
        r is Some <==> i < param_entries(*m).len(),
        r matches Some(e) ==> (e.0@, e.1.deep_view()) == param_entries(*m)[i as int],
{
    m.get_index(i)
}

/// Two entry sequences hold the same entries, whatever their order: equal
/// lengths, every entry of `a` in `b` and every entry of `b` in `a`.
pub open spec fn same_entries(a: Seq<Entry>, b: Seq<Entry>) -> bool {
    &&& a.len() == b.len()
    &&& forall|i: int| 0 <= i < a.len() ==> has_entry(b, #[trigger] a[i])
    &&& forall|j: int| 0 <= j < b.len() ==> has_entry(a, #[trigger] b[j])
}

/// `b` holds the entry `e` (its key, with equal values).
pub open spec fn has_entry(b: Seq<Entry>, e: Entry) -> bool {
    exists|j: int| 0 <= j < b.len() && b[j] == e
}

/// `==` on two `IndexMap`s (order does not matter). The source computes:
/// equal lengths, and each key of `a` found in `b` (`IndexMap::get`) with
/// values equal under `==` on `Vec<String>`. An `IndexMap` holds each key
/// once, so the entry that `get` finds is the only one of `b` with that key,
/// and with equal lengths and distinct keys on both sides, every entry of `a`
/// being in `b` is the same as the two maps holding the same entries, which
/// is what the clause says.
#[verifier::external_body]
pub(crate) fn params_eq(a: &ParamMap, b: &ParamMap) -> (r: bool)
    ensures
        r == same_entries(param_entries(*a), param_entries(*b)),
{
    a == b
}

} // verus!
