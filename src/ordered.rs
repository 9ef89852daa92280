//! The order-preserving maps of `indexmap`, as seen by the verified code.
//!
//! `IndexMap` is opaque to the verifier. Its contents are named by
//! `entries_of` (a map of strings) and `scope_entries_of` (a map of scopes);
//! each method the library calls has a wrapper whose contract is stated over
//! those names, following the documentation of the `indexmap` crate.
use vstd::prelude::*;
use indexmap::IndexMap;
use crate::entries::{inserted, key_pos, keys_unique};

verus! {

#[verifier::external_type_specification]
#[verifier::external_body]
#[verifier::reject_recursive_types(K)]
#[verifier::reject_recursive_types(V)]
#[verifier::reject_recursive_types(S)]
pub struct ExIndexMap<K, V, S>(IndexMap<K, V, S>);

/// Entries of a string-to-string `IndexMap`, in the map's order.
pub uninterp spec fn entries_of(m: IndexMap<String, String>) -> Seq<(Seq<char>, Seq<char>)>;

/// Entries of a scope map, in the map's order; each scope's mapping is given
/// by its own entries.
pub uninterp spec fn scope_entries_of(m: IndexMap<String, IndexMap<String, String>>) -> Seq<
    (Seq<char>, Seq<(Seq<char>, Seq<char>)>),
>;

/// Relies on `IndexMap::new`: a new map is empty.
#[verifier::external_body]
pub(crate) fn new_string_map() -> (r: IndexMap<String, String>)
    ensures
        entries_of(r) == Seq::<(Seq<char>, Seq<char>)>::empty(),
{
    IndexMap::new()
}

/// Relies on `IndexMap::new`: a new map is empty.
#[verifier::external_body]
pub(crate) fn new_scope_map() -> (r: IndexMap<String, IndexMap<String, String>>)
    ensures
        scope_entries_of(r) == Seq::<(Seq<char>, Seq<(Seq<char>, Seq<char>)>)>::empty(),
{
    IndexMap::new()
}

/// Relies on `IndexMap::insert`: an existing key keeps its place and takes the
/// new value; a new key is inserted last.
#[verifier::external_body]
pub(crate) fn string_map_insert(m: &mut IndexMap<String, String>, k: String, v: String)
    ensures
        entries_of(*final(m)) == inserted(entries_of(*old(m)), k@, v@),
{
    m.insert(k, v);
}

/// Relies on `IndexMap::insert`: an existing key keeps its place and takes the
/// new value; a new key is inserted last.
#[verifier::external_body]
pub(crate) fn scope_map_insert(
    m: &mut IndexMap<String, IndexMap<String, String>>,
    k: String,
    v: IndexMap<String, String>,
)
    ensures
        scope_entries_of(*final(m)) == inserted(scope_entries_of(*old(m)), k@, entries_of(v)),
{
    m.insert(k, v);
}

/// Relies on `IndexMap::get`: the value of the entry whose key equals `k`, if
/// there is one.
#[verifier::external_body]
pub(crate) fn string_map_get<'a>(m: &'a IndexMap<String, String>, k: &str) -> (r: Option<&'a String>)
    ensures
        match r {
            Some(v) => key_pos(entries_of(*m), k@) >= 0 && v@ == entries_of(*m)[key_pos(entries_of(*m), k@)].1,
            None => key_pos(entries_of(*m), k@) < 0,
        },
{
    m.get(k)
}

/// Relies on `IndexMap::get`: the mapping of the scope whose prefix equals
/// `k`, if there is one.
#[verifier::external_body]
pub(crate) fn scope_map_get<'a>(m: &'a IndexMap<String, IndexMap<String, String>>, k: &str) -> (r: Option<&'a IndexMap<String, String>>)
    ensures
        match r {
            Some(v) => key_pos(scope_entries_of(*m), k@) >= 0 && entries_of(*v) == scope_entries_of(*m)[key_pos(scope_entries_of(*m), k@)].1,
            None => key_pos(scope_entries_of(*m), k@) < 0,
        },
{
    m.get(k)
}

/// Relies on `IndexMap::len`: the number of entries.
#[verifier::external_body]
pub(crate) fn string_map_len(m: &IndexMap<String, String>) -> (r: usize)
    ensures
        r == entries_of(*m).len(),
{
    m.len()
}

/// Relies on `IndexMap::get_index`: the entry at position `i` in the map's
/// order, if `i` is below the length.
#[verifier::external_body]
pub(crate) fn string_map_get_index<'a>(m: &'a IndexMap<String, String>, i: usize) -> (r: Option<(&'a String, &'a String)>)
    ensures
        match r {
            Some(kv) => i < entries_of(*m).len() && kv.0@ == entries_of(*m)[i as int].0 && kv.1@ == entries_of(*m)[i as int].1,
            None => i >= entries_of(*m).len(),
        },
{
    m.get_index(i)
}

} // verus!
