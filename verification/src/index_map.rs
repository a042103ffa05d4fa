//! Trusted boundary around `indexmap::IndexMap`, the insertion-order map
//! that holds a descriptor's fields.
//!
//! The map is modelled by `map_entries`, the sequence of its key-value pairs
//! in order, as character sequences. Each wrapper states over that model what
//! the crate's documentation promises of the method it calls.
use vstd::prelude::*;

use crate::model::{entries_insert, find_key};

verus! {

#[verifier::external_type_specification]
#[verifier::external_body]
#[verifier::reject_recursive_types(K)]
#[verifier::reject_recursive_types(V)]
#[verifier::reject_recursive_types(S)]
pub struct ExIndexMap<K, V, S>(indexmap::IndexMap<K, V, S>);

/// The key-value pairs held by the map, in insertion order.
pub uninterp spec fn map_entries(m: indexmap::IndexMap<String, String>) -> Seq<(Seq<char>, Seq<char>)>;

/// Relies on IndexMap::new: a fresh map holds no entries.
#[verifier::external_body]
pub(crate) fn imap_new() -> (m: indexmap::IndexMap<String, String>)
    ensures
        map_entries(m) == Seq::<(Seq<char>, Seq<char>)>::empty(),
{
    indexmap::IndexMap::new()
}

/// Relies on IndexMap::insert: an existing key keeps its place in the order
/// and gets the new value; a new key is appended last.
#[verifier::external_body]
pub(crate) fn imap_insert(
    m: &mut indexmap::IndexMap<String, String>,
    k: String,
    v: String,
) -> (r: Option<String>)
    ensures
        map_entries(*final(m)) == entries_insert(map_entries(*old(m)), k@, v@),
        r is Some <==> find_key(map_entries(*old(m)), k@) >= 0,
{
    m.insert(k, v)
}

/// Relies on IndexMap::get: the value stored for the key, if it is present.
#[verifier::external_body]
pub(crate) fn imap_get<'a>(m: &'a indexmap::IndexMap<String, String>, k: &str) -> (r: Option<
    &'a String,
>)
    ensures
        r is Some <==> find_key(map_entries(*m), k@) >= 0,
        r matches Some(v) ==> v@ == map_entries(*m)[find_key(map_entries(*m), k@)].1,
{
    m.get(k)
}

/// Relies on IndexMap::shift_remove: the pair with the given key is removed
/// and the pairs after it shift down, keeping their relative order.
#[verifier::external_body]
pub(crate) fn imap_shift_remove(m: &mut indexmap::IndexMap<String, String>, k: &str) -> (r:
    Option<String>)
    ensures
        r is Some <==> find_key(map_entries(*old(m)), k@) >= 0,
        find_key(map_entries(*old(m)), k@) >= 0 ==> map_entries(*final(m)) == map_entries(
            *old(m),
        ).remove(find_key(map_entries(*old(m)), k@)) && (r matches Some(v) && v@ == map_entries(
            *old(m),
        )[find_key(map_entries(*old(m)), k@)].1),
        find_key(map_entries(*old(m)), k@) < 0 ==> map_entries(*final(m)) == map_entries(*old(m))
            && r is None,
{
    m.shift_remove(k)
}

/// Relies on IndexMap::len: the number of entries.
#[verifier::external_body]
pub(crate) fn imap_len(m: &indexmap::IndexMap<String, String>) -> (n: usize)
    ensures
        n as nat == map_entries(*m).len(),
{
    m.len()
}

/// Relies on IndexMap::get_index: the key-value pair at the given position
/// in the order, if the position is in range.
#[verifier::external_body]
pub(crate) fn imap_get_index<'a>(
    m: &'a indexmap::IndexMap<String, String>,
    i: usize,
) -> (r: Option<(&'a String, &'a String)>)
    ensures
        r is Some <==> (i as nat) < map_entries(*m).len(),
        r matches Some(kv) ==> kv.0@ == map_entries(*m)[i as int].0 && kv.1@ == map_entries(
            *m,
        )[i as int].1,
{
    m.get_index(i)
}

} // verus!
