//! The mutable ordered map that an archive is built from and restored to:
//! `indexmap::IndexMap` with byte-string keys and 32-bit integer values.

use crate::entry::Entry;
use crate::model::{keys_of, position_of};
use crate::placement::MAX_INDEX_LEN;
use indexmap::IndexMap;
use vstd::prelude::*;

verus! {

/// `indexmap::IndexMap`. Nothing inside it is visible here.
#[verifier::external_type_specification]
#[verifier::external_body]
#[verifier::reject_recursive_types(K)]
#[verifier::reject_recursive_types(V)]
#[verifier::reject_recursive_types(S)]
pub struct ExIndexMap<K, V, S>(IndexMap<K, V, S>);

/// The key-value pairs that the map holds, in its iteration order, each key by its
/// bytes.
pub uninterp spec fn map_entries(map: IndexMap<Vec<u8>, i32>) -> Seq<(Seq<u8>, i32)>;

/// `IndexMap::with_capacity` creates a map that holds no pairs, with room for
/// `capacity` of them. The bound keeps the size of that room far from what a 64-bit
/// allocation can express.
#[verifier::external_body]
pub(crate) fn map_with_capacity(capacity: usize) -> (map: IndexMap<Vec<u8>, i32>)
    requires
        capacity <= MAX_INDEX_LEN,
    ensures
        map_entries(map) == Seq::<(Seq<u8>, i32)>::empty(),
{
    IndexMap::with_capacity(capacity)
}

/// `IndexMap::len` counts the pairs.
#[verifier::external_body]
pub(crate) fn map_len(map: &IndexMap<Vec<u8>, i32>) -> (len: usize)
    ensures
        len == map_entries(*map).len(),
{
    map.len()
}

/// `IndexMap::get_index` hands out the pair at a place of the iteration order, and
/// nothing for a place at or beyond the number of pairs.
#[verifier::external_body]
pub(crate) fn map_get_index(map: &IndexMap<Vec<u8>, i32>, index: usize) -> (entry: Option<Entry<'_>>)
    ensures
        entry is Some <==> index < map_entries(*map).len(),
        entry is Some ==> entry->0.key@ == map_entries(*map)[index as int].0,
        entry is Some ==> entry->0.value == map_entries(*map)[index as int].1,
{
    map.get_index(index).map(|(key, value)| Entry { key: key.as_slice(), value: *value })
}

/// `IndexMap::get_index_of` finds the place of a key: a place whose pair has that
/// key, or nothing if no pair has it.
#[verifier::external_body]
pub(crate) fn map_get_index_of(map: &IndexMap<Vec<u8>, i32>, key: &[u8]) -> (index: Option<usize>)
    ensures
        index is Some ==> index->0 < map_entries(*map).len(),
        index is Some ==> map_entries(*map)[index->0 as int].0 == key@,
        index is None ==> !keys_of(map_entries(*map)).contains(key@),
{
    map.get_index_of(key)
}

/// `IndexMap::insert` puts a value under a key. A key that the map holds keeps its
/// place and its old value is handed back; a new key goes to the end with its value.
#[verifier::external_body]
pub(crate) fn map_insert(map: &mut IndexMap<Vec<u8>, i32>, key: Vec<u8>, value: i32) -> (replaced: Option<
    i32,
>)
    ensures
        replaced is None <==> position_of(map_entries(*old(map)), key@) is None,
        replaced is None ==> map_entries(*final(map)) == map_entries(*old(map)).push((key@, value)),
        replaced is Some ==> map_entries(*final(map)) == map_entries(*old(map)).update(
            position_of(map_entries(*old(map)), key@)->0,
            (key@, value),
        ),
        replaced is Some ==> replaced->0 == map_entries(*old(map))[position_of(
            map_entries(*old(map)),
            key@,
        )->0].1,
{
    map.insert(key, value)
}

} // verus!
