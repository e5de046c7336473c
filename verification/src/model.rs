//! The mathematical model of an ordered map: its key-value pairs in insertion order.
//! Every contract of the archive speaks of this sequence.

use vstd::prelude::*;

verus! {

/// The keys of the pairs, in order.
pub open spec fn keys_of(entries: Seq<(Seq<u8>, i32)>) -> Seq<Seq<u8>> {
    Seq::new(entries.len(), |i: int| entries[i].0)
}

/// The values of the pairs, in order.
pub open spec fn values_of(entries: Seq<(Seq<u8>, i32)>) -> Seq<i32> {
    Seq::new(entries.len(), |i: int| entries[i].1)
}

/// No key occurs twice.
pub open spec fn distinct_keys(entries: Seq<(Seq<u8>, i32)>) -> bool {
    forall|i: int, j: int|
        0 <= i < j < entries.len() ==> (#[trigger] entries[i]).0 != (#[trigger] entries[j]).0
}

/// Some pair has the key.
pub open spec fn has_key(entries: Seq<(Seq<u8>, i32)>, key: Seq<u8>) -> bool {
    exists|i: int| 0 <= i < entries.len() && (#[trigger] entries[i]).0 == key
}

/// `index` is the first place at which the key stands.
pub open spec fn is_position_of(entries: Seq<(Seq<u8>, i32)>, key: Seq<u8>, index: int) -> bool {
    &&& 0 <= index < entries.len()
    &&& entries[index].0 == key
    &&& forall|j: int| 0 <= j < index ==> (#[trigger] entries[j]).0 != key
}

/// The first place at which the key stands, if it is there at all.
pub open spec fn position_of(entries: Seq<(Seq<u8>, i32)>, key: Seq<u8>) -> Option<int> {
    if has_key(entries, key) {
        Some(choose|index: int| is_position_of(entries, key, index))
    } else {
        None
    }
}

/// The value that stands with the key, if the key is there.
pub open spec fn value_of(entries: Seq<(Seq<u8>, i32)>, key: Seq<u8>) -> Option<i32> {
    match position_of(entries, key) {
        Some(index) => Some(entries[index].1),
        None => None,
    }
}

/// The pair that holds the key, if the key is there.
pub open spec fn pair_of(entries: Seq<(Seq<u8>, i32)>, key: Seq<u8>) -> Option<(Seq<u8>, i32)> {
    match position_of(entries, key) {
        Some(index) => Some(entries[index]),
        None => None,
    }
}

/// The place of the key with the pair that holds it, if the key is there.
pub open spec fn full_of(entries: Seq<(Seq<u8>, i32)>, key: Seq<u8>) -> Option<
    (int, Seq<u8>, i32),
> {
    match position_of(entries, key) {
        Some(index) => Some((index, entries[index].0, entries[index].1)),
        None => None,
    }
}

/// The pair at a place, if the place exists.
pub open spec fn entry_at(entries: Seq<(Seq<u8>, i32)>, index: int) -> Option<(Seq<u8>, i32)> {
    if 0 <= index < entries.len() {
        Some(entries[index])
    } else {
        None
    }
}

/// A place that may be absent, as an integer.
pub open spec fn as_position(index: Option<usize>) -> Option<int> {
    match index {
        Some(i) => Some(i as int),
        None => None,
    }
}

/// A borrowed pair that may be absent, by the bytes of its key.
pub open spec fn pair_view(pair: Option<(&[u8], i32)>) -> Option<(Seq<u8>, i32)> {
    match pair {
        Some((key, value)) => Some((key@, value)),
        None => None,
    }
}

/// A place with its borrowed pair, by the bytes of the key.
pub open spec fn full_view(full: Option<(usize, &[u8], i32)>) -> Option<(int, Seq<u8>, i32)> {
    match full {
        Some((index, key, value)) => Some((index as int, key@, value)),
        None => None,
    }
}

/// The first place of a key is the position that `position_of` names.
pub proof fn lemma_position_found(entries: Seq<(Seq<u8>, i32)>, key: Seq<u8>, index: int)
    requires
        is_position_of(entries, key, index),
    ensures
        position_of(entries, key) == Some(index),
{
    let chosen = choose|other: int| is_position_of(entries, key, other);
    assert(is_position_of(entries, key, chosen));
    assert(chosen == index) by {
        if chosen < index {
            assert(entries[chosen].0 != key);
        } else if index < chosen {
            assert(entries[index].0 != key);
        }
    }
}

/// Where no key occurs twice, any place of a key is its position.
pub proof fn lemma_position_unique(entries: Seq<(Seq<u8>, i32)>, key: Seq<u8>, index: int)
    requires
        distinct_keys(entries),
        0 <= index < entries.len(),
        entries[index].0 == key,
    ensures
        position_of(entries, key) == Some(index),
{
    assert forall|j: int| 0 <= j < index implies (#[trigger] entries[j]).0 != key by {
        assert(entries[j].0 != entries[index].0);
    }
    lemma_position_found(entries, key, index);
}

/// A position that `position_of` names is a first place of the key.
pub proof fn lemma_position_is_first(entries: Seq<(Seq<u8>, i32)>, key: Seq<u8>)
    requires
        has_key(entries, key),
    ensures
        position_of(entries, key) is Some,
        is_position_of(entries, key, position_of(entries, key)->0),
{
    let some = choose|i: int| 0 <= i < entries.len() && (#[trigger] entries[i]).0 == key;
    lemma_first_below(entries, key, some);
}

/// A key that stands at some place has a first place at or before it.
proof fn lemma_first_below(entries: Seq<(Seq<u8>, i32)>, key: Seq<u8>, bound: int)
    requires
        0 <= bound < entries.len(),
        entries[bound].0 == key,
    ensures
        exists|index: int| is_position_of(entries, key, index),
    decreases bound,
{
    if exists|j: int| 0 <= j < bound && (#[trigger] entries[j]).0 == key {
        let j = choose|j: int| 0 <= j < bound && (#[trigger] entries[j]).0 == key;
        lemma_first_below(entries, key, j);
    } else {
        assert(is_position_of(entries, key, bound));
    }
}

} // verus!
