//! What holds of every archived map, proved from the definitions that the contracts of
//! the library speak in.

use crate::archived::{
    archive_entries, archive_wf, lemma_distinct_keys, lookup_wf, pivot_at, resolves,
    root_displace, root_entries, root_len, root_pivots,
};
use crate::bytes::{extends, i32_at, u32_at};
use crate::entry::{entry_key, entry_key_len, entry_key_pos, entry_value, entry_wf};
use crate::hash_index::table_at;
use crate::iter::{entries_at, entry_pos, nth_key, nth_value};
use crate::model::{
    distinct_keys, entry_at, full_of, has_key, is_position_of, keys_of, lemma_position_is_first,
    lemma_position_unique, pair_of, position_of, value_of,
};
use crate::placement::{bucket_of, lemma_slots_in_range, slot_of};
use crate::rel_ptr::rel_target;
use crate::serialize::lemma_parts_extend;
use vstd::prelude::*;

verus! {

/// Reading back what was archived: in a map without repeated keys, the key of the pair
/// at a place is found at that place, with that pair's value.
pub proof fn lemma_lookup_finds_each_pair(entries: Seq<(Seq<u8>, i32)>, index: int)
    requires
        distinct_keys(entries),
        0 <= index < entries.len(),
    ensures
        has_key(entries, entries[index].0),
        position_of(entries, entries[index].0) == Some(index),
        value_of(entries, entries[index].0) == Some(entries[index].1),
        pair_of(entries, entries[index].0) == Some(entries[index]),
        full_of(entries, entries[index].0) == Some((index, entries[index].0, entries[index].1)),
{
    lemma_position_unique(entries, entries[index].0, index);
}

/// Archive, then read back: a valid archived map that holds the pairs of a source
/// has as many pairs as the source, gives for the key of every pair of the source
/// that pair's value, and gives nothing for a key that the source does not hold.
pub proof fn lemma_archive_reads_back(
    archive: Seq<u8>,
    root: int,
    source: Seq<(Seq<u8>, i32)>,
    index: int,
    absent: Seq<u8>,
)
    requires
        archive_wf(archive, root),
        archive_entries(archive, root) == source,
    ensures
        archive_entries(archive, root).len() == source.len(),
        0 <= index < source.len() ==> value_of(archive_entries(archive, root), source[index].0)
            == Some(source[index].1),
        0 <= index < source.len() ==> position_of(
            archive_entries(archive, root),
            source[index].0,
        ) == Some(index),
        !keys_of(source).contains(absent) ==> value_of(archive_entries(archive, root), absent)
            is None,
{
    lemma_distinct_keys(
        table_at(archive, root_displace(archive, root), root_len(archive, root)),
        archive,
        root_pivots(archive, root),
        root_entries(archive, root),
    );
    if 0 <= index < source.len() {
        lemma_lookup_finds_each_pair(source, index);
    }
    if !keys_of(source).contains(absent) {
        lemma_lookup_misses_absent_key(source, absent);
    }
}

/// A key that no pair holds is found nowhere.
pub proof fn lemma_lookup_misses_absent_key(entries: Seq<(Seq<u8>, i32)>, key: Seq<u8>)
    requires
        !keys_of(entries).contains(key),
    ensures
        !has_key(entries, key),
        position_of(entries, key) is None,
        value_of(entries, key) is None,
        pair_of(entries, key) is None,
        full_of(entries, key) is None,
{
    assert forall|i: int| 0 <= i < entries.len() implies (#[trigger] entries[i]).0 != key by {
        assert(keys_of(entries)[i] == entries[i].0);
    }
}

/// The pair at a place is the pair that iteration reaches at that step, and there is
/// none at or beyond the number of pairs.
pub proof fn lemma_entry_at_follows_order(entries: Seq<(Seq<u8>, i32)>, index: int)
    ensures
        0 <= index < entries.len() ==> entry_at(entries, index) == Some(entries[index]),
        index >= entries.len() ==> entry_at(entries, index) is None,
{
}

/// The place that a lookup names is the place of the key in iteration order: the key
/// stands there and at no earlier place.
pub proof fn lemma_position_is_place_in_order(entries: Seq<(Seq<u8>, i32)>, key: Seq<u8>)
    ensures
        position_of(entries, key) is Some <==> keys_of(entries).contains(key),
        position_of(entries, key) is Some ==> is_position_of(
            entries,
            key,
            position_of(entries, key)->0,
        ),
{
    if has_key(entries, key) {
        lemma_position_is_first(entries, key);
        let index = position_of(entries, key)->0;
        assert(keys_of(entries)[index] == key);
    }
    if keys_of(entries).contains(key) {
        let index = choose|i: int| 0 <= i < keys_of(entries).len() && keys_of(entries)[i] == key;
        assert(entries[index].0 == key);
    }
}

/// A key is contained exactly when a lookup of its value succeeds.
pub proof fn lemma_contains_iff_get_succeeds(entries: Seq<(Seq<u8>, i32)>, key: Seq<u8>)
    ensures
        has_key(entries, key) == value_of(entries, key) is Some,
        has_key(entries, key) == position_of(entries, key) is Some,
        has_key(entries, key) == pair_of(entries, key) is Some,
{
}

/// Equality looks at the order: exchanging two pairs that differ gives another map.
pub proof fn lemma_exchange_changes_map(entries: Seq<(Seq<u8>, i32)>, i: int, j: int)
    requires
        0 <= i < entries.len(),
        0 <= j < entries.len(),
        entries[i] != entries[j],
    ensures
        entries.update(i, entries[j]).update(j, entries[i]) != entries,
{
    let exchanged = entries.update(i, entries[j]).update(j, entries[i]);
    assert(exchanged[j] == entries[i]);
}

/// Restoring from an archive of a map gives the map back: what the archive holds is
/// what was put in, pair for pair and in order, whatever the number of pairs.
pub proof fn lemma_round_trip(
    archive: Seq<u8>,
    root: int,
    source: Seq<(Seq<u8>, i32)>,
    restored: Seq<(Seq<u8>, i32)>,
)
    requires
        archive_entries(archive, root) == source,
        restored == archive_entries(archive, root),
    ensures
        restored == source,
        restored.len() == source.len(),
        forall|i: int| 0 <= i < source.len() ==> restored[i] == source[i],
{
}

/// A map without pairs has no first pair, no pair at any place, and holds no key.
pub proof fn lemma_empty_map(entries: Seq<(Seq<u8>, i32)>, key: Seq<u8>, index: int)
    requires
        entries.len() == 0,
    ensures
        entry_at(entries, 0) is None,
        entry_at(entries, index) is None,
        !has_key(entries, key),
        position_of(entries, key) is None,
        value_of(entries, key) is None,
        keys_of(entries) == Seq::<Seq<u8>>::empty(),
        entries == Seq::<(Seq<u8>, i32)>::empty(),
{
    assert(keys_of(entries) =~= Seq::<Seq<u8>>::empty());
    assert(entries =~= Seq::<(Seq<u8>, i32)>::empty());
}

/// In a valid archived map the keys at two places are told apart, also where they
/// fall into one bucket of the index: they differ, the index gives them different
/// slots, and the pivot of each slot leads back to the key's own place.
pub proof fn lemma_keys_resolve_on_their_own(
    table: Seq<u32>,
    buf: Seq<u8>,
    pivots: int,
    entries: int,
    i: int,
    j: int,
)
    requires
        lookup_wf(table, buf, pivots, entries),
        0 <= i < table.len(),
        0 <= j < table.len(),
        i != j,
    ensures
        nth_key(buf, entries, i) != nth_key(buf, entries, j),
        slot_of(table, nth_key(buf, entries, i)) is Some,
        slot_of(table, nth_key(buf, entries, j)) is Some,
        slot_of(table, nth_key(buf, entries, i)) != slot_of(table, nth_key(buf, entries, j)),
        pivot_at(buf, pivots, slot_of(table, nth_key(buf, entries, i))->0) == i,
        pivot_at(buf, pivots, slot_of(table, nth_key(buf, entries, j))->0) == j,
{
    assert(resolves(table, buf, pivots, entries, i));
    assert(resolves(table, buf, pivots, entries, j));
}

/// A valid archived map stays the same map when bytes are added behind it.
pub proof fn lemma_archive_extends(buf: Seq<u8>, longer: Seq<u8>, pos: int)
    requires
        archive_wf(buf, pos),
        extends(longer, buf),
    ensures
        archive_wf(longer, pos),
        archive_entries(longer, pos) == archive_entries(buf, pos),
{
    assert(root_len(longer, pos) == root_len(buf, pos));
    assert(root_displace(longer, pos) == root_displace(buf, pos));
    assert(root_pivots(longer, pos) == root_pivots(buf, pos));
    assert(root_entries(longer, pos) == root_entries(buf, pos));
    lemma_parts_extend(
        buf,
        longer,
        root_len(buf, pos),
        root_displace(buf, pos),
        root_pivots(buf, pos),
        root_entries(buf, pos),
    );
}

/// An integer reads the same when the buffer that holds it is moved.
proof fn lemma_u32_moves(prefix: Seq<u8>, buf: Seq<u8>, pos: int)
    requires
        0 <= pos,
        pos + 4 <= buf.len(),
    ensures
        u32_at(prefix + buf, prefix.len() + pos) == u32_at(buf, pos),
        i32_at(prefix + buf, prefix.len() + pos) == i32_at(buf, pos),
        rel_target(prefix + buf, prefix.len() + pos) == prefix.len() + rel_target(buf, pos),
{
    let moved = prefix + buf;
    let shift = prefix.len() as int;
    assert(moved[shift + pos] == buf[pos]);
    assert(moved[shift + pos + 1] == buf[pos + 1]);
    assert(moved[shift + pos + 2] == buf[pos + 2]);
    assert(moved[shift + pos + 3] == buf[pos + 3]);
}

/// An archived pair reads the same when the buffer that holds it is moved.
proof fn lemma_entry_moves(prefix: Seq<u8>, buf: Seq<u8>, pos: int)
    requires
        entry_wf(buf, pos),
    ensures
        entry_wf(prefix + buf, prefix.len() + pos),
        entry_key(prefix + buf, prefix.len() + pos) == entry_key(buf, pos),
        entry_value(prefix + buf, prefix.len() + pos) == entry_value(buf, pos),
{
    let moved = prefix + buf;
    let shift = prefix.len() as int;
    lemma_u32_moves(prefix, buf, pos);
    lemma_u32_moves(prefix, buf, pos + 4);
    lemma_u32_moves(prefix, buf, pos + 8);
    assert(entry_key_pos(moved, shift + pos) == shift + entry_key_pos(buf, pos));
    assert(entry_key_len(moved, shift + pos) == entry_key_len(buf, pos));
    assert(entry_key(moved, shift + pos) =~= entry_key(buf, pos));
}

/// An archive is relocatable: a valid archived map stays the same map when the
/// buffer that holds it is placed behind other bytes. Every reference inside it is
/// relative to where it is stored, so all of them still lead to their targets.
pub proof fn lemma_archive_relocates(prefix: Seq<u8>, buf: Seq<u8>, pos: int)
    requires
        archive_wf(buf, pos),
    ensures
        archive_wf(prefix + buf, prefix.len() + pos),
        archive_entries(prefix + buf, prefix.len() + pos) == archive_entries(buf, pos),
{
    let moved = prefix + buf;
    let shift = prefix.len() as int;
    let len = root_len(buf, pos);
    let displace = root_displace(buf, pos);
    let pivots = root_pivots(buf, pos);
    let entries = root_entries(buf, pos);
    let table = table_at(buf, displace, len);
    lemma_u32_moves(prefix, buf, pos);
    lemma_u32_moves(prefix, buf, pos + 4);
    lemma_u32_moves(prefix, buf, pos + 8);
    lemma_u32_moves(prefix, buf, pos + 12);
    assert(root_len(moved, shift + pos) == len);
    assert(root_displace(moved, shift + pos) == shift + displace);
    assert(root_pivots(moved, shift + pos) == shift + pivots);
    assert(root_entries(moved, shift + pos) == shift + entries);
    assert forall|b: int| 0 <= b < len implies table_at(moved, shift + displace, len)[b]
        == #[trigger] table[b] by {
        lemma_u32_moves(prefix, buf, displace + 4 * b);
    }
    assert(table_at(moved, shift + displace, len) =~= table);
    assert forall|slot: int| 0 <= slot < len implies #[trigger] pivot_at(
        moved,
        shift + pivots,
        slot,
    ) == pivot_at(buf, pivots, slot) by {
        lemma_u32_moves(prefix, buf, pivots + 4 * slot);
    }
    assert forall|i: int| 0 <= i < len implies entry_wf(
        moved,
        #[trigger] entry_pos(shift + entries, i),
    ) && nth_key(moved, shift + entries, i) == nth_key(buf, entries, i) && nth_value(
        moved,
        shift + entries,
        i,
    ) == nth_value(buf, entries, i) by {
        assert(entry_pos(shift + entries, i) == shift + entry_pos(entries, i));
        assert(entry_wf(buf, entry_pos(entries, i)));
        lemma_entry_moves(prefix, buf, entry_pos(entries, i));
    }
    assert(entries_at(moved, shift + entries, len) =~= entries_at(buf, entries, len)) by {
        assert forall|i: int| 0 <= i < len implies entries_at(moved, shift + entries, len)[i]
            == entries_at(buf, entries, len)[i] by {
            assert(entry_wf(moved, entry_pos(shift + entries, i)));
        }
    }
    assert forall|index: int| 0 <= index < len implies #[trigger] resolves(
        table,
        moved,
        shift + pivots,
        shift + entries,
        index,
    ) by {
        assert(resolves(table, buf, pivots, entries, index));
        assert(entry_wf(moved, entry_pos(shift + entries, index)));
        let key = nth_key(buf, entries, index);
        let slot = slot_of(table, key);
        lemma_slots_in_range(table[0], key, len);
        lemma_slots_in_range(table[bucket_of(key, len)], key, len);
        assert(0 <= slot->0 < len);
        assert(pivot_at(moved, shift + pivots, slot->0) == pivot_at(buf, pivots, slot->0));
    }
}

} // verus!
