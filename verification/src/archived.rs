//! The archived map: a hash index, one pivot for each of its slots, and the pairs in
//! insertion order, read in place from a buffer.
//!
//! A lookup asks the index for the key's slot, follows the pivot stored for that slot
//! to a pair, and compares the key stored there. The index holds no keys, so only
//! that comparison tells a present key from one that merely lands on a used slot.

use crate::bytes::{bytes_eq, get_u32, u32_at};
use crate::entry::{entry_wf, Entry, ENTRY_SIZE};
use crate::hash_index::{index_wf, table_at, ArchivedHashIndex};
use crate::hasher::index_hasher;
use crate::iter::{entries_at, entries_wf, entry_pos, nth_key, Iter, Keys, RawIter, Values};
use crate::model::{
    as_position, distinct_keys, entry_at, full_of, full_view, has_key, keys_of,
    lemma_position_unique, pair_of, pair_view, position_of, value_of, values_of,
};
use crate::placement::slot_of;
use crate::rel_ptr::{rel_target, resolve};
use crate::source_map::{map_entries, map_get_index, map_insert, map_len, map_with_capacity};
use indexmap::IndexMap;
use seahash::SeaHasher;
use vstd::prelude::*;
use vstd::slice::slice_to_vec;

verus! {

/// The number of bytes that the archived map's own structure takes: the embedded
/// index, a reference to the pivots and a reference to the pairs.
pub const ARCHIVED_MAP_SIZE: usize = 16;

/// The alignment of the archived map's own structure, of its pivots and of its
/// pairs.
pub const ARCHIVED_MAP_ALIGN: usize = 4;

/// The number of bytes that a pivot takes.
pub const PIVOT_SIZE: usize = 4;

/// The pivot stored for a slot: the place of the pair that the slot stands for.
pub open spec fn pivot_at(buf: Seq<u8>, pivots: int, slot: int) -> int {
    u32_at(buf, pivots + PIVOT_SIZE * slot) as int
}

/// The key of the pair at place `index` leads back to that place: the table gives it a
/// slot, and the pivot of that slot is `index`.
pub open spec fn resolves(table: Seq<u32>, buf: Seq<u8>, pivots: int, entries: int, index: int) -> bool {
    let slot = slot_of(table, nth_key(buf, entries, index));
    slot is Some && pivot_at(buf, pivots, slot->0) == index
}

/// The pivots of `len` slots lie inside the buffer and each names one of `len` pairs.
pub open spec fn pivots_wf(buf: Seq<u8>, pivots: int, len: int) -> bool {
    &&& 0 <= pivots
    &&& pivots + PIVOT_SIZE * len <= buf.len()
    &&& forall|slot: int| 0 <= slot < len ==> 0 <= #[trigger] pivot_at(buf, pivots, slot) < len
}

/// The pivots and the pairs that go with a table lie inside the buffer, every pivot
/// names a pair, and every pair is found through its key.
pub open spec fn lookup_wf(table: Seq<u32>, buf: Seq<u8>, pivots: int, entries: int) -> bool {
    let len = table.len() as int;
    &&& pivots_wf(buf, pivots, len)
    &&& entries_wf(buf, entries, len)
    &&& forall|index: int|
        0 <= index < len ==> #[trigger] resolves(table, buf, pivots, entries, index)
}

/// The number of pairs that the structure archived at `pos` announces.
pub open spec fn root_len(buf: Seq<u8>, pos: int) -> int {
    u32_at(buf, pos) as int
}

/// Where the structure archived at `pos` keeps its displacements.
pub open spec fn root_displace(buf: Seq<u8>, pos: int) -> int {
    rel_target(buf, pos + 4)
}

/// Where the structure archived at `pos` keeps its pivots.
pub open spec fn root_pivots(buf: Seq<u8>, pos: int) -> int {
    rel_target(buf, pos + 8)
}

/// Where the structure archived at `pos` keeps its pairs.
pub open spec fn root_entries(buf: Seq<u8>, pos: int) -> int {
    rel_target(buf, pos + 12)
}

/// The buffer holds a valid archived map whose structure is stored at `pos`.
pub open spec fn archive_wf(buf: Seq<u8>, pos: int) -> bool {
    &&& 0 <= pos
    &&& pos + ARCHIVED_MAP_SIZE <= buf.len()
    &&& index_wf(buf, root_len(buf, pos), root_displace(buf, pos))
    &&& lookup_wf(
        table_at(buf, root_displace(buf, pos), root_len(buf, pos)),
        buf,
        root_pivots(buf, pos),
        root_entries(buf, pos),
    )
}

/// The pairs, in insertion order, of the map whose structure is stored at `pos`.
pub open spec fn archive_entries(buf: Seq<u8>, pos: int) -> Seq<(Seq<u8>, i32)> {
    entries_at(buf, root_entries(buf, pos), root_len(buf, pos))
}

/// In a valid archived map, a key that stands at a place is found there and nowhere
/// else.
pub proof fn lemma_found_at(
    table: Seq<u32>,
    buf: Seq<u8>,
    pivots: int,
    entries: int,
    key: Seq<u8>,
    index: int,
)
    requires
        lookup_wf(table, buf, pivots, entries),
        0 <= index < table.len(),
        nth_key(buf, entries, index) == key,
    ensures
        slot_of(table, key) is Some,
        pivot_at(buf, pivots, slot_of(table, key)->0) == index,
        distinct_keys(entries_at(buf, entries, table.len() as int)),
        position_of(entries_at(buf, entries, table.len() as int), key) == Some(index),
{
    let pairs = entries_at(buf, entries, table.len() as int);
    assert(resolves(table, buf, pivots, entries, index));
    lemma_distinct_keys(table, buf, pivots, entries);
    lemma_position_unique(pairs, key, index);
}

/// In a valid archived map no key occurs twice.
pub proof fn lemma_distinct_keys(table: Seq<u32>, buf: Seq<u8>, pivots: int, entries: int)
    requires
        lookup_wf(table, buf, pivots, entries),
    ensures
        distinct_keys(entries_at(buf, entries, table.len() as int)),
{
    let pairs = entries_at(buf, entries, table.len() as int);
    assert forall|i: int, j: int| 0 <= i < j < pairs.len() implies (#[trigger] pairs[i]).0 != (
    #[trigger] pairs[j]).0 by {
        assert(resolves(table, buf, pivots, entries, i));
        assert(resolves(table, buf, pivots, entries, j));
    }
}

/// Whether the pivots of `len` slots lie inside the buffer and each names one of
/// `len` pairs.
pub fn check_pivots(buf: &[u8], pivots: usize, len: usize) -> (valid: bool)
    ensures
        valid == pivots_wf(buf@, pivots as int, len as int),
{
    let size: usize = buf.len();
    if pivots > size || len > (size - pivots) / PIVOT_SIZE {
        return false;
    }
    let mut slot: usize = 0;
    while slot < len
        invariant
            slot <= len,
            size == buf@.len(),
            pivots + PIVOT_SIZE * len <= size,
            forall|x: int| 0 <= x < slot ==> 0 <= #[trigger] pivot_at(buf@, pivots as int, x) < len,
        decreases len - slot,
    {
        if get_u32(buf, pivots + PIVOT_SIZE * slot) as usize >= len {
            proof {
                assert(pivot_at(buf@, pivots as int, slot as int) >= len);
            }
            return false;
        }
        slot += 1;
    }
    true
}

/// Whether an array of `len` pairs starts at `entries` and each pair with its key
/// lies inside the buffer.
pub fn check_entries(buf: &[u8], entries: usize, len: usize) -> (valid: bool)
    ensures
        valid == entries_wf(buf@, entries as int, len as int),
{
    let size: usize = buf.len();
    if entries > size || len > (size - entries) / ENTRY_SIZE {
        return false;
    }
    let mut i: usize = 0;
    while i < len
        invariant
            i <= len,
            size == buf@.len(),
            entries + ENTRY_SIZE * len <= size,
            forall|x: int| 0 <= x < i ==> entry_wf(buf@, #[trigger] entry_pos(entries as int, x)),
        decreases len - i,
    {
        assert(entry_pos(entries as int, i as int) == entries + ENTRY_SIZE * i);
        if !Entry::check(buf, entries + ENTRY_SIZE * i) {
            return false;
        }
        i += 1;
    }
    true
}

/// Whether every pair is found through its key: the index gives the key a slot, and
/// the pivot of that slot is the pair's place.
fn check_lookups(index: &ArchivedHashIndex<'_>, buf: &[u8], pivots: usize, entries: usize) -> (valid:
    bool)
    requires
        pivots_wf(buf@, pivots as int, index@.len() as int),
        entries_wf(buf@, entries as int, index@.len() as int),
    ensures
        valid == lookup_wf(index@, buf@, pivots as int, entries as int),
{
    let len: usize = index.len();
    let mut i: usize = 0;
    while i < len
        invariant
            i <= len,
            len == index@.len(),
            buf@.len() == buf.len(),
            pivots_wf(buf@, pivots as int, len as int),
            entries_wf(buf@, entries as int, len as int),
            forall|x: int|
                0 <= x < i ==> #[trigger] resolves(index@, buf@, pivots as int, entries as int, x),
        decreases len - i,
    {
        assert(entry_pos(entries as int, i as int) == entries + ENTRY_SIZE * i);
        let entry = Entry::read(buf, entries + ENTRY_SIZE * i);
        match index.index(entry.key) {
            Some(slot) => {
                if get_u32(buf, pivots + PIVOT_SIZE * slot) as usize != i {
                    proof {
                        assert(!resolves(index@, buf@, pivots as int, entries as int, i as int));
                    }
                    return false;
                }
            },
            None => {
                proof {
                    assert(!resolves(index@, buf@, pivots as int, entries as int, i as int));
                }
                return false;
            },
        }
        i += 1;
    }
    true
}

/// An archived ordered map, read in place.
pub struct ArchivedIndexMap<'a> {
    index: ArchivedHashIndex<'a>,
    buf: &'a [u8],
    pivots: usize,
    entries: usize,
}

impl<'a> View for ArchivedIndexMap<'a> {
    type V = Seq<(Seq<u8>, i32)>;

    /// The key-value pairs in insertion order.
    closed spec fn view(&self) -> Seq<(Seq<u8>, i32)> {
        entries_at(self.buf@, self.entries as int, self.index@.len() as int)
    }
}

impl<'a> ArchivedIndexMap<'a> {
    #[verifier::type_invariant]
    spec fn well_formed(self) -> bool {
        lookup_wf(self.index@, self.buf@, self.pivots as int, self.entries as int)
    }

    /// The map whose structure is stored at `pos` of a buffer that a compliant
    /// builder wrote. Nothing is checked: the buffer is trusted.
    pub fn archived_value(buf: &'a [u8], pos: usize) -> (map: Self)
        requires
            archive_wf(buf@, pos as int),
        ensures
            map@ == archive_entries(buf@, pos as int),
            distinct_keys(map@),
    {
        proof {
            assert(buf@.len() == buf.len());
        }
        let len: usize = get_u32(buf, pos) as usize;
        let displace: usize = resolve(buf, pos + 4).unwrap();
        let pivots: usize = resolve(buf, pos + 8).unwrap();
        let entries: usize = resolve(buf, pos + 12).unwrap();
        let index = ArchivedHashIndex::new(buf, len, displace);
        proof {
            lemma_distinct_keys(index@, buf@, pivots as int, entries as int);
        }
        ArchivedIndexMap { index, buf, pivots, entries }
    }

    /// The map whose structure is the last thing in a buffer that a compliant builder
    /// wrote. Nothing is checked: the buffer is trusted.
    pub fn archived_root(buf: &'a [u8]) -> (map: Self)
        requires
            buf@.len() >= ARCHIVED_MAP_SIZE,
            archive_wf(buf@, buf@.len() - ARCHIVED_MAP_SIZE),
        ensures
            map@ == archive_entries(buf@, buf@.len() - ARCHIVED_MAP_SIZE),
            distinct_keys(map@),
    {
        Self::archived_value(buf, buf.len() - ARCHIVED_MAP_SIZE)
    }

    /// The map whose structure is stored at `pos`, if the buffer holds a valid
    /// archived map there. Every reference, every pivot and every pair is checked,
    /// and every key is looked up once, so a buffer of any origin can be handed in.
    pub fn check_archived_value(buf: &'a [u8], pos: usize) -> (map: Option<Self>)
        ensures
            map is Some <==> archive_wf(buf@, pos as int),
            map is Some ==> map->0@ == archive_entries(buf@, pos as int) && distinct_keys(map->0@),
    {
        let size: usize = buf.len();
        if pos > size || size - pos < ARCHIVED_MAP_SIZE {
            return None;
        }
        let len: usize = get_u32(buf, pos) as usize;
        let displace: usize = match resolve(buf, pos + 4) {
            Some(target) => target,
            None => {
                return None;
            },
        };
        let pivots: usize = match resolve(buf, pos + 8) {
            Some(target) => target,
            None => {
                return None;
            },
        };
        let entries: usize = match resolve(buf, pos + 12) {
            Some(target) => target,
            None => {
                return None;
            },
        };
        let index = match ArchivedHashIndex::check(buf, len, displace) {
            Some(index) => index,
            None => {
                return None;
            },
        };
        if !check_pivots(buf, pivots, len) || !check_entries(buf, entries, len) {
            return None;
        }
        if !check_lookups(&index, buf, pivots, entries) {
            return None;
        }
        proof {
            lemma_distinct_keys(index@, buf@, pivots as int, entries as int);
        }
        Some(ArchivedIndexMap { index, buf, pivots, entries })
    }

    /// The map whose structure is the last thing in the buffer, if the buffer ends
    /// with a valid archived map.
    pub fn check_archived_root(buf: &'a [u8]) -> (map: Option<Self>)
        ensures
            map is Some <==> buf@.len() >= ARCHIVED_MAP_SIZE && archive_wf(
                buf@,
                buf@.len() - ARCHIVED_MAP_SIZE,
            ),
            map is Some ==> map->0@ == archive_entries(buf@, buf@.len() - ARCHIVED_MAP_SIZE)
                && distinct_keys(map->0@),
    {
        if buf.len() < ARCHIVED_MAP_SIZE {
            return None;
        }
        Self::check_archived_value(buf, buf.len() - ARCHIVED_MAP_SIZE)
    }

    /// The place of the pair that a slot stands for.
    fn pivot(&self, index: usize) -> (position: usize)
        requires
            index < self@.len(),
        ensures
            position == pivot_at(self.buf@, self.pivots as int, index as int),
            position < self@.len(),
    {
        proof {
            use_type_invariant(self);
            assert(self.buf@.len() == self.buf.len());
        }
        get_u32(self.buf, self.pivots + PIVOT_SIZE * index) as usize
    }

    /// The pair at a place.
    fn entry(&self, index: usize) -> (entry: Entry<'a>)
        requires
            index < self@.len(),
        ensures
            entry.key@ == self@[index as int].0,
            entry.value == self@[index as int].1,
    {
        proof {
            use_type_invariant(self);
            assert(self.buf@.len() == self.buf.len());
            assert(entry_pos(self.entries as int, index as int) == self.entries + ENTRY_SIZE
                * index);
        }
        Entry::read(self.buf, self.entries + ENTRY_SIZE * index)
    }

    /// The place of a key: the index names a slot, the slot's pivot names a pair, and
    /// the key stored with that pair decides.
    fn find(&self, k: &[u8]) -> (position: Option<usize>)
        ensures
            as_position(position) == position_of(self@, k@),
            position is Some ==> position->0 < self@.len(),
    {
        proof {
            use_type_invariant(self);
        }
        let ghost table = self.index@;
        let ghost pivots = self.pivots as int;
        let ghost entries = self.entries as int;
        match self.index.index(k) {
            None => {
                proof {
                    assert forall|i: int| 0 <= i < self@.len() implies (#[trigger] self@[i]).0
                        != k@ by {
                        assert(resolves(table, self.buf@, pivots, entries, i));
                    }
                }
                None
            },
            Some(pivot_index) => {
                let index: usize = self.pivot(pivot_index);
                let entry = self.entry(index);
                if bytes_eq(entry.key, k) {
                    proof {
                        lemma_found_at(table, self.buf@, pivots, entries, k@, index as int);
                    }
                    Some(index)
                } else {
                    proof {
                        assert forall|i: int| 0 <= i < self@.len() implies (#[trigger] self@[i]).0
                            != k@ by {
                            assert(resolves(table, self.buf@, pivots, entries, i));
                        }
                    }
                    None
                }
            },
        }
    }

    /// Returns whether a key is present in the map.
    pub fn contains_key(&self, k: &[u8]) -> (present: bool)
        ensures
            present == has_key(self@, k@),
    {
        self.find(k).is_some()
    }

    /// Returns the first key-value pair.
    pub fn first(&self) -> (pair: Option<(&'a [u8], i32)>)
        ensures
            pair_view(pair) == entry_at(self@, 0),
    {
        if self.len() > 0 {
            let entry = self.entry(0);
            Some((entry.key, entry.value))
        } else {
            None
        }
    }

    /// Gets the value associated with the given key.
    pub fn get(&self, k: &[u8]) -> (value: Option<i32>)
        ensures
            value == value_of(self@, k@),
    {
        match self.find(k) {
            Some(index) => Some(self.entry(index).value),
            None => None,
        }
    }

    /// Gets the index, key, and value associated with the given key.
    pub fn get_full(&self, k: &[u8]) -> (full: Option<(usize, &'a [u8], i32)>)
        ensures
            full_view(full) == full_of(self@, k@),
    {
        match self.find(k) {
            Some(index) => {
                let entry = self.entry(index);
                Some((index, entry.key, entry.value))
            },
            None => None,
        }
    }

    /// Gets a key-value pair by index.
    pub fn get_index(&self, index: usize) -> (pair: Option<(&'a [u8], i32)>)
        ensures
            pair_view(pair) == entry_at(self@, index as int),
    {
        if index < self.len() {
            let entry = self.entry(index);
            Some((entry.key, entry.value))
        } else {
            None
        }
    }

    /// Gets the index of a key if it exists in the map.
    pub fn get_index_of(&self, key: &[u8]) -> (index: Option<usize>)
        ensures
            as_position(index) == position_of(self@, key@),
    {
        self.find(key)
    }

    /// Gets the key-value pair associated with the given key.
    pub fn get_key_value(&self, k: &[u8]) -> (pair: Option<(&'a [u8], i32)>)
        ensures
            pair_view(pair) == pair_of(self@, k@),
    {
        match self.find(k) {
            Some(index) => {
                let entry = self.entry(index);
                Some((entry.key, entry.value))
            },
            None => None,
        }
    }

    /// Gets the hasher for this index map: a fresh copy of the hasher that its index
    /// hashes keys with.
    pub fn hasher(&self) -> (hasher: SeaHasher)
        ensures
            hasher == index_hasher(),
    {
        self.index.hasher()
    }

    /// Returns `true` if the map contains no elements.
    pub fn is_empty(&self) -> (empty: bool)
        ensures
            empty == (self@.len() == 0),
    {
        self.len() == 0
    }

    /// A cursor at the first pair.
    pub fn raw_iter(&self) -> (iter: RawIter<'a>)
        ensures
            iter@ == self@,
    {
        proof {
            use_type_invariant(self);
        }
        RawIter::new(self.buf, self.entries, self.len())
    }

    /// Returns an iterator over the key-value pairs of the map in order.
    pub fn iter(&self) -> (iter: Iter<'a>)
        ensures
            iter@ == self@,
    {
        Iter::new(self.raw_iter())
    }

    /// Returns an iterator over the keys of the map in order.
    pub fn keys(&self) -> (iter: Keys<'a>)
        ensures
            iter@ == keys_of(self@),
    {
        Keys::new(self.raw_iter())
    }

    /// Gets the number of items in the index map.
    pub fn len(&self) -> (len: usize)
        ensures
            len == self@.len(),
    {
        self.index.len()
    }

    /// Returns an iterator over the values of the map in order.
    pub fn values(&self) -> (iter: Values<'a>)
        ensures
            iter@ == values_of(self@),
    {
        Values::new(self.raw_iter())
    }

    /// Whether two archived maps hold the same pairs in the same order.
    pub fn same_entries(&self, other: &ArchivedIndexMap<'_>) -> (same: bool)
        ensures
            same == (self@ == other@),
    {
        let len: usize = self.len();
        if len != other.len() {
            return false;
        }
        let mut i: usize = 0;
        while i < len
            invariant
                i <= len,
                len == self@.len(),
                len == other@.len(),
                forall|k: int| 0 <= k < i ==> self@[k] == other@[k],
            decreases len - i,
        {
            let mine = self.entry(i);
            let theirs = other.entry(i);
            if !bytes_eq(mine.key, theirs.key) || mine.value != theirs.value {
                return false;
            }
            i += 1;
        }
        assert(self@ =~= other@);
        true
    }

    /// Whether the archived map holds the pairs of a mutable map, in the order in
    /// which that map iterates.
    pub fn eq_index_map(&self, other: &IndexMap<Vec<u8>, i32>) -> (same: bool)
        ensures
            same == (self@ == map_entries(*other)),
    {
        let len: usize = self.len();
        if len != map_len(other) {
            return false;
        }
        let mut i: usize = 0;
        while i < len
            invariant
                i <= len,
                len == self@.len(),
                len == map_entries(*other).len(),
                forall|k: int| 0 <= k < i ==> self@[k] == map_entries(*other)[k],
            decreases len - i,
        {
            let mine = self.entry(i);
            match map_get_index(other, i) {
                Some(theirs) => {
                    if !bytes_eq(mine.key, theirs.key) || mine.value != theirs.value {
                        return false;
                    }
                },
                None => {
                    return false;
                },
            }
            i += 1;
        }
        assert(self@ =~= map_entries(*other));
        true
    }

    /// Restores a mutable map: goes through the archived pairs in order and inserts
    /// each into a map that starts empty.
    pub fn deserialize(&self) -> (map: IndexMap<Vec<u8>, i32>)
        ensures
            map_entries(map) == self@,
    {
        proof {
            use_type_invariant(self);
            lemma_distinct_keys(self.index@, self.buf@, self.pivots as int, self.entries as int);
        }
        let len: usize = self.index.len();
        let mut result = map_with_capacity(len);
        let mut i: usize = 0;
        while i < len
            invariant
                i <= len,
                len == self@.len(),
                distinct_keys(self@),
                map_entries(result) == self@.take(i as int),
            decreases len - i,
        {
            let entry = self.entry(i);
            let ghost before = map_entries(result);
            proof {
                assert forall|j: int| 0 <= j < before.len() implies (#[trigger] before[j]).0
                    != entry.key@ by {
                    assert(before[j] == self@[j]);
                    assert(self@[j].0 != self@[i as int].0);
                }
            }
            map_insert(&mut result, slice_to_vec(entry.key), entry.value);
            proof {
                assert(map_entries(result) =~= self@.take(i as int + 1));
            }
            i += 1;
        }
        assert(self@.take(len as int) =~= self@);
        result
    }
}

} // verus!
