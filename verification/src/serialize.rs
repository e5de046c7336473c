//! Building an archive from a mutable ordered map.
//!
//! The hash index goes first. Then every key's bytes are written, then the pairs in
//! insertion order, then one pivot for each slot of the index, in the order of the
//! slots. What is handed back says where the three parts are; with it, the map's own
//! structure can be written at any later position.

use crate::archived::{
    archive_entries, archive_wf, lookup_wf, pivot_at, resolves, root_displace, root_entries,
    root_len, root_pivots, ARCHIVED_MAP_ALIGN, ARCHIVED_MAP_SIZE, PIVOT_SIZE,
};
use crate::bytes::{extends, i32_le, lemma_i32_at_encoded, lemma_u32_at_encoded, u32_le};
use crate::entry::{
    entry_key, entry_key_len, entry_key_pos, entry_value, entry_wf, lemma_entry_written,
    ENTRY_SIZE,
};
use crate::hash_index::{
    index_bytes, index_wf, table_at, ArchivedHashIndex, HashIndexResolver, DISPLACE_ALIGN,
};
use crate::iter::{entries_at, entries_wf, entry_pos, nth_key, nth_value};
use crate::model::{distinct_keys, keys_of};
use crate::placement::{
    key_views, lemma_slots_in_range, perfect_for, placeable, slot_of, MAX_INDEX_LEN,
};
use crate::rel_ptr::{emplace, rel_offset, MAX_ARCHIVE_LEN};
use crate::serializer::{aligned, lemma_aligned, padding_for, SerializeError, Serializer};
use crate::source_map::{map_entries, map_get_index, map_get_index_of, map_len};
use indexmap::IndexMap;
use vstd::prelude::*;

verus! {

/// Where the parts of a serialized map are.
pub struct IndexMapResolver {
    /// Where the hash index keeps its displacements.
    pub index_resolver: HashIndexResolver,
    /// The position of the first pivot.
    pub pivots_pos: usize,
    /// The position of the first pair.
    pub entries_pos: usize,
}

/// The number of bytes that the first `end` keys take together.
pub open spec fn keys_len(keys: Seq<Seq<u8>>, end: int) -> int
    decreases end,
{
    if end <= 0 {
        0
    } else {
        keys_len(keys, end - 1) + keys[end - 1].len()
    }
}

/// Where the keys' bytes start when a map is serialized into an output of `start`
/// bytes: behind the displacements.
pub open spec fn keys_start(start: int, keys: Seq<Seq<u8>>) -> int {
    aligned(start, DISPLACE_ALIGN as int) + 4 * keys.len()
}

/// Where the pairs start: behind the keys' bytes, aligned.
pub open spec fn entries_start(start: int, keys: Seq<Seq<u8>>) -> int {
    aligned(keys_start(start, keys) + keys_len(keys, keys.len() as int), ARCHIVED_MAP_ALIGN as int)
}

/// Where the pivots start: behind the pairs.
pub open spec fn pivots_start(start: int, keys: Seq<Seq<u8>>) -> int {
    entries_start(start, keys) + ENTRY_SIZE * keys.len()
}

/// Where the output ends once the three parts are written.
pub open spec fn serialized_end(start: int, keys: Seq<Seq<u8>>) -> int {
    pivots_start(start, keys) + PIVOT_SIZE * keys.len()
}

/// Where the output ends once the map's own structure is written behind its parts.
pub open spec fn archive_end(start: int, keys: Seq<Seq<u8>>) -> int {
    serialized_end(start, keys) + ARCHIVED_MAP_SIZE
}

/// The bytes of `key` stand in the buffer from `pos` on.
pub open spec fn key_stored(buf: Seq<u8>, pos: int, key: Seq<u8>) -> bool {
    &&& 0 <= pos
    &&& pos + key.len() <= buf.len()
    &&& buf.subrange(pos, pos + key.len()) == key
}

/// The archived form of a map of `len` pairs whose structure is stored at `pos`.
pub open spec fn map_bytes(len: int, pos: int, displace_pos: int, pivots_pos: int, entries_pos: int) -> Seq<
    u8,
> {
    index_bytes(len, pos, displace_pos) + i32_le(rel_offset(pos + 8, pivots_pos) as i32) + i32_le(
        rel_offset(pos + 12, entries_pos) as i32,
    )
}

/// What a successful serialization leaves: the output has grown by the three parts,
/// they are where the resolver says, they form a valid archived map, and its pairs are
/// `entries`, which hold no key twice.
pub open spec fn serialized(
    before: Seq<u8>,
    after: Seq<u8>,
    entries: Seq<(Seq<u8>, i32)>,
    resolver: IndexMapResolver,
) -> bool {
    let keys = keys_of(entries);
    let len = entries.len() as int;
    let displace = resolver.index_resolver.displace_pos as int;
    &&& extends(after, before)
    &&& after.len() == serialized_end(before.len() as int, keys)
    &&& displace == aligned(before.len() as int, DISPLACE_ALIGN as int)
    &&& resolver.entries_pos == entries_start(before.len() as int, keys)
    &&& resolver.pivots_pos == pivots_start(before.len() as int, keys)
    &&& index_wf(after, len, displace)
    &&& lookup_wf(
        table_at(after, displace, len),
        after,
        resolver.pivots_pos as int,
        resolver.entries_pos as int,
    )
    &&& entries_at(after, resolver.entries_pos as int, len) == entries
    &&& distinct_keys(entries)
}

/// More keys take at least as many bytes.
pub proof fn lemma_keys_len_grows(keys: Seq<Seq<u8>>, from: int, to: int)
    requires
        0 <= from <= to,
    ensures
        0 <= keys_len(keys, from) <= keys_len(keys, to),
    decreases to,
{
    if from < to {
        lemma_keys_len_grows(keys, from, to - 1);
    } else if from > 0 {
        lemma_keys_len_grows(keys, from - 1, from - 1);
    }
}

/// A table reads the same in a buffer that has grown.
pub proof fn lemma_table_extends(buf: Seq<u8>, longer: Seq<u8>, displace: int, len: int)
    requires
        extends(longer, buf),
        0 <= displace,
        0 <= len,
        displace + 4 * len <= buf.len(),
    ensures
        table_at(longer, displace, len) == table_at(buf, displace, len),
{
    assert(table_at(longer, displace, len) =~= table_at(buf, displace, len));
}

/// A stored key reads the same in a buffer that has grown.
pub proof fn lemma_key_extends(buf: Seq<u8>, longer: Seq<u8>, pos: int, key: Seq<u8>)
    requires
        extends(longer, buf),
        key_stored(buf, pos, key),
    ensures
        key_stored(longer, pos, key),
{
    assert(longer.subrange(pos, pos + key.len()) =~= buf.subrange(pos, pos + key.len()));
}

/// An archived pair reads the same in a buffer that has grown.
pub proof fn lemma_entry_extends(buf: Seq<u8>, longer: Seq<u8>, pos: int)
    requires
        extends(longer, buf),
        entry_wf(buf, pos),
    ensures
        entry_wf(longer, pos),
        entry_key(longer, pos) == entry_key(buf, pos),
        entry_value(longer, pos) == entry_value(buf, pos),
{
    assert(entry_key_pos(longer, pos) == entry_key_pos(buf, pos));
    assert(entry_key_len(longer, pos) == entry_key_len(buf, pos));
    assert(entry_key(longer, pos) =~= entry_key(buf, pos));
}

/// The keys of a map, borrowed, in insertion order.
pub fn collect_keys<'a>(map: &'a IndexMap<Vec<u8>, i32>) -> (keys: Vec<&'a [u8]>)
    ensures
        key_views(keys@) == keys_of(map_entries(*map)),
{
    let n: usize = map_len(map);
    let mut keys: Vec<&'a [u8]> = Vec::new();
    let mut i: usize = 0;
    while i < n
        invariant
            i <= n,
            n == map_entries(*map).len(),
            keys@.len() == i,
            forall|x: int| 0 <= x < i ==> (#[trigger] keys@[x])@ == map_entries(*map)[x].0,
        decreases n - i,
    {
        let entry = map_get_index(map, i).unwrap();
        keys.push(entry.key);
        i += 1;
    }
    assert(key_views(keys@) =~= keys_of(map_entries(*map)));
    keys
}

/// The number of bytes that the keys take together, unless it is more than `limit`.
fn total_key_len(keys: &Vec<&[u8]>, limit: usize) -> (total: Option<usize>)
    ensures
        total is Some <==> keys_len(key_views(keys@), keys@.len() as int) <= limit,
        total is Some ==> total->0 == keys_len(key_views(keys@), keys@.len() as int),
{
    let ghost views = key_views(keys@);
    let mut sum: usize = 0;
    let mut i: usize = 0;
    while i < keys.len()
        invariant
            i <= keys@.len(),
            views == key_views(keys@),
            sum == keys_len(views, i as int),
            sum <= limit,
        decreases keys@.len() - i,
    {
        let len: usize = keys[i].len();
        assert(views[i as int].len() == len);
        if len > limit - sum {
            proof {
                lemma_keys_len_grows(views, i as int + 1, keys@.len() as int);
            }
            return None;
        }
        sum += len;
        i += 1;
    }
    Some(sum)
}

/// Where the output would end if the keys' map were serialized into an output of
/// `start` bytes with `extra` bytes behind it, unless that is beyond `limit`.
pub fn checked_end(keys: &Vec<&[u8]>, start: usize, extra: usize, limit: usize) -> (end: Option<
    usize,
>)
    ensures
        end is Some <==> serialized_end(start as int, key_views(keys@)) + extra <= limit,
        end is Some ==> end->0 == serialized_end(start as int, key_views(keys@)) + extra,
{
    reveal(padding_for);
    let ghost views = key_views(keys@);
    let n: usize = keys.len();
    proof {
        lemma_keys_len_grows(views, 0, n as int);
    }
    if start > limit || extra > limit {
        return None;
    }
    let padding: usize = if start % DISPLACE_ALIGN == 0 {
        0
    } else {
        DISPLACE_ALIGN - start % DISPLACE_ALIGN
    };
    if padding > limit - start {
        return None;
    }
    let displace: usize = start + padding;
    if n > (limit - displace) / 4 {
        return None;
    }
    let keys_at: usize = displace + 4 * n;
    let total: usize = match total_key_len(keys, limit - keys_at) {
        Some(total) => total,
        None => {
            return None;
        },
    };
    let unaligned: usize = keys_at + total;
    let padding: usize = if unaligned % ARCHIVED_MAP_ALIGN == 0 {
        0
    } else {
        ARCHIVED_MAP_ALIGN - unaligned % ARCHIVED_MAP_ALIGN
    };
    if padding > limit - unaligned {
        return None;
    }
    let entries: usize = unaligned + padding;
    if n > (limit - entries) / 16 {
        return None;
    }
    let end: usize = entries + 16 * n;
    if extra > limit - end {
        return None;
    }
    Some(end + extra)
}

/// Writes the bytes of every key, in order, and hands back where each key starts.
fn write_keys(keys: &Vec<&[u8]>, serializer: &mut Serializer) -> (result: Result<
    Vec<usize>,
    SerializeError,
>)
    requires
        old(serializer)@.len() + keys_len(key_views(keys@), keys@.len() as int) <= old(
            serializer,
        ).limit(),
    ensures
        result is Ok,
        final(serializer).limit() == old(serializer).limit(),
        extends(final(serializer)@, old(serializer)@),
        final(serializer)@.len() == old(serializer)@.len() + keys_len(
            key_views(keys@),
            keys@.len() as int,
        ),
        result->Ok_0@.len() == keys@.len(),
        forall|i: int|
            0 <= i < keys@.len() ==> key_stored(
                final(serializer)@,
                (#[trigger] result->Ok_0@[i]) as int,
                key_views(keys@)[i],
            ),
{
    let ghost views = key_views(keys@);
    let n: usize = keys.len();
    let mut positions: Vec<usize> = Vec::new();
    let mut i: usize = 0;
    while i < n
        invariant
            i <= n,
            n == keys@.len(),
            views == key_views(keys@),
            serializer.limit() == old(serializer).limit(),
            old(serializer)@.len() + keys_len(views, n as int) <= serializer.limit(),
            extends(serializer@, old(serializer)@),
            serializer@.len() == old(serializer)@.len() + keys_len(views, i as int),
            positions@.len() == i,
            forall|x: int|
                0 <= x < i ==> key_stored(serializer@, (#[trigger] positions@[x]) as int, views[x]),
        decreases n - i,
    {
        let ghost before = serializer@;
        let pos: usize = serializer.pos();
        proof {
            lemma_keys_len_grows(views, i as int + 1, n as int);
            assert(views[i as int] == keys@[i as int]@);
        }
        serializer.write(keys[i])?;
        positions.push(pos);
        proof {
            assert(extends(serializer@, before));
            assert(serializer@.subrange(pos as int, pos + views[i as int].len()) =~= views[i as int]);
            assert forall|x: int| 0 <= x < i + 1 implies key_stored(
                serializer@,
                (#[trigger] positions@[x]) as int,
                views[x],
            ) by {
                if x < i {
                    lemma_key_extends(before, serializer@, positions@[x] as int, views[x]);
                }
            }
        }
        i += 1;
    }
    Ok(positions)
}

/// What holds of the pairs once the first `count` of them are written from
/// `entries_pos` on: each reads back as the map's pair at its place.
pub open spec fn entries_written(
    buf: Seq<u8>,
    entries_pos: int,
    count: int,
    entries: Seq<(Seq<u8>, i32)>,
) -> bool {
    &&& entries_wf(buf, entries_pos, count)
    &&& forall|i: int|
        0 <= i < count ==> nth_key(buf, entries_pos, i) == (#[trigger] entries[i]).0 && nth_value(
            buf,
            entries_pos,
            i,
        ) == entries[i].1
}

/// Pairs that were written read the same in a buffer that has grown.
pub proof fn lemma_entries_extend(
    buf: Seq<u8>,
    longer: Seq<u8>,
    entries_pos: int,
    count: int,
    entries: Seq<(Seq<u8>, i32)>,
)
    requires
        extends(longer, buf),
        entries_written(buf, entries_pos, count, entries),
    ensures
        entries_written(longer, entries_pos, count, entries),
{
    assert forall|i: int| 0 <= i < count implies entry_wf(
        longer,
        #[trigger] entry_pos(entries_pos, i),
    ) by {
        lemma_entry_extends(buf, longer, entry_pos(entries_pos, i));
    }
    assert forall|i: int| 0 <= i < count implies nth_key(longer, entries_pos, i) == (
    #[trigger] entries[i]).0 && nth_value(longer, entries_pos, i) == entries[i].1 by {
        assert(entry_wf(buf, entry_pos(entries_pos, i)));
        lemma_entry_extends(buf, longer, entry_pos(entries_pos, i));
    }
}

/// Writes the pairs of the map in insertion order, aligned, each with a reference to
/// its key's bytes. Hands back the position of the first pair.
fn write_entries(
    map: &IndexMap<Vec<u8>, i32>,
    key_positions: &Vec<usize>,
    serializer: &mut Serializer,
) -> (result: Result<usize, SerializeError>)
    requires
        key_positions@.len() == map_entries(*map).len(),
        aligned(old(serializer)@.len() as int, ARCHIVED_MAP_ALIGN as int) + ENTRY_SIZE
            * map_entries(*map).len() <= old(serializer).limit(),
        forall|i: int|
            0 <= i < key_positions@.len() ==> key_stored(
                old(serializer)@,
                (#[trigger] key_positions@[i]) as int,
                map_entries(*map)[i].0,
            ),
    ensures
        result is Ok,
        final(serializer).limit() == old(serializer).limit(),
        result->Ok_0 == aligned(old(serializer)@.len() as int, ARCHIVED_MAP_ALIGN as int),
        extends(final(serializer)@, old(serializer)@),
        final(serializer)@.len() == result->Ok_0 + ENTRY_SIZE * map_entries(*map).len(),
        entries_written(
            final(serializer)@,
            result->Ok_0 as int,
            map_entries(*map).len() as int,
            map_entries(*map),
        ),
{
    let ghost entries = map_entries(*map);
    let n: usize = map_len(map);
    proof {
        serializer.lemma_limit_bounded();
    }
    let entries_pos: usize = serializer.align(ARCHIVED_MAP_ALIGN)?;
    let ghost base = serializer@;
    proof {
        assert(extends(base, old(serializer)@));
        assert forall|x: int| 0 <= x < n implies key_stored(
            base,
            (#[trigger] key_positions@[x]) as int,
            entries[x].0,
        ) by {
            lemma_key_extends(old(serializer)@, base, key_positions@[x] as int, entries[x].0);
        }
    }
    let mut out: Vec<u8> = Vec::new();
    let mut i: usize = 0;
    while i < n
        invariant
            i <= n,
            n == entries.len(),
            entries == map_entries(*map),
            key_positions@.len() == n,
            serializer.limit() == old(serializer).limit(),
            entries_pos + ENTRY_SIZE * n <= serializer.limit() <= MAX_ARCHIVE_LEN,
            base.len() == entries_pos,
            extends(base, old(serializer)@),
            extends(serializer@, base),
            serializer@.len() == entries_pos + ENTRY_SIZE * i,
            forall|x: int|
                0 <= x < n ==> key_stored(base, (#[trigger] key_positions@[x]) as int, entries[x].0),
            entries_written(serializer@, entries_pos as int, i as int, entries),
        decreases n - i,
    {
        let ghost before = serializer@;
        let entry = map_get_index(map, i).unwrap();
        let pos: usize = serializer.pos();
        let key_pos: usize = key_positions[i];
        proof {
            assert(key_stored(base, key_pos as int, entries[i as int].0));
        }
        out.clear();
        entry.resolve(pos, key_pos, &mut out);
        serializer.write(out.as_slice())?;
        proof {
            let after = serializer@;
            assert(extends(after, before));
            assert(after.subrange(pos as int, pos + ENTRY_SIZE) =~= out@);
            lemma_key_extends(base, after, key_pos as int, entries[i as int].0);
            lemma_entry_written(
                after,
                pos as int,
                key_pos as int,
                entries[i as int].0,
                entries[i as int].1,
            );
            lemma_entries_extend(before, after, entries_pos as int, i as int, entries);
            assert(entry_pos(entries_pos as int, i as int) == pos);
            assert forall|x: int| 0 <= x < i + 1 implies entry_wf(
                after,
                #[trigger] entry_pos(entries_pos as int, x),
            ) by {}
            assert forall|x: int| 0 <= x < i + 1 implies nth_key(after, entries_pos as int, x) == (
            #[trigger] entries[x]).0 && nth_value(after, entries_pos as int, x)
                == entries[x].1 by {}
        }
        i += 1;
    }
    Ok(entries_pos)
}

/// What holds of the pivots once the first `count` of them are written from
/// `pivots_pos` on: each names a pair whose key is the key of its slot.
pub open spec fn pivots_written(
    buf: Seq<u8>,
    pivots_pos: int,
    count: int,
    order: Seq<Seq<u8>>,
    keys: Seq<Seq<u8>>,
) -> bool {
    &&& 0 <= pivots_pos
    &&& pivots_pos + PIVOT_SIZE * count <= buf.len()
    &&& forall|s: int|
        0 <= s < count ==> 0 <= #[trigger] pivot_at(buf, pivots_pos, s) < keys.len() && keys[pivot_at(
            buf,
            pivots_pos,
            s,
        )] == order[s]
}

/// Writes one pivot for each slot, aligned, in the order of the slots: the place
/// that the map gives the slot's key. Hands back the position of the first pivot.
fn write_pivots(
    map: &IndexMap<Vec<u8>, i32>,
    slot_order: &Vec<&[u8]>,
    serializer: &mut Serializer,
) -> (result: Result<usize, SerializeError>)
    requires
        slot_order@.len() == map_entries(*map).len(),
        map_entries(*map).len() <= MAX_INDEX_LEN,
        aligned(old(serializer)@.len() as int, ARCHIVED_MAP_ALIGN as int) + PIVOT_SIZE
            * map_entries(*map).len() <= old(serializer).limit(),
        forall|s: int|
            0 <= s < slot_order@.len() ==> keys_of(map_entries(*map)).contains(
                (#[trigger] slot_order@[s])@,
            ),
    ensures
        result is Ok,
        final(serializer).limit() == old(serializer).limit(),
        result->Ok_0 == aligned(old(serializer)@.len() as int, ARCHIVED_MAP_ALIGN as int),
        extends(final(serializer)@, old(serializer)@),
        final(serializer)@.len() == result->Ok_0 + PIVOT_SIZE * map_entries(*map).len(),
        pivots_written(
            final(serializer)@,
            result->Ok_0 as int,
            map_entries(*map).len() as int,
            key_views(slot_order@),
            keys_of(map_entries(*map)),
        ),
{
    let ghost keys = keys_of(map_entries(*map));
    let ghost order = key_views(slot_order@);
    let n: usize = slot_order.len();
    let pivots_pos: usize = serializer.align(ARCHIVED_MAP_ALIGN)?;
    let ghost base = serializer@;
    let mut s: usize = 0;
    while s < n
        invariant
            s <= n,
            n == slot_order@.len(),
            n == map_entries(*map).len(),
            n <= MAX_INDEX_LEN,
            keys == keys_of(map_entries(*map)),
            order == key_views(slot_order@),
            serializer.limit() == old(serializer).limit(),
            pivots_pos + PIVOT_SIZE * n <= serializer.limit(),
            base.len() == pivots_pos,
            extends(base, old(serializer)@),
            extends(serializer@, base),
            serializer@.len() == pivots_pos + PIVOT_SIZE * s,
            forall|x: int| 0 <= x < n ==> keys.contains((#[trigger] slot_order@[x])@),
            pivots_written(serializer@, pivots_pos as int, s as int, order, keys),
        decreases n - s,
    {
        let ghost before = serializer@;
        let key: &[u8] = slot_order[s];
        proof {
            assert(keys.contains(slot_order@[s as int]@));
        }
        let index: usize = map_get_index_of(map, key).unwrap();
        serializer.write_u32(index as u32)?;
        proof {
            let after = serializer@;
            assert(extends(after, before));
            assert(after.subrange(pivots_pos + PIVOT_SIZE * s, pivots_pos + PIVOT_SIZE * s + 4)
                =~= u32_le(index as u32));
            lemma_u32_at_encoded(after, pivots_pos + PIVOT_SIZE * s, index as u32);
            assert(pivot_at(after, pivots_pos as int, s as int) == index);
            assert(keys[index as int] == map_entries(*map)[index as int].0);
            assert(order[s as int] == key@);
            assert forall|x: int| 0 <= x < s + 1 implies 0 <= #[trigger] pivot_at(
                after,
                pivots_pos as int,
                x,
            ) < keys.len() && keys[pivot_at(after, pivots_pos as int, x)] == order[x] by {
                if x < s {
                    assert(pivot_at(after, pivots_pos as int, x) == pivot_at(
                        before,
                        pivots_pos as int,
                        x,
                    ));
                }
            }
        }
        s += 1;
    }
    Ok(pivots_pos)
}

/// A table that is perfect for the map's keys, pivots that name for each slot the
/// pair with the slot's key, and the pairs themselves make a valid archived map.
pub proof fn lemma_assembled(
    buf: Seq<u8>,
    entries: Seq<(Seq<u8>, i32)>,
    order: Seq<Seq<u8>>,
    displace: int,
    pivots: int,
    entries_pos: int,
)
    requires
        entries.len() <= MAX_INDEX_LEN,
        0 <= displace,
        displace + 4 * entries.len() <= buf.len(),
        perfect_for(table_at(buf, displace, entries.len() as int), keys_of(entries)),
        order.len() == entries.len(),
        forall|s: int|
            0 <= s < order.len() ==> slot_of(
                table_at(buf, displace, entries.len() as int),
                #[trigger] order[s],
            ) == Some(s),
        pivots_written(buf, pivots, entries.len() as int, order, keys_of(entries)),
        entries_written(buf, entries_pos, entries.len() as int, entries),
    ensures
        index_wf(buf, entries.len() as int, displace),
        lookup_wf(table_at(buf, displace, entries.len() as int), buf, pivots, entries_pos),
        entries_at(buf, entries_pos, entries.len() as int) == entries,
        distinct_keys(entries),
{
    let n = entries.len() as int;
    let table = table_at(buf, displace, n);
    let keys = keys_of(entries);
    assert(entries_at(buf, entries_pos, n) =~= entries);
    assert forall|i: int, j: int| 0 <= i < j < n implies (#[trigger] entries[i]).0 != (
    #[trigger] entries[j]).0 by {
        assert(slot_of(table, keys[i]) != slot_of(table, keys[j]));
    }
    assert forall|index: int| 0 <= index < n implies #[trigger] resolves(
        table,
        buf,
        pivots,
        entries_pos,
        index,
    ) by {
        assert(nth_key(buf, entries_pos, index) == entries[index].0);
        assert(keys[index] == entries[index].0);
        let slot = slot_of(table, keys[index]);
        assert(slot is Some);
        lemma_slots_in_range(table[0], keys[index], n);
        let bucket = crate::placement::bucket_of(keys[index], n);
        assert(0 <= bucket < n);
        lemma_slots_in_range(table[bucket], keys[index], n);
        assert(0 <= slot->0 < n);
        let place = pivot_at(buf, pivots, slot->0);
        assert(keys[place] == order[slot->0]);
        assert(slot_of(table, order[slot->0]) == Some(slot->0));
        if place < index {
            assert(slot_of(table, keys[place]) != slot_of(table, keys[index]));
        } else if index < place {
            assert(slot_of(table, keys[index]) != slot_of(table, keys[place]));
        }
    }
}

/// The parts of a serialized map follow each other, and the pivots and what comes
/// behind them need no padding.
pub proof fn lemma_layout(start: int, keys: Seq<Seq<u8>>)
    requires
        0 <= start,
    ensures
        start <= aligned(start, DISPLACE_ALIGN as int),
        0 <= keys_len(keys, keys.len() as int),
        keys_start(start, keys) + keys_len(keys, keys.len() as int) <= entries_start(start, keys),
        start + keys_len(keys, keys.len() as int) + 20 * keys.len() <= serialized_end(start, keys),
        aligned(pivots_start(start, keys), ARCHIVED_MAP_ALIGN as int) == pivots_start(start, keys),
        aligned(serialized_end(start, keys), ARCHIVED_MAP_ALIGN as int) == serialized_end(
            start,
            keys,
        ),
{
    lemma_keys_len_grows(keys, 0, keys.len() as int);
    lemma_aligned(start, 4);
    lemma_aligned(keys_start(start, keys) + keys_len(keys, keys.len() as int), 4);
    let entries = entries_start(start, keys);
    assert(entries % 4 == 0);
    assert((entries + 12 * keys.len()) % 4 == 0);
    assert((entries + 16 * keys.len()) % 4 == 0);
    lemma_aligned(pivots_start(start, keys), 4);
    lemma_aligned(serialized_end(start, keys), 4);
}

/// The index, the pairs and the pivots, written one after the other, make a valid
/// archived map that holds the pairs in their order.
pub proof fn lemma_parts_written(
    before: Seq<u8>,
    indexed: Seq<u8>,
    paired: Seq<u8>,
    done: Seq<u8>,
    entries: Seq<(Seq<u8>, i32)>,
    order: Seq<Seq<u8>>,
    displace: int,
    pivots: int,
    entries_pos: int,
)
    requires
        entries.len() <= MAX_INDEX_LEN,
        extends(indexed, before),
        extends(paired, indexed),
        extends(done, paired),
        0 <= displace,
        indexed.len() == displace + 4 * entries.len(),
        perfect_for(table_at(indexed, displace, entries.len() as int), keys_of(entries)),
        order.len() == entries.len(),
        forall|s: int|
            0 <= s < order.len() ==> slot_of(
                table_at(indexed, displace, entries.len() as int),
                #[trigger] order[s],
            ) == Some(s),
        entries_written(paired, entries_pos, entries.len() as int, entries),
        pivots_written(done, pivots, entries.len() as int, order, keys_of(entries)),
    ensures
        extends(done, before),
        index_wf(done, entries.len() as int, displace),
        lookup_wf(table_at(done, displace, entries.len() as int), done, pivots, entries_pos),
        entries_at(done, entries_pos, entries.len() as int) == entries,
        distinct_keys(entries),
{
    let n = entries.len() as int;
    assert(extends(done, indexed));
    lemma_table_extends(indexed, done, displace, n);
    lemma_entries_extend(paired, done, entries_pos, n, entries);
    lemma_assembled(done, entries, order, displace, pivots, entries_pos);
}

/// The parts of a valid archived map read the same in a buffer that has grown.
pub proof fn lemma_parts_extend(
    buf: Seq<u8>,
    longer: Seq<u8>,
    len: int,
    displace: int,
    pivots: int,
    entries_pos: int,
)
    requires
        extends(longer, buf),
        index_wf(buf, len, displace),
        lookup_wf(table_at(buf, displace, len), buf, pivots, entries_pos),
    ensures
        index_wf(longer, len, displace),
        lookup_wf(table_at(longer, displace, len), longer, pivots, entries_pos),
        entries_at(longer, entries_pos, len) == entries_at(buf, entries_pos, len),
{
    let table = table_at(buf, displace, len);
    lemma_table_extends(buf, longer, displace, len);
    assert forall|i: int| 0 <= i < len implies entry_wf(
        longer,
        #[trigger] entry_pos(entries_pos, i),
    ) by {
        lemma_entry_extends(buf, longer, entry_pos(entries_pos, i));
    }
    assert forall|i: int| 0 <= i < len implies nth_key(longer, entries_pos, i) == nth_key(
        buf,
        entries_pos,
        i,
    ) && nth_value(longer, entries_pos, i) == nth_value(buf, entries_pos, i) by {
        assert(entry_wf(buf, entry_pos(entries_pos, i)));
        lemma_entry_extends(buf, longer, entry_pos(entries_pos, i));
    }
    assert(entries_at(longer, entries_pos, len) =~= entries_at(buf, entries_pos, len));
    assert forall|slot: int| 0 <= slot < len implies 0 <= #[trigger] pivot_at(
        longer,
        pivots,
        slot,
    ) < len by {
        assert(pivot_at(longer, pivots, slot) == pivot_at(buf, pivots, slot));
    }
    assert forall|index: int| 0 <= index < len implies #[trigger] resolves(
        table,
        longer,
        pivots,
        entries_pos,
        index,
    ) by {
        assert(resolves(table, buf, pivots, entries_pos, index));
        let slot = slot_of(table, nth_key(buf, entries_pos, index));
        lemma_slots_in_range(table[0], nth_key(buf, entries_pos, index), len);
        let bucket = crate::placement::bucket_of(nth_key(buf, entries_pos, index), len);
        lemma_slots_in_range(table[bucket], nth_key(buf, entries_pos, index), len);
        assert(0 <= slot->0 < len);
        assert(pivot_at(longer, pivots, slot->0) == pivot_at(buf, pivots, slot->0));
    }
}

/// A buffer that holds at `pos` the archived form of a map's structure gives back
/// the number of pairs and the three positions that went into it.
pub proof fn lemma_root_written(
    buf: Seq<u8>,
    pos: int,
    len: int,
    displace: int,
    pivots: int,
    entries_pos: int,
)
    requires
        0 <= pos,
        pos + ARCHIVED_MAP_SIZE <= buf.len(),
        pos + ARCHIVED_MAP_SIZE <= MAX_ARCHIVE_LEN,
        0 <= len <= MAX_INDEX_LEN,
        0 <= displace <= MAX_ARCHIVE_LEN,
        0 <= pivots <= MAX_ARCHIVE_LEN,
        0 <= entries_pos <= MAX_ARCHIVE_LEN,
        buf.subrange(pos, pos + ARCHIVED_MAP_SIZE) == map_bytes(
            len,
            pos,
            displace,
            pivots,
            entries_pos,
        ),
    ensures
        root_len(buf, pos) == len,
        root_displace(buf, pos) == displace,
        root_pivots(buf, pos) == pivots,
        root_entries(buf, pos) == entries_pos,
{
    let archived = buf.subrange(pos, pos + ARCHIVED_MAP_SIZE);
    assert(buf.subrange(pos, pos + 4) =~= archived.subrange(0, 4));
    assert(buf.subrange(pos + 4, pos + 8) =~= archived.subrange(4, 8));
    assert(buf.subrange(pos + 8, pos + 12) =~= archived.subrange(8, 12));
    assert(buf.subrange(pos + 12, pos + 16) =~= archived.subrange(12, 16));
    assert(archived.subrange(0, 4) =~= u32_le(len as u32));
    assert(archived.subrange(4, 8) =~= i32_le(rel_offset(pos + 4, displace) as i32));
    assert(archived.subrange(8, 12) =~= i32_le(rel_offset(pos + 8, pivots) as i32));
    assert(archived.subrange(12, 16) =~= i32_le(rel_offset(pos + 12, entries_pos) as i32));
    lemma_u32_at_encoded(buf, pos, len as u32);
    lemma_i32_at_encoded(buf, pos + 4, rel_offset(pos + 4, displace) as i32);
    lemma_i32_at_encoded(buf, pos + 8, rel_offset(pos + 8, pivots) as i32);
    lemma_i32_at_encoded(buf, pos + 12, rel_offset(pos + 12, entries_pos) as i32);
}

/// Writes the three parts of the map's archive: the hash index, the pairs in
/// insertion order, and the pivots in the order of the index's slots.
///
/// Fails, and writes nothing, where the parts would not fit into the output or where
/// the hash index cannot be built.
pub fn serialize(map: &IndexMap<Vec<u8>, i32>, serializer: &mut Serializer) -> (result: Result<
    IndexMapResolver,
    SerializeError,
>)
    ensures
        final(serializer).limit() == old(serializer).limit(),
        result is Ok <==> serialized_end(
            old(serializer)@.len() as int,
            keys_of(map_entries(*map)),
        ) <= old(serializer).limit() && placeable(keys_of(map_entries(*map))),
        result is Err ==> final(serializer)@ == old(serializer)@,
        result is Err ==> (result->Err_0 == SerializeError::TooLarge <==> serialized_end(
            old(serializer)@.len() as int,
            keys_of(map_entries(*map)),
        ) > old(serializer).limit()),
        result is Err ==> (result->Err_0 == SerializeError::Unplaceable <==> serialized_end(
            old(serializer)@.len() as int,
            keys_of(map_entries(*map)),
        ) <= old(serializer).limit()),
        result is Ok ==> serialized(
            old(serializer)@,
            final(serializer)@,
            map_entries(*map),
            result->Ok_0,
        ),
{
    let ghost entries = map_entries(*map);
    let ghost views = keys_of(entries);
    let ghost n = entries.len() as int;
    let ghost start = serializer@.len() as int;
    let keys = collect_keys(map);
    if checked_end(&keys, serializer.pos(), 0, serializer.max_len()).is_none() {
        return Err(SerializeError::TooLarge);
    }
    proof {
        lemma_layout(start, views);
    }
    let built = ArchivedHashIndex::build_and_serialize(&keys, serializer)?;
    let ghost indexed = serializer@;
    let ghost displace = built.resolver.displace_pos as int;
    let ghost order = key_views(built.slot_order@);

    // Serialize entries
    let key_positions = write_keys(&keys, serializer)?;
    proof {
        assert forall|i: int| 0 <= i < key_positions@.len() implies key_stored(
            serializer@,
            (#[trigger] key_positions@[i]) as int,
            entries[i].0,
        ) by {
            assert(views[i] == entries[i].0);
        }
    }
    let entries_pos: usize = write_entries(map, &key_positions, serializer)?;
    let ghost paired = serializer@;

    // Serialize pivots
    proof {
        assert forall|s: int| 0 <= s < built.slot_order@.len() implies views.contains(
            (#[trigger] built.slot_order@[s])@,
        ) by {}
        assert forall|s: int| 0 <= s < order.len() implies slot_of(
            table_at(indexed, displace, n),
            #[trigger] order[s],
        ) == Some(s) by {
            assert(order[s] == built.slot_order@[s]@);
        }
    }
    let pivots_pos: usize = write_pivots(map, &built.slot_order, serializer)?;
    proof {
        lemma_parts_written(
            old(serializer)@,
            indexed,
            paired,
            serializer@,
            entries,
            order,
            displace,
            pivots_pos as int,
            entries_pos as int,
        );
    }
    Ok(IndexMapResolver { index_resolver: built.resolver, pivots_pos, entries_pos })
}

/// Appends to `out` the archived form of the map's own structure, for a structure
/// that will be stored at `pos` and whose parts are where `resolver` says.
pub fn resolve(
    map: &IndexMap<Vec<u8>, i32>,
    pos: usize,
    resolver: IndexMapResolver,
    out: &mut Vec<u8>,
)
    requires
        map_entries(*map).len() <= MAX_INDEX_LEN,
        pos + ARCHIVED_MAP_SIZE <= MAX_ARCHIVE_LEN,
        resolver.index_resolver.displace_pos <= MAX_ARCHIVE_LEN,
        resolver.pivots_pos <= MAX_ARCHIVE_LEN,
        resolver.entries_pos <= MAX_ARCHIVE_LEN,
    ensures
        final(out)@ == old(out)@ + map_bytes(
            map_entries(*map).len() as int,
            pos as int,
            resolver.index_resolver.displace_pos as int,
            resolver.pivots_pos as int,
            resolver.entries_pos as int,
        ),
{
    let ghost displace = resolver.index_resolver.displace_pos as int;
    ArchivedHashIndex::resolve_from_len(map_len(map), pos, resolver.index_resolver, out);
    emplace(pos + 8, resolver.pivots_pos, out);
    emplace(pos + 12, resolver.entries_pos, out);
    assert(out@ =~= old(out)@ + map_bytes(
        map_entries(*map).len() as int,
        pos as int,
        displace,
        resolver.pivots_pos as int,
        resolver.entries_pos as int,
    ));
}

/// Archives the map: writes its three parts and then, aligned, its own structure.
/// Hands back the position of the structure, which is the last thing in the output.
///
/// Fails, and writes nothing, where the archive would not fit into the output or
/// where the hash index cannot be built.
pub fn serialize_value(map: &IndexMap<Vec<u8>, i32>, serializer: &mut Serializer) -> (result: Result<
    usize,
    SerializeError,
>)
    ensures
        final(serializer).limit() == old(serializer).limit(),
        result is Ok <==> archive_end(old(serializer)@.len() as int, keys_of(map_entries(*map)))
            <= old(serializer).limit() && placeable(keys_of(map_entries(*map))),
        result is Err ==> final(serializer)@ == old(serializer)@,
        result is Err ==> (result->Err_0 == SerializeError::TooLarge <==> archive_end(
            old(serializer)@.len() as int,
            keys_of(map_entries(*map)),
        ) > old(serializer).limit()),
        result is Err ==> (result->Err_0 == SerializeError::Unplaceable <==> archive_end(
            old(serializer)@.len() as int,
            keys_of(map_entries(*map)),
        ) <= old(serializer).limit()),
        result is Ok ==> {
            let root = result->Ok_0 as int;
            &&& extends(final(serializer)@, old(serializer)@)
            &&& root == serialized_end(old(serializer)@.len() as int, keys_of(map_entries(*map)))
            &&& final(serializer)@.len() == root + ARCHIVED_MAP_SIZE
            &&& archive_wf(final(serializer)@, root)
            &&& archive_entries(final(serializer)@, root) == map_entries(*map)
            &&& distinct_keys(map_entries(*map))
        },
{
    let ghost entries = map_entries(*map);
    let ghost n = entries.len() as int;
    let keys = collect_keys(map);
    if checked_end(&keys, serializer.pos(), ARCHIVED_MAP_SIZE, serializer.max_len()).is_none() {
        return Err(SerializeError::TooLarge);
    }
    let resolver = serialize(map, serializer)?;
    let ghost parts = serializer@;
    let ghost displace = resolver.index_resolver.displace_pos as int;
    let ghost pivots = resolver.pivots_pos as int;
    let ghost entries_pos = resolver.entries_pos as int;
    proof {
        lemma_layout(old(serializer)@.len() as int, keys_of(entries));
    }
    let pos: usize = serializer.align(ARCHIVED_MAP_ALIGN)?;
    let mut out: Vec<u8> = Vec::new();
    resolve(map, pos, resolver, &mut out);
    serializer.write(out.as_slice())?;
    proof {
        let done = serializer@;
        assert(extends(done, parts));
        assert(done.subrange(pos as int, pos + ARCHIVED_MAP_SIZE) =~= out@);
        lemma_parts_extend(parts, done, n, displace, pivots, entries_pos);
        lemma_root_written(done, pos as int, n, displace, pivots, entries_pos);
    }
    Ok(pos)
}

} // verus!
