//! The archived hash index: a table of displacements that sends each key of a map to a
//! slot of its own and stores no key.

use crate::bytes::{
    extends, get_u32, i32_le, lemma_u32_at_encoded, put_u32, u32_at, u32_le,
};
use crate::hasher::{hash_key, hash_key_displaced, index_hasher, new_hasher};
use crate::model::as_position;
use crate::placement::{
    key_views, lemma_slots_in_range, perfect_for, placeable, plan_table, slot_of, table_wf,
    EMPTY_BUCKET, FIRST_SEED, MAX_INDEX_LEN,
};
use crate::rel_ptr::{emplace, rel_offset, MAX_ARCHIVE_LEN};
use crate::serializer::{aligned, padding_for, SerializeError, Serializer};
use seahash::SeaHasher;
use vstd::prelude::*;

verus! {

/// The alignment of the displacements.
pub const DISPLACE_ALIGN: usize = 4;

/// The table of `len` displacements stored from `displace` on.
pub open spec fn table_at(buf: Seq<u8>, displace: int, len: int) -> Seq<u32> {
    Seq::new(len as nat, |b: int| u32_at(buf, displace + 4 * b))
}

/// The displacements lie inside the buffer and name only slots of the table.
pub open spec fn index_wf(buf: Seq<u8>, len: int, displace: int) -> bool {
    &&& 0 <= len <= MAX_INDEX_LEN
    &&& 0 <= displace
    &&& displace + 4 * len <= buf.len()
    &&& table_wf(table_at(buf, displace, len))
}

/// The archived form of an index of `len` slots that is stored at `pos` and whose
/// displacements are stored at `displace_pos`: the number of slots, then a reference
/// to the displacements, eight bytes in all.
pub open spec fn index_bytes(len: int, pos: int, displace_pos: int) -> Seq<u8> {
    u32_le(len as u32) + i32_le(rel_offset(pos + 4, displace_pos) as i32)
}

/// Whether the displacements of `len` keys fit into an output that holds `written`
/// bytes so far and takes up to `limit`.
pub open spec fn index_fits(written: int, len: int, limit: int) -> bool {
    aligned(written, DISPLACE_ALIGN as int) + 4 * len <= limit
}

/// Where the displacements of an index were written.
pub struct HashIndexResolver {
    /// The position of the first displacement.
    pub displace_pos: usize,
}

/// What building an index hands back: where its displacements are, and the keys in
/// the order of their slots.
pub struct BuiltIndex<'a> {
    /// Where the displacements were written.
    pub resolver: HashIndexResolver,
    /// For each slot, the key that the index sends there.
    pub slot_order: Vec<&'a [u8]>,
}

/// A hash index read in place from a buffer.
pub struct ArchivedHashIndex<'a> {
    buf: &'a [u8],
    len: usize,
    displace: usize,
}

impl<'a> View for ArchivedHashIndex<'a> {
    type V = Seq<u32>;

    /// The table of displacements.
    closed spec fn view(&self) -> Seq<u32> {
        table_at(self.buf@, self.displace as int, self.len as int)
    }
}

impl<'a> ArchivedHashIndex<'a> {
    #[verifier::type_invariant]
    spec fn well_formed(self) -> bool {
        index_wf(self.buf@, self.len as int, self.displace as int)
    }

    /// The index of `len` slots whose displacements are stored from `displace` on.
    pub fn new(buf: &'a [u8], len: usize, displace: usize) -> (index: Self)
        requires
            index_wf(buf@, len as int, displace as int),
        ensures
            index@ == table_at(buf@, displace as int, len as int),
    {
        ArchivedHashIndex { buf, len, displace }
    }

    /// The index of `len` slots whose displacements are stored from `displace` on,
    /// if the displacements lie inside the buffer and name only slots of the table.
    pub fn check(buf: &'a [u8], len: usize, displace: usize) -> (index: Option<Self>)
        ensures
            index is Some <==> index_wf(buf@, len as int, displace as int),
            index is Some ==> index->0@ == table_at(buf@, displace as int, len as int),
    {
        let size: usize = buf.len();
        if len > MAX_INDEX_LEN || displace > size || len > (size - displace) / 4 {
            return None;
        }
        let ghost table = table_at(buf@, displace as int, len as int);
        let mut b: usize = 0;
        while b < len
            invariant
                b <= len,
                displace + 4 * len <= size,
                size == buf@.len(),
                table == table_at(buf@, displace as int, len as int),
                forall|x: int| 0 <= x < b && #[trigger] table[x] < FIRST_SEED ==> table[x] < len,
            decreases len - b,
        {
            let displacement: u32 = get_u32(buf, displace + 4 * b);
            if displacement < FIRST_SEED && displacement as usize >= len {
                proof {
                    assert(table[b as int] == displacement);
                }
                return None;
            }
            b += 1;
        }
        Some(ArchivedHashIndex { buf, len, displace })
    }

    /// The number of slots, which is the number of keys that the index serves.
    pub fn len(&self) -> (len: usize)
        ensures
            len == self@.len(),
            len <= MAX_INDEX_LEN,
    {
        proof {
            use_type_invariant(self);
        }
        self.len
    }

    /// Whether the index serves no key.
    pub fn is_empty(&self) -> (empty: bool)
        ensures
            empty == (self@.len() == 0),
    {
        self.len == 0
    }

    /// A fresh copy of the hasher that the index hashes keys with.
    pub fn hasher(&self) -> (hasher: SeaHasher)
        ensures
            hasher == index_hasher(),
    {
        new_hasher()
    }

    /// The displacement of a bucket.
    fn displace(&self, bucket: usize) -> (displacement: u32)
        requires
            bucket < self@.len(),
        ensures
            displacement == self@[bucket as int],
    {
        proof {
            use_type_invariant(self);
            assert(self.buf@.len() == self.buf.len());
        }
        get_u32(self.buf, self.displace + 4 * bucket)
    }

    /// The slot where `key` would be. The index holds no keys, so the slot is a
    /// candidate: it is for the caller to compare the key stored there.
    pub fn index(&self, key: &[u8]) -> (slot: Option<usize>)
        ensures
            as_position(slot) == slot_of(self@, key@),
            slot is Some ==> slot->0 < self@.len(),
    {
        proof {
            use_type_invariant(self);
        }
        if self.len == 0 {
            return None;
        }
        let bucket: usize = (hash_key(key) % (self.len as u64)) as usize;
        let displacement: u32 = self.displace(bucket);
        if displacement == EMPTY_BUCKET {
            None
        } else if displacement < FIRST_SEED {
            Some(displacement as usize)
        } else {
            proof {
                lemma_slots_in_range(displacement, key@, self.len as int);
            }
            Some((hash_key_displaced(displacement, key) % (self.len as u64)) as usize)
        }
    }

    /// Appends to `out` the archived form of an index of `len` slots, for an index
    /// that will be stored at `pos`.
    pub fn resolve_from_len(len: usize, pos: usize, resolver: HashIndexResolver, out: &mut Vec<u8>)
        requires
            len <= MAX_INDEX_LEN,
            pos + 4 <= MAX_ARCHIVE_LEN,
            resolver.displace_pos <= MAX_ARCHIVE_LEN,
        ensures
            final(out)@ == old(out)@ + index_bytes(
                len as int,
                pos as int,
                resolver.displace_pos as int,
            ),
    {
        put_u32(out, len as u32);
        emplace(pos + 4, resolver.displace_pos, out);
        assert(out@ =~= old(out)@ + index_bytes(
            len as int,
            pos as int,
            resolver.displace_pos as int,
        ));
    }

    /// Builds the index of `keys` and writes its displacements, aligned, to
    /// `serializer`. Hands back where they are, and the keys in the order of the
    /// slots that the index gives them.
    ///
    /// Fails, and writes nothing, where the displacements do not fit into the output
    /// or where keys that share a bucket cannot be told apart by any seed.
    pub fn build_and_serialize(keys: &Vec<&'a [u8]>, serializer: &mut Serializer) -> (result: Result<
        BuiltIndex<'a>,
        SerializeError,
    >)
        ensures
            final(serializer).limit() == old(serializer).limit(),
            result is Ok <==> index_fits(
                old(serializer)@.len() as int,
                keys@.len() as int,
                old(serializer).limit(),
            ) && placeable(key_views(keys@)),
            result is Err ==> final(serializer)@ == old(serializer)@,
            result is Err ==> (result->Err_0 == SerializeError::TooLarge <==> !index_fits(
                old(serializer)@.len() as int,
                keys@.len() as int,
                old(serializer).limit(),
            )),
            result is Err ==> (result->Err_0 == SerializeError::Unplaceable <==> index_fits(
                old(serializer)@.len() as int,
                keys@.len() as int,
                old(serializer).limit(),
            )),
            result is Ok ==> {
                let built = result->Ok_0;
                let start = aligned(old(serializer)@.len() as int, DISPLACE_ALIGN as int);
                let table = table_at(final(serializer)@, start, keys@.len() as int);
                &&& built.resolver.displace_pos == start
                &&& final(serializer)@.len() == start + 4 * keys@.len()
                &&& extends(final(serializer)@, old(serializer)@)
                &&& perfect_for(table, key_views(keys@))
                &&& built.slot_order@.len() == keys@.len()
                &&& forall|s: int|
                    0 <= s < keys@.len() ==> key_views(keys@).contains(
                        (#[trigger] built.slot_order@[s])@,
                    )
                &&& forall|s: int|
                    0 <= s < keys@.len() ==> slot_of(table, (#[trigger] built.slot_order@[s])@)
                        == Some(s)
            },
    {
        reveal(padding_for);
        let n: usize = keys.len();
        let pos: usize = serializer.pos();
        let limit: usize = serializer.max_len();
        if pos > limit {
            return Err(SerializeError::TooLarge);
        }
        let padding: usize = if pos % DISPLACE_ALIGN == 0 {
            0
        } else {
            DISPLACE_ALIGN - pos % DISPLACE_ALIGN
        };
        let start: usize = pos + padding;
        if start > limit || n > (limit - start) / 4 {
            return Err(SerializeError::TooLarge);
        }
        let plan = match plan_table(keys) {
            Some(plan) => plan,
            None => {
                return Err(SerializeError::Unplaceable);
            },
        };
        serializer.align(DISPLACE_ALIGN)?;
        let ghost base = serializer@;
        let mut b: usize = 0;
        while b < n
            invariant
                b <= n,
                n == plan.table@.len(),
                start + 4 * n <= limit,
                serializer.limit() == limit,
                base.len() == start,
                serializer@.len() == start + 4 * b,
                extends(serializer@, base),
                forall|x: int|
                    0 <= x < b ==> u32_at(serializer@, start + 4 * x) == #[trigger] plan.table@[x],
            decreases n - b,
        {
            let ghost before = serializer@;
            serializer.write_u32(plan.table[b])?;
            proof {
                assert(serializer@.subrange(start + 4 * b, start + 4 * b + 4) =~= u32_le(
                    plan.table@[b as int],
                ));
                lemma_u32_at_encoded(serializer@, start + 4 * b, plan.table@[b as int]);
                assert forall|x: int| 0 <= x < b implies u32_at(serializer@, start + 4 * x)
                    == #[trigger] plan.table@[x] by {
                    assert(u32_at(before, start + 4 * x) == plan.table@[x]);
                }
            }
            b += 1;
        }
        proof {
            assert(table_at(serializer@, start as int, n as int) =~= plan.table@);
        }
        Ok(
            BuiltIndex {
                resolver: HashIndexResolver { displace_pos: start },
                slot_order: plan.slot_order,
            },
        )
    }
}

} // verus!
