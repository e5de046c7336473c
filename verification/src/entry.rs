//! The fixed-size archived form of one key-value pair: a reference to the key's bytes,
//! the key's length and the value, in that order.

use crate::bytes::{
    get_i32, get_u32, i32_at, i32_le, lemma_i32_at_encoded, lemma_u32_at_encoded, put_i32, put_u32,
    u32_at, u32_le,
};
use crate::rel_ptr::{emplace, rel_offset, rel_target, resolve, MAX_ARCHIVE_LEN};
use vstd::prelude::*;
use vstd::slice::slice_subrange;

verus! {

/// The number of bytes that an archived pair takes.
pub const ENTRY_SIZE: usize = 12;

/// A key-value pair whose key is borrowed.
pub struct Entry<'a> {
    /// The key's bytes.
    pub key: &'a [u8],
    /// The value.
    pub value: i32,
}

/// The archived form of a pair that is stored at `pos` and whose key's bytes are
/// stored at `key_pos`.
pub open spec fn entry_bytes(pos: int, key_pos: int, key_len: int, value: i32) -> Seq<u8> {
    i32_le(rel_offset(pos, key_pos) as i32) + u32_le(key_len as u32) + i32_le(value)
}

/// Where the key of the pair archived at `pos` is stored.
pub open spec fn entry_key_pos(buf: Seq<u8>, pos: int) -> int {
    rel_target(buf, pos)
}

/// The length of the key of the pair archived at `pos`.
pub open spec fn entry_key_len(buf: Seq<u8>, pos: int) -> int {
    u32_at(buf, pos + 4) as int
}

/// The pair archived at `pos` lies inside the buffer, and so do the bytes of its key.
pub open spec fn entry_wf(buf: Seq<u8>, pos: int) -> bool {
    &&& 0 <= pos
    &&& pos + ENTRY_SIZE <= buf.len()
    &&& 0 <= entry_key_pos(buf, pos)
    &&& entry_key_pos(buf, pos) + entry_key_len(buf, pos) <= buf.len()
}

/// The key of the pair archived at `pos`.
pub open spec fn entry_key(buf: Seq<u8>, pos: int) -> Seq<u8> {
    buf.subrange(entry_key_pos(buf, pos), entry_key_pos(buf, pos) + entry_key_len(buf, pos))
}

/// The value of the pair archived at `pos`.
pub open spec fn entry_value(buf: Seq<u8>, pos: int) -> i32 {
    i32_at(buf, pos + 8)
}

/// A buffer that holds a key's bytes and, at `pos`, the archived form of a pair that
/// refers to them, reads back as that pair.
pub proof fn lemma_entry_written(buf: Seq<u8>, pos: int, key_pos: int, key: Seq<u8>, value: i32)
    requires
        0 <= pos <= MAX_ARCHIVE_LEN,
        0 <= key_pos <= MAX_ARCHIVE_LEN,
        key.len() <= u32::MAX,
        pos + ENTRY_SIZE <= buf.len(),
        key_pos + key.len() <= buf.len(),
        buf.subrange(pos, pos + ENTRY_SIZE) == entry_bytes(pos, key_pos, key.len() as int, value),
        buf.subrange(key_pos, key_pos + key.len()) == key,
    ensures
        entry_wf(buf, pos),
        entry_key(buf, pos) == key,
        entry_value(buf, pos) == value,
{
    let archived = buf.subrange(pos, pos + ENTRY_SIZE);
    let offset = rel_offset(pos, key_pos) as i32;
    assert(buf.subrange(pos, pos + 4) =~= archived.subrange(0, 4));
    assert(buf.subrange(pos + 4, pos + 8) =~= archived.subrange(4, 8));
    assert(buf.subrange(pos + 8, pos + 12) =~= archived.subrange(8, 12));
    assert(archived.subrange(0, 4) =~= i32_le(offset));
    assert(archived.subrange(4, 8) =~= u32_le(key.len() as u32));
    assert(archived.subrange(8, 12) =~= i32_le(value));
    lemma_i32_at_encoded(buf, pos, offset);
    lemma_u32_at_encoded(buf, pos + 4, key.len() as u32);
    lemma_i32_at_encoded(buf, pos + 8, value);
}

impl<'a> Entry<'a> {
    /// Appends to `out` the archived form of the pair, for a pair that will be stored
    /// at `pos` and whose key's bytes are stored at `resolver`.
    pub fn resolve(&self, pos: usize, resolver: usize, out: &mut Vec<u8>)
        requires
            pos <= MAX_ARCHIVE_LEN,
            resolver <= MAX_ARCHIVE_LEN,
            self.key@.len() <= u32::MAX,
        ensures
            final(out)@ == old(out)@ + entry_bytes(
                pos as int,
                resolver as int,
                self.key@.len() as int,
                self.value,
            ),
    {
        emplace(pos, resolver, out);
        put_u32(out, self.key.len() as u32);
        put_i32(out, self.value);
        assert(out@ =~= old(out)@ + entry_bytes(
            pos as int,
            resolver as int,
            self.key@.len() as int,
            self.value,
        ));
    }

    /// Whether a pair archived at `pos` would lie inside the buffer together with the
    /// bytes of its key.
    pub fn check(buf: &[u8], pos: usize) -> (valid: bool)
        ensures
            valid == entry_wf(buf@, pos as int),
    {
        let size: usize = buf.len();
        if pos > size || size - pos < ENTRY_SIZE {
            return false;
        }
        match resolve(buf, pos) {
            Some(key_pos) => {
                let key_len: usize = get_u32(buf, pos + 4) as usize;
                key_pos <= size && key_len <= size - key_pos
            },
            None => false,
        }
    }

    /// Reads the pair archived at `pos`, borrowing the key from the buffer.
    pub fn read(buf: &'a [u8], pos: usize) -> (entry: Entry<'a>)
        requires
            entry_wf(buf@, pos as int),
        ensures
            entry.key@ == entry_key(buf@, pos as int),
            entry.value == entry_value(buf@, pos as int),
    {
        proof {
            assert(buf@.len() == buf.len());
        }
        let key_pos: usize = resolve(buf, pos).unwrap();
        let key_len: usize = get_u32(buf, pos + 4) as usize;
        let value: i32 = get_i32(buf, pos + 8);
        Entry { key: slice_subrange(buf, key_pos, key_pos + key_len), value }
    }
}

} // verus!
