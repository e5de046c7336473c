//! Relative references: a stored signed offset that leads from the place where it is
//! stored to its target, so that an archive can be moved as a whole.

use crate::bytes::{get_i32, i32_at, i32_le, put_i32};
use vstd::prelude::*;

verus! {

/// The largest archive, in bytes, whose every offset fits in a stored reference.
pub const MAX_ARCHIVE_LEN: usize = 0x7fff_ffff;

/// The number of bytes that a stored reference takes.
pub const REL_PTR_SIZE: usize = 4;

/// The offset that leads from `from` to `to`.
pub open spec fn rel_offset(from: int, to: int) -> int {
    to - from
}

/// The position that the reference stored at `pos` leads to.
pub open spec fn rel_target(buf: Seq<u8>, pos: int) -> int {
    pos + i32_at(buf, pos)
}

/// Appends to `out` the reference that, stored at `from`, leads to `to`.
pub fn emplace(from: usize, to: usize, out: &mut Vec<u8>)
    requires
        from <= MAX_ARCHIVE_LEN,
        to <= MAX_ARCHIVE_LEN,
    ensures
        final(out)@ == old(out)@ + i32_le(rel_offset(from as int, to as int) as i32),
{
    let offset: i64 = to as i64 - from as i64;
    put_i32(out, offset as i32);
}

/// Follows the reference stored at `pos`. The target is `None` where it would lie
/// before the start of the buffer or beyond what a position can hold.
pub fn resolve(buf: &[u8], pos: usize) -> (target: Option<usize>)
    requires
        pos + REL_PTR_SIZE <= buf@.len(),
    ensures
        target == if 0 <= rel_target(buf@, pos as int) <= usize::MAX {
            Some(rel_target(buf@, pos as int) as usize)
        } else {
            None
        },
{
    let offset: i32 = get_i32(buf, pos);
    if offset >= 0 {
        let forward: usize = offset as usize;
        if forward <= usize::MAX - pos {
            Some(pos + forward)
        } else {
            None
        }
    } else {
        let back: usize = (-(offset as i64)) as usize;
        if back <= pos {
            Some(pos - back)
        } else {
            None
        }
    }
}

} // verus!
