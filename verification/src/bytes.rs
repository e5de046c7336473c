//! Little-endian encoding of the fixed-width integers that an archive stores, and
//! comparison of byte strings.

use vstd::prelude::*;

verus! {

/// The four bytes that store `x`, least significant first.
pub open spec fn u32_le(x: u32) -> Seq<u8> {
    seq![
        (x % 256) as u8,
        (x / 256 % 256) as u8,
        (x / 65536 % 256) as u8,
        (x / 16777216) as u8,
    ]
}

/// The unsigned integer whose four bytes start at `pos`.
pub open spec fn u32_at(buf: Seq<u8>, pos: int) -> u32 {
    (buf[pos] as int + buf[pos + 1] as int * 256 + buf[pos + 2] as int * 65536 + buf[pos + 3] as int
        * 16777216) as u32
}

/// The two's complement bit pattern of `x`.
pub open spec fn i32_bits(x: i32) -> u32 {
    if x >= 0 {
        x as u32
    } else {
        (x + 0x1_0000_0000) as u32
    }
}

/// The signed integer whose two's complement bit pattern is `bits`.
pub open spec fn bits_i32(bits: u32) -> i32 {
    if bits < 0x8000_0000 {
        bits as i32
    } else {
        (bits - 0x1_0000_0000) as i32
    }
}

/// The four bytes that store `x` in two's complement, least significant first.
pub open spec fn i32_le(x: i32) -> Seq<u8> {
    u32_le(i32_bits(x))
}

/// The signed integer whose four bytes start at `pos`.
pub open spec fn i32_at(buf: Seq<u8>, pos: int) -> i32 {
    bits_i32(u32_at(buf, pos))
}

/// `longer` starts with all of `shorter`.
pub open spec fn extends(longer: Seq<u8>, shorter: Seq<u8>) -> bool {
    &&& shorter.len() <= longer.len()
    &&& forall|i: int| 0 <= i < shorter.len() ==> longer[i] == shorter[i]
}

/// Reading back four bytes that encode `x` gives `x`.
pub proof fn lemma_u32_at_encoded(buf: Seq<u8>, pos: int, x: u32)
    requires
        0 <= pos,
        pos + 4 <= buf.len(),
        buf.subrange(pos, pos + 4) == u32_le(x),
    ensures
        u32_at(buf, pos) == x,
{
    let part = buf.subrange(pos, pos + 4);
    assert(part[0] == buf[pos] && part[1] == buf[pos + 1] && part[2] == buf[pos + 2] && part[3]
        == buf[pos + 3]);
}

/// Reading back four bytes that encode `x` gives `x`.
pub proof fn lemma_i32_at_encoded(buf: Seq<u8>, pos: int, x: i32)
    requires
        0 <= pos,
        pos + 4 <= buf.len(),
        buf.subrange(pos, pos + 4) == i32_le(x),
    ensures
        i32_at(buf, pos) == x,
{
    lemma_u32_at_encoded(buf, pos, i32_bits(x));
}

/// Appends the encoding of `x` to `out`.
pub fn put_u32(out: &mut Vec<u8>, x: u32)
    ensures
        final(out)@ == old(out)@ + u32_le(x),
{
    out.push((x % 256) as u8);
    out.push((x / 256 % 256) as u8);
    out.push((x / 65536 % 256) as u8);
    out.push((x / 16777216) as u8);
    assert(out@ =~= old(out)@ + u32_le(x));
}

/// Appends the encoding of `x` to `out`.
pub fn put_i32(out: &mut Vec<u8>, x: i32)
    ensures
        final(out)@ == old(out)@ + i32_le(x),
{
    let bits: u32 = if x >= 0 {
        x as u32
    } else {
        (x as i64 + 0x1_0000_0000) as u32
    };
    put_u32(out, bits);
}

/// Decodes the unsigned integer whose four bytes start at `pos`.
pub fn get_u32(buf: &[u8], pos: usize) -> (x: u32)
    requires
        pos + 4 <= buf@.len(),
    ensures
        x == u32_at(buf@, pos as int),
{
    let b0: u32 = buf[pos] as u32;
    let b1: u32 = buf[pos + 1] as u32;
    let b2: u32 = buf[pos + 2] as u32;
    let b3: u32 = buf[pos + 3] as u32;
    b0 + b1 * 256 + b2 * 65536 + b3 * 16777216
}

/// Decodes the signed integer whose four bytes start at `pos`.
pub fn get_i32(buf: &[u8], pos: usize) -> (x: i32)
    requires
        pos + 4 <= buf@.len(),
    ensures
        x == i32_at(buf@, pos as int),
{
    let bits: u32 = get_u32(buf, pos);
    if bits < 0x8000_0000 {
        bits as i32
    } else {
        (bits as i64 - 0x1_0000_0000) as i32
    }
}

/// Whether two byte strings hold the same bytes.
pub fn bytes_eq(a: &[u8], b: &[u8]) -> (same: bool)
    ensures
        same == (a@ == b@),
{
    if a.len() != b.len() {
        return false;
    }
    let mut i: usize = 0;
    while i < a.len()
        invariant
            a@.len() == b@.len(),
            i <= a@.len(),
            forall|k: int| 0 <= k < i ==> a@[k] == b@[k],
        decreases a@.len() - i,
    {
        if a[i] != b[i] {
            return false;
        }
        i += 1;
    }
    assert(a@ =~= b@);
    true
}

} // verus!
