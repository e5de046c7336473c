//! The append-only output region into which an archive is built.

use crate::bytes::{put_u32, u32_le};
use crate::rel_ptr::MAX_ARCHIVE_LEN;
use vstd::prelude::*;

verus! {

/// Why an archive could not be built.
#[derive(Clone, Copy, Debug, PartialEq, Eq, Structural)]
pub enum SerializeError {
    /// The output would grow beyond its limit.
    TooLarge,
    /// Some keys share a bucket of the hash index and no displacement seed gives them
    /// free slots of their own.
    Unplaceable,
}

/// The number of zero bytes that bring `pos` up to a multiple of `align`. An alignment
/// of zero asks for nothing.
#[verifier::opaque]
pub open spec fn padding_for(pos: int, align: int) -> int {
    if align <= 0 || pos % align == 0 {
        0
    } else {
        align - pos % align
    }
}

/// `pos` rounded up to a multiple of `align`.
pub open spec fn aligned(pos: int, align: int) -> int {
    pos + padding_for(pos, align)
}

/// Padding is less than the alignment, and what it reaches is aligned.
pub proof fn lemma_aligned(pos: int, align: int)
    requires
        0 <= pos,
        0 < align,
    ensures
        0 <= padding_for(pos, align) < align,
        aligned(pos, align) % align == 0,
        pos % align == 0 ==> aligned(pos, align) == pos,
{
    reveal(padding_for);
    vstd::arithmetic::div_mod::lemma_mod_bound(pos, align);
    if pos % align != 0 {
        vstd::arithmetic::div_mod::lemma_fundamental_div_mod(pos, align);
        assert(pos + (align - pos % align) == align * (pos / align + 1)) by (nonlinear_arith)
            requires
                pos == align * (pos / align) + pos % align,
        ;
        vstd::arithmetic::div_mod::lemma_mod_multiples_basic(pos / align + 1, align);
        assert(align * (pos / align + 1) == (pos / align + 1) * align) by (nonlinear_arith);
    }
}

/// `count` zero bytes.
pub open spec fn zeros(count: int) -> Seq<u8> {
    Seq::new(count as nat, |i: int| 0u8)
}

/// An output region that only grows, up to a limit of at most [`MAX_ARCHIVE_LEN`]
/// bytes. A write that would pass the limit fails and leaves the region as it was.
pub struct Serializer {
    buf: Vec<u8>,
    limit: usize,
}

impl View for Serializer {
    type V = Seq<u8>;

    closed spec fn view(&self) -> Seq<u8> {
        self.buf@
    }
}

impl Serializer {
    /// The most bytes that the region takes.
    pub closed spec fn limit(&self) -> int {
        if self.limit <= MAX_ARCHIVE_LEN {
            self.limit as int
        } else {
            MAX_ARCHIVE_LEN as int
        }
    }

    /// No region takes more than the largest archive.
    pub proof fn lemma_limit_bounded(&self)
        ensures
            0 <= self.limit() <= MAX_ARCHIVE_LEN,
    {
    }

    /// An empty region that takes as much as the largest archive.
    pub fn new() -> (serializer: Self)
        ensures
            serializer@ == Seq::<u8>::empty(),
            serializer.limit() == MAX_ARCHIVE_LEN,
    {
        Serializer { buf: Vec::new(), limit: MAX_ARCHIVE_LEN }
    }

    /// An empty region that takes up to `limit` bytes, and never more than the largest
    /// archive.
    pub fn with_limit(limit: usize) -> (serializer: Self)
        ensures
            serializer@ == Seq::<u8>::empty(),
            serializer.limit() == if limit <= MAX_ARCHIVE_LEN {
                limit
            } else {
                MAX_ARCHIVE_LEN
            },
    {
        Serializer { buf: Vec::new(), limit }
    }

    /// The most bytes that the region takes.
    pub fn max_len(&self) -> (limit: usize)
        ensures
            limit == self.limit(),
            limit <= MAX_ARCHIVE_LEN,
    {
        if self.limit <= MAX_ARCHIVE_LEN {
            self.limit
        } else {
            MAX_ARCHIVE_LEN
        }
    }

    /// The position at which the next byte will be written.
    pub fn pos(&self) -> (pos: usize)
        ensures
            pos == self@.len(),
    {
        self.buf.len()
    }

    /// Whether `count` more bytes fit.
    pub fn fits(&self, count: usize) -> (fits: bool)
        ensures
            fits == (self@.len() + count <= self.limit()),
    {
        let limit: usize = self.max_len();
        self.buf.len() <= limit && count <= limit - self.buf.len()
    }

    /// Appends `bytes`.
    pub fn write(&mut self, bytes: &[u8]) -> (result: Result<(), SerializeError>)
        ensures
            final(self).limit() == old(self).limit(),
            result is Ok <==> old(self)@.len() + bytes@.len() <= old(self).limit(),
            result is Ok ==> final(self)@ == old(self)@ + bytes@,
            result is Err ==> result == Err::<(), SerializeError>(SerializeError::TooLarge)
                && final(self)@ == old(self)@,
    {
        if !self.fits(bytes.len()) {
            return Err(SerializeError::TooLarge);
        }
        let mut i: usize = 0;
        while i < bytes.len()
            invariant
                i <= bytes@.len(),
                self.limit == old(self).limit,
                self.buf@ == old(self).buf@ + bytes@.take(i as int),
            decreases bytes@.len() - i,
        {
            self.buf.push(bytes[i]);
            i += 1;
            assert(self.buf@ =~= old(self).buf@ + bytes@.take(i as int));
        }
        assert(bytes@.take(i as int) =~= bytes@);
        Ok(())
    }

    /// Appends the four bytes of `x` and returns the position where they start.
    pub fn write_u32(&mut self, x: u32) -> (result: Result<usize, SerializeError>)
        ensures
            final(self).limit() == old(self).limit(),
            result is Ok <==> old(self)@.len() + 4 <= old(self).limit(),
            result is Ok ==> result == Ok::<usize, SerializeError>(old(self)@.len() as usize)
                && final(self)@ == old(self)@ + u32_le(x),
            result is Err ==> result == Err::<usize, SerializeError>(SerializeError::TooLarge)
                && final(self)@ == old(self)@,
    {
        if !self.fits(4) {
            return Err(SerializeError::TooLarge);
        }
        let pos: usize = self.buf.len();
        put_u32(&mut self.buf, x);
        Ok(pos)
    }

    /// Appends `count` zero bytes.
    pub fn pad(&mut self, count: usize) -> (result: Result<(), SerializeError>)
        ensures
            final(self).limit() == old(self).limit(),
            result is Ok <==> old(self)@.len() + count <= old(self).limit(),
            result is Ok ==> final(self)@ == old(self)@ + zeros(count as int),
            result is Err ==> result == Err::<(), SerializeError>(SerializeError::TooLarge)
                && final(self)@ == old(self)@,
    {
        if !self.fits(count) {
            return Err(SerializeError::TooLarge);
        }
        let mut i: usize = 0;
        while i < count
            invariant
                i <= count,
                self.limit == old(self).limit,
                self.buf@ == old(self).buf@ + zeros(i as int),
            decreases count - i,
        {
            self.buf.push(0u8);
            i += 1;
            assert(self.buf@ =~= old(self).buf@ + zeros(i as int));
        }
        Ok(())
    }

    /// Pads with zero bytes up to a multiple of `align` and returns the position
    /// reached, where an aligned value can be written next.
    pub fn align(&mut self, align: usize) -> (result: Result<usize, SerializeError>)
        ensures
            final(self).limit() == old(self).limit(),
            result is Ok <==> aligned(old(self)@.len() as int, align as int) <= old(self).limit(),
            result is Ok ==> result->Ok_0 == aligned(old(self)@.len() as int, align as int)
                && final(self)@.len() == result->Ok_0 && final(self)@ == old(self)@ + zeros(
                padding_for(old(self)@.len() as int, align as int),
            ),
            result is Err ==> result == Err::<usize, SerializeError>(SerializeError::TooLarge)
                && final(self)@ == old(self)@,
    {
        reveal(padding_for);
        let pos: usize = self.buf.len();
        let padding: usize = if align == 0 || pos % align == 0 {
            0
        } else {
            align - pos % align
        };
        match self.pad(padding) {
            Ok(()) => Ok(self.buf.len()),
            Err(error) => Err(error),
        }
    }

    /// The bytes written so far.
    pub fn as_slice(&self) -> (bytes: &[u8])
        ensures
            bytes@ == self@,
    {
        self.buf.as_slice()
    }

    /// Gives up the region and hands over the bytes written.
    pub fn into_inner(self) -> (bytes: Vec<u8>)
        ensures
            bytes@ == self@,
    {
        self.buf
    }
}

} // verus!
