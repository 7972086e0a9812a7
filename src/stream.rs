//! An in-memory byte reader with a cursor, fixed-width integer reads in a
//! configurable byte order, and length-prefixed UTF-16LE strings.
use vstd::prelude::*;

use crate::text::{decode_utf16, string_from_utf16, utf16_units};
use crate::types::{Readable, UnknownSizeReadable};


verus! {

/// Where a seek is measured from.
#[derive(Clone, Copy, Debug, PartialEq, Eq)]
pub enum SeekFrom {
    Start(u64),
    End(i64),
    Current(i64),
}

/// Why a read or a seek failed.
#[derive(Clone, Copy, Debug, PartialEq, Eq, Structural)]
pub enum StreamError {
    /// Fewer bytes remain than were asked for.
    UnexpectedEof,
    /// The bytes do not form a well-formed UTF-16 sequence.
    InvalidData,
    /// The target position would be negative or beyond `u64::MAX`.
    InvalidSeek,
}

/// `256^n`.
pub open spec fn pow256(n: nat) -> nat
    decreases n,
{
    if n == 0 {
        1
    } else {
        256 * pow256((n - 1) as nat)
    }
}

/// The unsigned integer whose little-endian bytes are `b`.
pub open spec fn le_value(b: Seq<u8>) -> nat
    decreases b.len(),
{
    if b.len() == 0 {
        0
    } else {
        b[0] as nat + 256 * le_value(b.drop_first())
    }
}

/// The unsigned integer whose big-endian bytes are `b`.
pub open spec fn be_value(b: Seq<u8>) -> nat
    decreases b.len(),
{
    if b.len() == 0 {
        0
    } else {
        be_value(b.drop_last()) * 256 + b.last() as nat
    }
}

/// The unsigned integer that `b` encodes in the given byte order.
pub open spec fn int_value(b: Seq<u8>, little_endian: bool) -> nat {
    if little_endian {
        le_value(b)
    } else {
        be_value(b)
    }
}

pub proof fn lemma_le_value_bound(b: Seq<u8>)
    ensures
        le_value(b) < pow256(b.len()),
    decreases b.len(),
{
    if b.len() > 0 {
        lemma_le_value_bound(b.drop_first());
    }
}

pub proof fn lemma_be_value_bound(b: Seq<u8>)
    ensures
        be_value(b) < pow256(b.len()),
    decreases b.len(),
{
    if b.len() > 0 {
        lemma_be_value_bound(b.drop_last());
    }
}

pub proof fn lemma_int_value_bound(b: Seq<u8>, little_endian: bool)
    ensures
        int_value(b, little_endian) < pow256(b.len()),
{
    lemma_le_value_bound(b);
    lemma_be_value_bound(b);
}

/// Folds the bytes into one integer: the first byte is the least significant
/// one in little-endian order, the most significant one otherwise.
pub fn reduce_to_int(bytes: &Vec<u8>, little_endian: bool) -> (r: u64)
    requires
        bytes@.len() <= 8,
    ensures
        r as nat == int_value(bytes@, little_endian),
{
    let n = bytes.len();
    proof {
        lemma_int_value_bound(bytes@, little_endian);
        reveal_with_fuel(pow256, 9);
        assert(pow256(8) == 0x1_0000_0000_0000_0000);
    }
    let mut acc: u64 = 0;
    if little_endian {
        let mut i: usize = n;
        while i > 0
            invariant
                n == bytes@.len(),
                n <= 8,
                i <= n,
                pow256(8) == 0x1_0000_0000_0000_0000,
                acc as nat == le_value(bytes@.subrange(i as int, n as int)),
            decreases i,
        {
            let ghost tail = bytes@.subrange(i as int, n as int);
            let ghost next = bytes@.subrange(i - 1, n as int);
            assert(next.drop_first() =~= tail);
            proof {
                lemma_le_value_bound(next);
                lemma_pow256_mono(next.len(), 8);
                assert(le_value(next) == next[0] as nat + 256 * le_value(tail));
                assert(next[0] == bytes@[i - 1]);
            }
            acc = acc * 256 + bytes[i - 1] as u64;
            i = i - 1;
        }
        assert(bytes@.subrange(0, n as int) =~= bytes@);
    } else {
        let mut i: usize = 0;
        while i < n
            invariant
                n == bytes@.len(),
                n <= 8,
                i <= n,
                pow256(8) == 0x1_0000_0000_0000_0000,
                acc as nat == be_value(bytes@.subrange(0, i as int)),
            decreases n - i,
        {
            let ghost head = bytes@.subrange(0, i as int);
            let ghost next = bytes@.subrange(0, i + 1);
            assert(next.drop_last() =~= head);
            proof {
                lemma_be_value_bound(next);
                lemma_pow256_mono(next.len(), 8);
                assert(be_value(next) == be_value(head) * 256 + next.last() as nat);
                assert(next.last() == bytes@[i as int]);
            }
            acc = acc * 256 + bytes[i] as u64;
            i = i + 1;
        }
        assert(bytes@.subrange(0, n as int) =~= bytes@);
    }
    acc
}

pub proof fn lemma_pow256_mono(a: nat, b: nat)
    requires
        a <= b,
    ensures
        pow256(a) <= pow256(b),
    decreases b,
{
    if a < b {
        lemma_pow256_mono(a, (b - 1) as nat);
    }
}

/// A byte buffer read from the front through a cursor.
///
/// The cursor may stand anywhere at or past the end of the buffer; reads past
/// the end fail and leave the stream as it was.
pub struct ReadStream {
    data: Vec<u8>,
    pos: u64,
    little_endian: bool,
}

impl ReadStream {
    /// The bytes the stream reads from.
    pub closed spec fn content(&self) -> Seq<u8> {
        self.data@
    }

    /// The current position, counted from the start.
    pub closed spec fn cursor(&self) -> nat {
        self.pos as nat
    }

    /// Whether integers are read little-endian.
    pub closed spec fn le_order(&self) -> bool {
        self.little_endian
    }

    /// `n` more bytes are available at the cursor.
    pub open spec fn can_read(&self, n: nat) -> bool {
        self.cursor() + n <= self.content().len()
    }

    /// The `n` bytes at the cursor.
    pub open spec fn window(&self, n: nat) -> Seq<u8> {
        self.content().subrange(self.cursor() as int, (self.cursor() + n) as int)
    }

    /// Same bytes and byte order, the cursor moved to `p`.
    pub open spec fn moved_to(&self, next: &ReadStream, p: nat) -> bool {
        &&& next.content() == self.content()
        &&& next.le_order() == self.le_order()
        &&& next.cursor() == p
    }

    /// The outcome of reading `n` bytes: on success the cursor advances by
    /// `n`; on failure the stream is unchanged.
    pub open spec fn read_outcome(&self, next: &ReadStream, n: nat, ok: bool) -> bool {
        if self.can_read(n) {
            ok && self.moved_to(next, self.cursor() + n)
        } else {
            !ok && *next == *self
        }
    }

    /// Where a seek would land, if that position is representable.
    pub open spec fn seek_target(&self, pos: SeekFrom) -> Option<nat> {
        let t: int = match pos {
            SeekFrom::Start(n) => n as int,
            SeekFrom::End(d) => self.content().len() + d,
            SeekFrom::Current(d) => self.cursor() + d,
        };
        if 0 <= t <= u64::MAX {
            Some(t as nat)
        } else {
            None
        }
    }

    /// The bytes of a stream fit in memory.
    pub proof fn lemma_content_fits(&self)
        ensures
            self.content().len() <= usize::MAX,
    {
        assert(self.data.len() == self.data@.len());
    }

    pub fn new(data: Vec<u8>, little_endian: bool) -> (s: Self)
        ensures
            s.content() == data@,
            s.cursor() == 0,
            s.le_order() == little_endian,
    {
        ReadStream { data, pos: 0, little_endian }
    }

    /// Reads integers little-endian from now on when `new` holds, big-endian
    /// otherwise.
    pub fn little_endian(&mut self, new: bool)
        ensures
            final(self).content() == old(self).content(),
            final(self).cursor() == old(self).cursor(),
            final(self).le_order() == new,
    {
        self.little_endian = new;
    }

    pub fn is_little_endian(&self) -> (r: bool)
        ensures
            r == self.le_order(),
    {
        self.little_endian
    }

    /// Moves the cursor and returns the new position.
    pub fn seek(&mut self, pos: SeekFrom) -> (r: Result<u64, StreamError>)
        ensures
            match old(self).seek_target(pos) {
                Some(p) => r == Ok::<u64, StreamError>(p as u64) && old(self).moved_to(&*final(self), p),
                None => r == Err::<u64, StreamError>(StreamError::InvalidSeek) && *final(self) == *old(self),
            },
    {
        let len = self.data.len() as u64;
        let target: Option<u64> = match pos {
            SeekFrom::Start(n) => Some(n),
            SeekFrom::End(d) => offset_by(len, d),
            SeekFrom::Current(d) => offset_by(self.pos, d),
        };
        match target {
            Some(p) => {
                self.pos = p;
                Ok(p)
            },
            None => Err(StreamError::InvalidSeek),
        }
    }

    /// The current position.
    pub fn pos(&self) -> (r: u64)
        ensures
            r == self.cursor(),
    {
        self.pos
    }

    /// The number of bytes in the stream.
    pub fn len(&self) -> (r: u64)
        ensures
            r == self.content().len(),
    {
        self.data.len() as u64
    }

    /// The `size` bytes at the cursor, or `UnexpectedEof` when fewer remain.
    pub fn read_exact(&mut self, size: usize) -> (r: Result<Vec<u8>, StreamError>)
        ensures
            old(self).read_outcome(&*final(self), size as nat, r is Ok),
            r is Ok ==> r.unwrap()@ == old(self).window(size as nat),
            r is Err ==> r == Err::<Vec<u8>, StreamError>(StreamError::UnexpectedEof),
    {
        let len = self.data.len();
        if self.pos > len as u64 || size > len - self.pos as usize {
            return Err(StreamError::UnexpectedEof);
        }
        let start = self.pos as usize;
        let mut out: Vec<u8> = Vec::with_capacity(size);
        let mut i: usize = 0;
        while i < size
            invariant
                start + size <= len,
                len == self.data@.len(),
                i <= size,
                out@ == self.data@.subrange(start as int, start + i),
            decreases size - i,
        {
            out.push(self.data[start + i]);
            i = i + 1;
            assert(out@ =~= self.data@.subrange(start as int, start + i));
        }
        self.pos = (start + size) as u64;
        Ok(out)
    }

    /// Fills the whole of `buffer` from the stream.
    pub fn read_into(&mut self, buffer: &mut Vec<u8>) -> (r: Result<(), StreamError>)
        ensures
            old(self).read_outcome(&*final(self), old(buffer)@.len(), r is Ok),
            r is Ok ==> final(buffer)@ == old(self).window(old(buffer)@.len()),
            r is Err ==> r == Err::<(), StreamError>(StreamError::UnexpectedEof) && final(buffer)@
                == old(buffer)@,
    {
        let bytes = self.read_exact(buffer.len())?;
        *buffer = bytes;
        Ok(())
    }

    /// One byte.
    pub fn read_u8(&mut self) -> (r: Result<u8, StreamError>)
        ensures
            old(self).read_outcome(&*final(self), 1, r is Ok),
            r is Ok ==> r.unwrap() == old(self).window(1)[0],
            r is Err ==> r == Err::<u8, StreamError>(StreamError::UnexpectedEof),
    {
        let bytes = self.read_exact(1)?;
        Ok(bytes[0])
    }

    /// Two bytes as an integer in the stream's byte order.
    pub fn read_u16(&mut self) -> (r: Result<u16, StreamError>)
        ensures
            old(self).read_outcome(&*final(self), 2, r is Ok),
            r is Ok ==> r.unwrap() as nat == int_value(old(self).window(2), old(self).le_order()),
            r is Err ==> r == Err::<u16, StreamError>(StreamError::UnexpectedEof),
    {
        let bytes = self.read_exact(2)?;
        let v = reduce_to_int(&bytes, self.little_endian);
        proof {
            lemma_int_value_bound(bytes@, self.little_endian);
            reveal_with_fuel(pow256, 3);
            assert(pow256(2) == 0x1_0000);
        }
        Ok(v as u16)
    }

    /// Four bytes as an integer in the stream's byte order.
    pub fn read_u32(&mut self) -> (r: Result<u32, StreamError>)
        ensures
            old(self).read_outcome(&*final(self), 4, r is Ok),
            r is Ok ==> r.unwrap() as nat == int_value(old(self).window(4), old(self).le_order()),
            r is Err ==> r == Err::<u32, StreamError>(StreamError::UnexpectedEof),
    {
        let bytes = self.read_exact(4)?;
        let v = reduce_to_int(&bytes, self.little_endian);
        proof {
            lemma_int_value_bound(bytes@, self.little_endian);
            reveal_with_fuel(pow256, 5);
            assert(pow256(4) == 0x1_0000_0000);
        }
        Ok(v as u32)
    }

    /// Eight bytes as an integer in the stream's byte order.
    pub fn read_u64(&mut self) -> (r: Result<u64, StreamError>)
        ensures
            old(self).read_outcome(&*final(self), 8, r is Ok),
            r is Ok ==> r.unwrap() as nat == int_value(old(self).window(8), old(self).le_order()),
            r is Err ==> r == Err::<u64, StreamError>(StreamError::UnexpectedEof),
    {
        let bytes = self.read_exact(8)?;
        let v = reduce_to_int(&bytes, self.little_endian);
        Ok(v)
    }

    /// `len` UTF-16 code units, little-endian, decoded into a string. The
    /// bytes are consumed even when they are not well-formed UTF-16.
    pub fn read_utf16(&mut self, len: usize) -> (r: Result<String, StreamError>)
        ensures
            old(self).read_outcome(&*final(self), 2 * len as nat, r is Ok || r == Err::<String, StreamError>(StreamError::InvalidData)),
            !old(self).can_read(2 * len as nat) ==> r == Err::<String, StreamError>(StreamError::UnexpectedEof),
            old(self).can_read(2 * len as nat) ==> match decode_utf16(utf16_units(old(self).window(2 * len as nat))) {
                Some(c) => r is Ok && r.unwrap()@ == c,
                None => r == Err::<String, StreamError>(StreamError::InvalidData),
            },
    {
        let total = self.data.len();
        if len > total / 2 {
            return Err(StreamError::UnexpectedEof);
        }
        let bytes = self.read_exact(2 * len)?;
        let mut units: Vec<u16> = Vec::with_capacity(len);
        let mut i: usize = 0;
        while i < len
            invariant
                bytes@.len() == 2 * len,
                len <= usize::MAX / 2,
                i <= len,
                units@ == utf16_units(bytes@).take(i as int),
            decreases len - i,
        {
            units.push(bytes[2 * i] as u16 + (bytes[2 * i + 1] as u16) * 256);
            i = i + 1;
            assert(units@ =~= utf16_units(bytes@).take(i as int));
        }
        assert(units@ =~= utf16_units(bytes@));
        match string_from_utf16(units.as_slice()) {
            Some(s) => Ok(s),
            None => Err(StreamError::InvalidData),
        }
    }

    /// Reads one value of a fixed-width type.
    pub fn read<T: Readable>(&mut self) -> (r: Result<T::Out, StreamError>)
        ensures
            old(self).read_outcome(&*final(self), T::width(), r is Ok),
            r is Ok ==> r == Ok::<T::Out, StreamError>(
                T::decoded(old(self).window(T::width()), old(self).le_order()),
            ),
            r is Err ==> r == Err::<T::Out, StreamError>(StreamError::UnexpectedEof),
    {
        T::read_from(self)
    }

    /// Reads a value of `len` units.
    pub fn read_with_len<T: UnknownSizeReadable>(&mut self, len: usize) -> (r: Result<
        T::Out,
        StreamError,
    >)
        ensures
            !old(self).can_read(T::width(len as nat)) ==> r == Err::<T::Out, StreamError>(
                StreamError::UnexpectedEof,
            ) && *final(self) == *old(self),
            old(self).can_read(T::width(len as nat)) ==> {
                let bytes = old(self).window(T::width(len as nat));
                &&& old(self).moved_to(&*final(self), old(self).cursor() + T::width(len as nat))
                &&& T::accepts(bytes) ==> r is Ok && T::decodes_to(bytes, r.unwrap())
                &&& !T::accepts(bytes) ==> r == Err::<T::Out, StreamError>(StreamError::InvalidData)
            },
    {
        T::with_len(self, len)
    }
}

/// `base + delta`, when it lies in `0..=u64::MAX`.
fn offset_by(base: u64, delta: i64) -> (r: Option<u64>)
    ensures
        r == (if 0 <= base + delta <= u64::MAX {
            Some((base + delta) as u64)
        } else {
            None
        }),
{
    if delta >= 0 {
        base.checked_add(delta as u64)
    } else {
        let back: u64 = if delta == i64::MIN {
            0x8000_0000_0000_0000u64
        } else {
            (-delta) as u64
        };
        if back <= base {
            Some(base - back)
        } else {
            None
        }
    }
}

} // verus!
