//! Values that a stream can read: fixed-width integers, and strings whose
//! length is given in code units.
use vstd::prelude::*;

use crate::stream::{int_value, lemma_int_value_bound, pow256, ReadStream, StreamError};
use crate::text::{decode_utf16, utf16_units};

verus! {

/// A value of fixed width that a stream can read.
pub trait Readable {
    type Out;

    /// The number of bytes a value takes.
    spec fn width() -> nat;

    /// The value that `bytes` hold in the given byte order.
    spec fn decoded(bytes: Seq<u8>, little_endian: bool) -> Self::Out;

    fn read_from(stream: &mut ReadStream) -> (r: Result<Self::Out, StreamError>)
        ensures
            old(stream).read_outcome(&*final(stream), Self::width(), r is Ok),
            r is Ok ==> r == Ok::<Self::Out, StreamError>(
                Self::decoded(old(stream).window(Self::width()), old(stream).le_order()),
            ),
            r is Err ==> r == Err::<Self::Out, StreamError>(StreamError::UnexpectedEof),
    ;
}

/// A value whose length the caller gives, counted in units of its own, and
/// whose bytes may be malformed.
pub trait UnknownSizeReadable {
    type Out;

    /// The number of bytes that `len` units take.
    spec fn width(len: nat) -> nat;

    /// `bytes` form a value.
    spec fn accepts(bytes: Seq<u8>) -> bool;

    /// `out` is the value that `bytes` form.
    spec fn decodes_to(bytes: Seq<u8>, out: Self::Out) -> bool;

    /// Reads `len` units; malformed bytes are consumed and give `InvalidData`.
    fn with_len(stream: &mut ReadStream, len: usize) -> (r: Result<Self::Out, StreamError>)
        ensures
            !old(stream).can_read(Self::width(len as nat)) ==> r == Err::<Self::Out, StreamError>(
                StreamError::UnexpectedEof,
            ) && *final(stream) == *old(stream),
            old(stream).can_read(Self::width(len as nat)) ==> {
                let bytes = old(stream).window(Self::width(len as nat));
                &&& old(stream).moved_to(&*final(stream), old(stream).cursor() + Self::width(len as nat))
                &&& Self::accepts(bytes) ==> r is Ok && Self::decodes_to(bytes, r.unwrap())
                &&& !Self::accepts(bytes) ==> r == Err::<Self::Out, StreamError>(StreamError::InvalidData)
            },
    ;
}

impl Readable for u8 {
    type Out = u8;

    open spec fn width() -> nat {
        1
    }

    open spec fn decoded(bytes: Seq<u8>, little_endian: bool) -> u8 {
        bytes[0]
    }

    fn read_from(stream: &mut ReadStream) -> (r: Result<u8, StreamError>) {
        stream.read_u8()
    }
}

impl Readable for u16 {
    type Out = u16;

    open spec fn width() -> nat {
        2
    }

    open spec fn decoded(bytes: Seq<u8>, little_endian: bool) -> u16 {
        int_value(bytes, little_endian) as u16
    }

    fn read_from(stream: &mut ReadStream) -> (r: Result<u16, StreamError>) {
        let ghost w = stream.window(2);
        let ghost le = stream.le_order();
        proof {
            lemma_int_value_bound(w, le);
            reveal_with_fuel(pow256, 3);
        }
        stream.read_u16()
    }
}

impl Readable for u32 {
    type Out = u32;

    open spec fn width() -> nat {
        4
    }

    open spec fn decoded(bytes: Seq<u8>, little_endian: bool) -> u32 {
        int_value(bytes, little_endian) as u32
    }

    fn read_from(stream: &mut ReadStream) -> (r: Result<u32, StreamError>) {
        let ghost w = stream.window(4);
        let ghost le = stream.le_order();
        proof {
            lemma_int_value_bound(w, le);
            reveal_with_fuel(pow256, 5);
        }
        stream.read_u32()
    }
}

impl Readable for u64 {
    type Out = u64;

    open spec fn width() -> nat {
        8
    }

    open spec fn decoded(bytes: Seq<u8>, little_endian: bool) -> u64 {
        int_value(bytes, little_endian) as u64
    }

    fn read_from(stream: &mut ReadStream) -> (r: Result<u64, StreamError>) {
        let ghost w = stream.window(8);
        let ghost le = stream.le_order();
        proof {
            lemma_int_value_bound(w, le);
            reveal_with_fuel(pow256, 9);
        }
        stream.read_u64()
    }
}

/// A string of UTF-16 code units stored little-endian.
pub struct UTF16LE;

impl UnknownSizeReadable for UTF16LE {
    type Out = String;

    open spec fn width(len: nat) -> nat {
        2 * len
    }

    open spec fn accepts(bytes: Seq<u8>) -> bool {
        decode_utf16(utf16_units(bytes)) is Some
    }

    open spec fn decodes_to(bytes: Seq<u8>, out: String) -> bool {
        decode_utf16(utf16_units(bytes)) == Some(out@)
    }

    fn with_len(stream: &mut ReadStream, len: usize) -> (r: Result<String, StreamError>) {
        stream.read_utf16(len)
    }
}

} // verus!
