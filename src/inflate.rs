//! zlib inflation of stored bytes into a buffer of a declared length.
use vstd::prelude::*;

use crate::archive::Xp3Error;

verus! {

/// What zlib decoding makes of `compressed`: the decoded bytes, or `None`
/// where the stream is corrupt or incomplete.
pub uninterp spec fn zlib_inflated(compressed: Seq<u8>) -> Option<Seq<u8>>;

/// Relies on `flate2::read::ZlibDecoder` read to its end: it decodes one zlib
/// stream and fails on a corrupt or incomplete one. The outcome depends on the
/// bytes alone.
#[verifier::external_body]
fn zlib_decode(compressed: &[u8]) -> (r: Option<Vec<u8>>)
    ensures
        match zlib_inflated(compressed@) {
            Some(b) => r is Some && r.unwrap()@ == b,
            None => r is None,
        },
{
    let mut out: Vec<u8> = Vec::new();
    let mut decoder = flate2::read::ZlibDecoder::new(compressed);
    match std::io::Read::read_to_end(&mut decoder, &mut out) {
        Ok(_) => Some(out),
        Err(_) => None,
    }
}

/// The bytes of an inflated buffer that was declared `expected` bytes long.
pub open spec fn inflate_outcome(decoded: Option<Seq<u8>>, expected: nat) -> Result<Seq<u8>, Xp3Error> {
    match decoded {
        Some(b) => if b.len() == expected {
            Ok(b)
        } else {
            Err(Xp3Error::InflateFailure)
        },
        None => Err(Xp3Error::InflateFailure),
    }
}

/// Accepts what a decoder produced when it has exactly the declared length.
pub fn accept_inflated(decoded: Option<Vec<u8>>, expected: u64) -> (r: Result<Vec<u8>, Xp3Error>)
    ensures
        match inflate_outcome(
            match decoded {
                Some(v) => Some(v@),
                None => None,
            },
            expected as nat,
        ) {
            Ok(b) => r is Ok && r.unwrap()@ == b,
            Err(e) => r == Err::<Vec<u8>, Xp3Error>(e),
        },
{
    match decoded {
        Some(v) => if v.len() as u64 == expected {
            Ok(v)
        } else {
            Err(Xp3Error::InflateFailure)
        },
        None => Err(Xp3Error::InflateFailure),
    }
}

/// Inflates `compressed` into exactly `original_size` bytes.
pub fn inflate_exact(compressed: &Vec<u8>, original_size: u64) -> (r: Result<Vec<u8>, Xp3Error>)
    ensures
        match inflate_outcome(zlib_inflated(compressed@), original_size as nat) {
            Ok(b) => r is Ok && r.unwrap()@ == b,
            Err(e) => r == Err::<Vec<u8>, Xp3Error>(e),
        },
{
    let decoded = zlib_decode(compressed.as_slice());
    accept_inflated(decoded, original_size)
}

} // verus!
