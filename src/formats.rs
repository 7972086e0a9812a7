//! The container formats this library can take apart.
use vstd::prelude::*;

use crate::archive::{Extraction, Xp3Error};
use crate::extract::{extraction_of, file_views, flare, listed_in_start_order};
use crate::locate::{archive_start, find_start_offset};
use crate::stream::ReadStream;

verus! {

/// A recognised container format.
#[derive(Debug, Clone, Copy, PartialEq, Eq, Structural)]
pub enum Format {
    XP3Archive,
}

/// The XP3 archive format of the Kirikiri engine.
pub struct XP3Archive {}

impl XP3Archive {
    /// The stream holds an XP3 archive, at its start or after an executable
    /// stub.
    pub fn is_correct_format(stream: &mut ReadStream) -> (r: bool)
        ensures
            r == archive_start(old(stream).content()) is Some,
            final(stream).content() == old(stream).content(),
    {
        find_start_offset(stream).is_some()
    }

    pub fn new() -> XP3Archive {
        XP3Archive {  }
    }

    /// Extracts every logical file of the archive that the stream holds.
    pub fn flare(&mut self, stream: &mut ReadStream) -> (r: Result<Extraction, Xp3Error>)
        ensures
            exists|order: Seq<int>|
                {
                    &&& listed_in_start_order(old(stream).content(), order)
                    &&& match extraction_of(old(stream).content(), order) {
                        Ok((fs, ws)) => r is Ok && file_views(r.unwrap().files@) == fs
                            && r.unwrap().warnings@ == ws,
                        Err(e) => r is Err && r->Err_0 == e,
                    }
                },
    {
        flare(stream)
    }
}

/// The formats that the stream holds; empty when none is supported.
pub fn guess_format(stream: &mut ReadStream) -> (r: Vec<Format>)
    ensures
        r@ == (if archive_start(old(stream).content()) is Some {
            seq![Format::XP3Archive]
        } else {
            Seq::empty()
        }),
        final(stream).content() == old(stream).content(),
{
    let mut formats: Vec<Format> = Vec::new();
    if XP3Archive::is_correct_format(stream) {
        formats.push(Format::XP3Archive);
    }
    assert(formats@ =~= (if archive_start(old(stream).content()) is Some {
        seq![Format::XP3Archive]
    } else {
        Seq::empty()
    }));
    formats
}

} // verus!
