//! The linked indexes of an archive: each entry holds one index body, raw or
//! zlib-compressed, and a flag that tells whether another entry follows.
use vstd::prelude::*;

use crate::archive::{ArchiveItem, ItemView, Xp3Error, Xp3Warning};
use crate::chunk::{le_at, scan_entry, scan_index, views};
use crate::inflate::{inflate_exact, inflate_outcome, zlib_inflated};
use crate::locate::{archive_start, find_start_offset, lemma_archive_start_found};
use crate::stream::{ReadStream, SeekFrom};

verus! {

/// The low three bits of a flag select the encoding: 1 is zlib, 0 is raw.
pub const ENCODING_MASK: u8 = 0x07;

/// An index entry with this bit set is followed by another.
pub const CONTINUE_MASK: u8 = 0x80;

/// One index entry: its body, its flag, and the position right after it,
/// where the offset of the next entry is stored.
pub struct IndexEntry {
    pub body: Seq<u8>,
    pub flag: u8,
    pub next: nat,
}

/// The entry whose offset, relative to the archive start `base`, is stored at
/// `pos`. The offset is added to `base` modulo 2^64.
pub open spec fn entry_at(d: Seq<u8>, base: u64, pos: nat) -> Result<IndexEntry, Xp3Error> {
    if pos + 8 > d.len() {
        Err(Xp3Error::Truncated)
    } else {
        let at = (le_at(d, pos as int, 8) as u64).wrapping_add(base) as int;
        if at + 1 > d.len() {
            Err(Xp3Error::Truncated)
        } else {
            let flag = d[at];
            if flag % 8 == 1 {
                if at + 17 > d.len() {
                    Err(Xp3Error::Truncated)
                } else {
                    let stored = le_at(d, at + 1, 8);
                    let original = le_at(d, at + 9, 8);
                    if at + 17 + stored > d.len() {
                        Err(Xp3Error::Truncated)
                    } else {
                        match inflate_outcome(
                            zlib_inflated(d.subrange(at + 17, at + 17 + stored)),
                            original,
                        ) {
                            Ok(body) => Ok(
                                IndexEntry { body, flag, next: (at + 17 + stored) as nat },
                            ),
                            Err(e) => Err(e),
                        }
                    }
                }
            } else if flag % 8 == 0 {
                if at + 9 > d.len() {
                    Err(Xp3Error::Truncated)
                } else {
                    let size = le_at(d, at + 1, 8);
                    if at + 9 + size > d.len() {
                        Err(Xp3Error::Truncated)
                    } else {
                        Ok(
                            IndexEntry {
                                body: d.subrange(at + 9, at + 9 + size),
                                flag,
                                next: (at + 9 + size) as nat,
                            },
                        )
                    }
                }
            } else {
                Err(Xp3Error::BadEntryFlag)
            }
        }
    }
}

proof fn lemma_flag_bits(x: u8)
    ensures
        x & 7 == x % 8,
        (x & 0x80 == 0) == (x < 0x80),
{
    assert(x & 7 == x % 8) by (bit_vector);
    assert((x & 0x80 == 0) == (x < 0x80)) by (bit_vector);
}

/// Reads the entry whose offset is stored at the cursor, and leaves the
/// cursor after that entry.
pub fn find_entry_data(stream: &mut ReadStream, start_offset: u64) -> (r: Result<
    (ReadStream, u8),
    Xp3Error,
>)
    requires
        old(stream).le_order(),
    ensures
        final(stream).content() == old(stream).content(),
        final(stream).le_order(),
        match entry_at(old(stream).content(), start_offset, old(stream).cursor()) {
            Ok(e) => r is Ok && {
                let (data, flag) = r.unwrap();
                &&& data.content() == e.body
                &&& data.cursor() == 0
                &&& data.le_order()
                &&& flag == e.flag
                &&& final(stream).cursor() == e.next
            },
            Err(e) => r is Err && r->Err_0 == e,
        },
{
    let ghost d = stream.content();
    let stored_offset = match stream.read_u64() {
        Ok(x) => x,
        Err(_) => {
            return Err(Xp3Error::Truncated);
        },
    };
    let entry_offset = stored_offset.wrapping_add(start_offset);
    let _ = stream.seek(SeekFrom::Start(entry_offset));
    let entry_flag = match stream.read_u8() {
        Ok(x) => x,
        Err(_) => {
            return Err(Xp3Error::Truncated);
        },
    };
    proof {
        lemma_flag_bits(entry_flag);
        stream.lemma_content_fits();
    }
    let entry_data = if entry_flag & ENCODING_MASK == 1 {
        let enc_size = match stream.read_u64() {
            Ok(x) => x,
            Err(_) => {
                return Err(Xp3Error::Truncated);
            },
        };
        let real_size = match stream.read_u64() {
            Ok(x) => x,
            Err(_) => {
                return Err(Xp3Error::Truncated);
            },
        };
        if enc_size > usize::MAX as u64 {
            return Err(Xp3Error::Truncated);
        }
        let compressed = match stream.read_exact(enc_size as usize) {
            Ok(x) => x,
            Err(_) => {
                return Err(Xp3Error::Truncated);
            },
        };
        inflate_exact(&compressed, real_size)?
    } else if entry_flag & ENCODING_MASK == 0 {
        let index_size = match stream.read_u64() {
            Ok(x) => x,
            Err(_) => {
                return Err(Xp3Error::Truncated);
            },
        };
        if index_size > usize::MAX as u64 {
            return Err(Xp3Error::Truncated);
        }
        match stream.read_exact(index_size as usize) {
            Ok(x) => x,
            Err(_) => {
                return Err(Xp3Error::Truncated);
            },
        }
    } else {
        return Err(Xp3Error::BadEntryFlag);
    };
    Ok((ReadStream::new(entry_data, true), entry_flag))
}

/// Follows the chain of entries from the offset stored at `pos`, at most
/// `fuel` entries long, scanning each body after the items and warnings so
/// far. The chain ends after an entry without the continuation bit, or after
/// an oversized chunk.
pub open spec fn chain_from(
    d: Seq<u8>,
    base: u64,
    pos: nat,
    fuel: nat,
    items: Seq<ItemView>,
    ws: Seq<Xp3Warning>,
) -> Result<(Seq<ItemView>, Seq<Xp3Warning>), Xp3Error>
    decreases fuel,
{
    if fuel == 0 {
        Err(Xp3Error::EndlessIndexChain)
    } else {
        match entry_at(d, base, pos) {
            Err(e) => Err(e),
            Ok(entry) => match scan_index(entry.body, 0, base, items, ws) {
                Err(e) => Err(e),
                Ok((its, ws2, stopped)) => if stopped || entry.flag < 0x80 {
                    Ok((its, ws2))
                } else {
                    chain_from(d, base, entry.next, (fuel - 1) as nat, its, ws2)
                },
            },
        }
    }
}

/// The items of the archive in `d`, in the order of its indexes, and the
/// warnings met while reading them. Input that holds no archive has none.
/// The first entry's offset follows the header mark; a chain longer than
/// `d` has bytes must revisit an entry, and is rejected.
pub open spec fn archive_listing(d: Seq<u8>) -> Result<(Seq<ItemView>, Seq<Xp3Warning>), Xp3Error> {
    match archive_start(d) {
        None => Ok((Seq::empty(), Seq::empty())),
        Some(base) => chain_from(
            d,
            base as u64,
            base + 11,
            d.len() + 1,
            Seq::empty(),
            Seq::empty(),
        ),
    }
}

/// Reads every item that the archive's indexes list, in index order.
pub fn load_items(stream: &mut ReadStream) -> (r: Result<
    (Vec<ArchiveItem>, Vec<Xp3Warning>),
    Xp3Error,
>)
    ensures
        final(stream).content() == old(stream).content(),
        match archive_listing(old(stream).content()) {
            Ok((its, ws)) => r is Ok && views(r.unwrap().0@) == its && r.unwrap().1@ == ws,
            Err(e) => r is Err && r->Err_0 == e,
        },
{
    let ghost d = stream.content();
    let mut items: Vec<ArchiveItem> = Vec::new();
    let mut warnings: Vec<Xp3Warning> = Vec::new();
    let start_offset = match find_start_offset(stream) {
        Some(x) => x,
        None => {
            assert(views(items@) =~= Seq::<ItemView>::empty());
            return Ok((items, warnings));
        },
    };
    proof {
        lemma_archive_start_found(d);
        stream.lemma_content_fits();
    }
    let mut remaining: u128 = stream.len() as u128 + 1;
    assert(views(items@) =~= Seq::<ItemView>::empty());
    assert(warnings@ =~= Seq::<Xp3Warning>::empty());
    loop
        invariant
            stream.content() == d,
            old(stream).content() == d,
            stream.le_order(),
            archive_listing(d) == chain_from(
                d,
                start_offset,
                stream.cursor(),
                remaining as nat,
                views(items@),
                warnings@,
            ),
        decreases remaining,
    {
        if remaining == 0 {
            return Err(Xp3Error::EndlessIndexChain);
        }
        let (mut entry_data, entry_flag) = find_entry_data(stream, start_offset)?;
        let stopped = scan_entry(&mut entry_data, start_offset, &mut items, &mut warnings)?;
        proof {
            lemma_flag_bits(entry_flag);
        }
        if stopped || entry_flag & CONTINUE_MASK == 0 {
            return Ok((items, warnings));
        }
        remaining = remaining - 1;
    }
}

} // verus!
