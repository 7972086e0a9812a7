//! Finding where the XP3 header begins: at the start of the input, or on a
//! 16-byte boundary after a Win32 executable stub.
use vstd::prelude::*;

use crate::stream::{ReadStream, SeekFrom};

verus! {

/// The header mark "XP3\r\n \x1A\x8Bg\x01".
pub open spec fn magic() -> Seq<u8> {
    seq![0x58u8, 0x50, 0x33, 0x0d, 0x0a, 0x20, 0x0a, 0x1a, 0x8b, 0x67, 0x01]
}

pub open spec fn magic_at(d: Seq<u8>, off: int) -> bool {
    0 <= off && off + 11 <= d.len() && d.subrange(off, off + 11) == magic()
}

/// The first offset `off + 16k` that holds the header mark, as long as the
/// 11 bytes there lie inside `d`.
pub open spec fn scan_for_magic(d: Seq<u8>, off: nat) -> Option<nat>
    decreases d.len() + 16 - off,
{
    if off + 11 > d.len() {
        None
    } else if magic_at(d, off as int) {
        Some(off)
    } else {
        scan_for_magic(d, off + 16)
    }
}

/// Input that begins with "MZ" is an executable stub.
pub open spec fn is_pe_stub(d: Seq<u8>) -> bool {
    d.len() >= 2 && d[0] == 0x4d && d[1] == 0x5a
}

/// Where the archive begins in `d`, if it holds one.
pub open spec fn archive_start(d: Seq<u8>) -> Option<nat> {
    if d.len() < 11 {
        None
    } else if is_pe_stub(d) {
        scan_for_magic(d, 16)
    } else if magic_at(d, 0) {
        Some(0)
    } else {
        None
    }
}

/// What the scan finds is a header mark on the scan's 16-byte grid.
pub proof fn lemma_scan_found(d: Seq<u8>, off: nat)
    ensures
        scan_for_magic(d, off) matches Some(x) ==> magic_at(d, x as int) && x >= off && (x - off)
            % 16 == 0,
    decreases d.len() + 16 - off,
{
    if off + 11 <= d.len() && !magic_at(d, off as int) {
        lemma_scan_found(d, off + 16);
    }
}

/// Where an archive begins, its header mark stands, on a 16-byte boundary.
pub proof fn lemma_archive_start_found(d: Seq<u8>)
    ensures
        archive_start(d) matches Some(x) ==> magic_at(d, x as int) && x % 16 == 0,
{
    lemma_scan_found(d, 16);
}

/// The bytes are the header mark.
fn is_magic(b: &Vec<u8>) -> (r: bool)
    requires
        b@.len() == 11,
    ensures
        r == (b@ == magic()),
{
    let r = b[0] == 0x58 && b[1] == 0x50 && b[2] == 0x33 && b[3] == 0x0d && b[4] == 0x0a && b[5]
        == 0x20 && b[6] == 0x0a && b[7] == 0x1a && b[8] == 0x8b && b[9] == 0x67 && b[10] == 0x01;
    if r {
        assert(b@ =~= magic());
    } else {
        assert(b@ != magic()) by {
            if b@ == magic() {
                assert(b@[0] == magic()[0]);
            }
        }
    }
    r
}

/// Finds where the archive begins and leaves the cursor right after its
/// header mark; integers are read little-endian from then on.
pub fn find_start_offset(stream: &mut ReadStream) -> (r: Option<u64>)
    ensures
        r == (match archive_start(old(stream).content()) {
            Some(off) => Some(off as u64),
            None => None::<u64>,
        }),
        final(stream).content() == old(stream).content(),
        final(stream).le_order(),
        r is Some ==> final(stream).cursor() == r.unwrap() + 11,
{
    let ghost d = stream.content();
    stream.little_endian(true);
    let _ = stream.seek(SeekFrom::Start(0));
    let first = match stream.read_exact(11) {
        Ok(x) => x,
        Err(_) => {
            return None;
        },
    };
    assert(first@ =~= d.subrange(0, 11));
    if first[0] == 0x4d && first[1] == 0x5a {
        let len = stream.len();
        let mut offset: u64 = 16;
        while offset <= len && len - offset >= 11
            invariant
                stream.content() == d,
                old(stream).content() == d,
                stream.le_order(),
                len == d.len(),
                offset % 16 == 0,
                archive_start(d) == scan_for_magic(d, 16),
                scan_for_magic(d, 16) == scan_for_magic(d, offset as nat),
            decreases len + 16 - offset,
        {
            let _ = stream.seek(SeekFrom::Start(offset));
            let window = match stream.read_exact(11) {
                Ok(x) => x,
                Err(_) => {
                    return None;
                },
            };
            assert(window@ =~= d.subrange(offset as int, offset + 11));
            if is_magic(&window) {
                assert(magic_at(d, offset as int));
                assert(scan_for_magic(d, offset as nat) == Some(offset as nat));
                return Some(offset);
            }
            assert(!magic_at(d, offset as int));
            assert(scan_for_magic(d, offset as nat) == scan_for_magic(d, (offset + 16) as nat));
            if offset > u64::MAX - 16 {
                assert(scan_for_magic(d, (offset + 16) as nat) == None::<nat>);
                return None;
            }
            offset = offset + 16;
        }
        None
    } else if !is_magic(&first) {
        None
    } else {
        Some(0)
    }
}

} // verus!
