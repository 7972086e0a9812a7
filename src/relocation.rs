//! An archive placed after an executable stub extracts to the same files as
//! the bare archive.
use vstd::prelude::*;

use crate::archive::{ArchiveSegment, ItemView, Xp3Error, Xp3Warning};
use crate::chunk::{
    chunk_at, file_scan, initial_pending, kind_of, le_at, scan_file, scan_index,
    segment_at, segments_from, segments_of, ChunkAt, ChunkKind, FileEnd, Pending,
};
use crate::extract::{
    contents_from, extraction_of, files_in_order, first_start, is_start_order, item_contents,
    listed_in_start_order, segment_payload, write_at,
};
use crate::index::{archive_listing, chain_from, entry_at};
use crate::laws::{law_embedded_start, law_listed_items_segments};
use crate::locate::{archive_start, magic_at};

verus! {

/// A segment whose start lies `k` bytes further on.
pub open spec fn shift_segment(s: ArchiveSegment, k: u64) -> ArchiveSegment {
    ArchiveSegment { start: s.start.wrapping_add(k), ..s }
}

pub open spec fn shift_segments(segs: Seq<ArchiveSegment>, k: u64) -> Seq<ArchiveSegment> {
    segs.map_values(|s: ArchiveSegment| shift_segment(s, k))
}

pub open spec fn shift_item(it: ItemView, k: u64) -> ItemView {
    ItemView { segments: shift_segments(it.segments, k), ..it }
}

pub open spec fn shift_items(items: Seq<ItemView>, k: u64) -> Seq<ItemView> {
    items.map_values(|it: ItemView| shift_item(it, k))
}

pub open spec fn shift_pending(st: Pending, k: u64) -> Pending {
    Pending { item: shift_item(st.item, k), ..st }
}

pub open spec fn shift_end(e: FileEnd, k: u64) -> FileEnd {
    match e {
        FileEnd::Complete(it) => FileEnd::Complete(shift_item(it, k)),
        FileEnd::Incomplete => FileEnd::Incomplete,
        FileEnd::Oversized => FileEnd::Oversized,
    }
}

pub open spec fn shift_file_result(
    r: Result<(FileEnd, Seq<Xp3Warning>), Xp3Error>,
    k: u64,
) -> Result<(FileEnd, Seq<Xp3Warning>), Xp3Error> {
    match r {
        Ok((e, ws)) => Ok((shift_end(e, k), ws)),
        Err(e) => Err(e),
    }
}

pub open spec fn shift_scan_result(
    r: Result<(Seq<ItemView>, Seq<Xp3Warning>, bool), Xp3Error>,
    k: u64,
) -> Result<(Seq<ItemView>, Seq<Xp3Warning>, bool), Xp3Error> {
    match r {
        Ok((its, ws, stopped)) => Ok((shift_items(its, k), ws, stopped)),
        Err(e) => Err(e),
    }
}

proof fn lemma_segments_shift(
    body: Seq<u8>,
    k: u64,
    i: nat,
    offset: nat,
    acc: Seq<ArchiveSegment>,
)
    ensures
        segments_from(body, k, i, offset, shift_segments(acc, k)) == match segments_from(
            body,
            0,
            i,
            offset,
            acc,
        ) {
            Ok(s) => Ok::<Seq<ArchiveSegment>, Xp3Error>(shift_segments(s, k)),
            Err(e) => Err(e),
        },
    decreases body.len() / 28 - i,
{
    if i < body.len() / 28 {
        let seg = segment_at(body, 0, i, offset);
        let x = le_at(body, 28 * i + 4int, 8) as u64;
        assert(x.wrapping_add(0) == x);
        assert(segment_at(body, k, i, offset) == shift_segment(seg, k));
        assert(shift_segments(acc, k).push(shift_segment(seg, k)) =~= shift_segments(
            acc.push(seg),
            k,
        ));
        lemma_segments_shift(body, k, i + 1, offset + le_at(body, 28 * i + 12int, 8), acc.push(seg));
    }
}

proof fn lemma_scan_file_shift(
    b: Seq<u8>,
    p: nat,
    k: u64,
    count: nat,
    st: Pending,
    ws: Seq<Xp3Warning>,
)
    ensures
        scan_file(b, p, k, count, shift_pending(st, k), ws) == shift_file_result(
            scan_file(b, p, 0, count, st, ws),
            k,
        ),
    decreases count,
{
    if count > 0 {
        if let ChunkAt::Found { tag, body, next } = chunk_at(b, p) {
            match kind_of(tag) {
                Some(ChunkKind::Info) => {
                    if let Ok(info) = crate::chunk::info_of(body) {
                        let st2 = Pending {
                            item: ItemView {
                                name: info.name,
                                original_size: info.original_size,
                                archive_size: info.archive_size,
                                ..st.item
                            },
                            has_info: true,
                            ..st
                        };
                        let ws2 = if crate::chunk::is_protected(info.flags) {
                            ws.push(Xp3Warning::Protected)
                        } else {
                            ws
                        };
                        lemma_scan_file_shift(b, next, k, (count - 1) as nat, st2, ws2);
                    }
                },
                Some(ChunkKind::Segment) => {
                    lemma_segments_shift(body, k, 0, 0, Seq::empty());
                    assert(shift_segments(Seq::empty(), k) =~= Seq::<ArchiveSegment>::empty());
                    if let Ok(segs) = segments_of(body, 0) {
                        let st2 = Pending {
                            item: ItemView { segments: segs, ..st.item },
                            has_segments: true,
                            ..st
                        };
                        let ws2 = if body.len() % 28 != 0 {
                            ws.push(Xp3Warning::SegmentSizeNotMultiple)
                        } else {
                            ws
                        };
                        lemma_scan_file_shift(b, next, k, (count - 1) as nat, st2, ws2);
                    }
                },
                Some(ChunkKind::Adlr) => {
                    if body.len() >= 4 {
                        let st2 = Pending {
                            item: ItemView { file_hash: le_at(body, 0, 4) as u32, ..st.item },
                            has_hash: true,
                            ..st
                        };
                        lemma_scan_file_shift(b, next, k, (count - 1) as nat, st2, ws);
                    }
                },
                _ => {},
            }
        }
    }
}

proof fn lemma_file_scan_shift(body: Seq<u8>, k: u64, ws: Seq<Xp3Warning>)
    ensures
        file_scan(body, k, ws) == shift_file_result(file_scan(body, 0, ws), k),
{
    assert(shift_pending(initial_pending(), k) =~= initial_pending()) by {
        assert(shift_segments(Seq::empty(), k) =~= Seq::<ArchiveSegment>::empty());
    }
    lemma_scan_file_shift(body, 0, k, 3, initial_pending(), ws);
}

proof fn lemma_scan_index_rebase(
    b: Seq<u8>,
    p: nat,
    k: u64,
    items: Seq<ItemView>,
    ws: Seq<Xp3Warning>,
)
    ensures
        scan_index(b, p, k, shift_items(items, k), ws) == shift_scan_result(
            scan_index(b, p, 0, items, ws),
            k,
        ),
    decreases b.len() - p,
{
    if let ChunkAt::Found { tag, body, next } = chunk_at(b, p) {
        if kind_of(tag) == Some(ChunkKind::File) {
            lemma_file_scan_shift(body, k, ws);
            match file_scan(body, 0, ws) {
                Ok((FileEnd::Complete(it), ws2)) => {
                    assert(shift_items(items, k).push(shift_item(it, k)) =~= shift_items(
                        items.push(it),
                        k,
                    ));
                    lemma_scan_index_rebase(b, next, k, items.push(it), ws2);
                },
                Ok((FileEnd::Incomplete, ws2)) => {
                    lemma_scan_index_rebase(
                        b,
                        next,
                        k,
                        items,
                        ws2.push(Xp3Warning::MissingSubChunk),
                    );
                },
                _ => {},
            }
        }
    }
}

proof fn lemma_entry_shift(prefix: Seq<u8>, a: Seq<u8>, pos: nat)
    requires
        prefix.len() + a.len() <= u64::MAX,
        entry_at(a, 0, pos) is Ok,
    ensures
        entry_at(prefix + a, prefix.len() as u64, prefix.len() + pos) matches Ok(e2) && {
            let e = entry_at(a, 0, pos)->Ok_0;
            &&& e2.body == e.body
            &&& e2.flag == e.flag
            &&& e2.next == prefix.len() + e.next
        },
{
    let d = prefix + a;
    let kk = prefix.len() as int;
    let k = prefix.len() as u64;
    let q = kk + pos;
    assert(d.subrange(q, q + 8) =~= a.subrange(pos as int, pos + 8int));
    let x = le_at(a, pos as int, 8) as u64;
    assert(x.wrapping_add(0) == x);
    let at = x as int;
    assert(x.wrapping_add(k) as int == at + kk);
    let at2 = at + kk;
    assert(d[at2] == a[at]);
    if a[at] % 8 == 1 {
        assert(d.subrange(at2 + 1, at2 + 9) =~= a.subrange(at + 1, at + 9));
        assert(d.subrange(at2 + 9, at2 + 17) =~= a.subrange(at + 9, at + 17));
        let stored = le_at(a, at + 1, 8) as int;
        assert(d.subrange(at2 + 17, at2 + 17 + stored) =~= a.subrange(at + 17, at + 17 + stored));
    } else {
        assert(d.subrange(at2 + 1, at2 + 9) =~= a.subrange(at + 1, at + 9));
        let size = le_at(a, at + 1, 8) as int;
        assert(d.subrange(at2 + 9, at2 + 9 + size) =~= a.subrange(at + 9, at + 9 + size));
    }
}

proof fn lemma_chain_shift(
    prefix: Seq<u8>,
    a: Seq<u8>,
    pos: nat,
    f: nat,
    f2: nat,
    items: Seq<ItemView>,
    ws: Seq<Xp3Warning>,
)
    requires
        prefix.len() + a.len() <= u64::MAX,
        f <= f2,
        chain_from(a, 0, pos, f, items, ws) is Ok,
    ensures
        chain_from(a, 0, pos, f, items, ws) matches Ok((its, ws2)) && chain_from(
            prefix + a,
            prefix.len() as u64,
            prefix.len() + pos,
            f2,
            shift_items(items, prefix.len() as u64),
            ws,
        ) == Ok::<(Seq<ItemView>, Seq<Xp3Warning>), Xp3Error>(
            (shift_items(its, prefix.len() as u64), ws2),
        ),
    decreases f,
{
    let k = prefix.len() as u64;
    lemma_entry_shift(prefix, a, pos);
    let e = entry_at(a, 0, pos)->Ok_0;
    lemma_scan_index_rebase(e.body, 0, k, items, ws);
    if let Ok((its, ws2, stopped)) = scan_index(e.body, 0, 0, items, ws) {
        if !(stopped || e.flag < 0x80) {
            lemma_chain_shift(prefix, a, e.next, (f - 1) as nat, (f2 - 1) as nat, its, ws2);
        }
    }
}

proof fn lemma_contents_shift(prefix: Seq<u8>, a: Seq<u8>, segs: Seq<ArchiveSegment>, i: nat, file: Seq<u8>)
    requires
        prefix.len() + a.len() <= u64::MAX,
        contents_from(a, segs, i, file) is Ok,
    ensures
        contents_from(prefix + a, shift_segments(segs, prefix.len() as u64), i, file) == contents_from(
            a,
            segs,
            i,
            file,
        ),
        forall|j: int| i <= j < segs.len() ==> segment_payload(a, #[trigger] segs[j]) is Ok,
    decreases segs.len() - i,
{
    if i < segs.len() {
        let d = prefix + a;
        let kk = prefix.len() as int;
        let seg = segs[i as int];
        let seg2 = shift_segment(seg, prefix.len() as u64);
        assert(shift_segments(segs, prefix.len() as u64)[i as int] == seg2);
        let size = if seg.compressed {
            seg.archive_size
        } else {
            seg.original_size
        };
        assert(seg.start + size <= a.len());
        assert(seg2.start == seg.start + kk);
        assert(d.subrange(seg2.start as int, seg2.start + size) =~= a.subrange(
            seg.start as int,
            seg.start + size,
        ));
        assert(segment_payload(d, seg2) == segment_payload(a, seg));
        let p = segment_payload(a, seg)->Ok_0;
        lemma_contents_shift(prefix, a, segs, i + 1, write_at(file, seg.offset as nat, p));
    }
}

proof fn lemma_files_shift(
    prefix: Seq<u8>,
    a: Seq<u8>,
    items: Seq<ItemView>,
    order: Seq<int>,
    j: nat,
    acc: Seq<(Seq<char>, Seq<u8>)>,
)
    requires
        prefix.len() + a.len() <= u64::MAX,
        forall|t: int| 0 <= t < order.len() ==> 0 <= #[trigger] order[t] < items.len(),
        files_in_order(a, items, order, j, acc) is Ok,
    ensures
        files_in_order(prefix + a, shift_items(items, prefix.len() as u64), order, j, acc)
            == files_in_order(a, items, order, j, acc),
        forall|t: int|
            j <= t < order.len() ==> item_contents(a, items[#[trigger] order[t]].segments) is Ok,
    decreases order.len() - j,
{
    if j < order.len() {
        let it = items[order[j as int]];
        assert(shift_items(items, prefix.len() as u64)[order[j as int]] == shift_item(
            it,
            prefix.len() as u64,
        ));
        lemma_contents_shift(prefix, a, it.segments, 0, Seq::empty());
        let c = item_contents(a, it.segments)->Ok_0;
        lemma_files_shift(prefix, a, items, order, j + 1, acc.push((it.name, c)));
    }
}

/// Prepending an executable stub of `16k` bytes that begins with "MZ" and
/// holds no header mark on its 16-byte grid to an archive that extracts
/// without error yields the same files, in the same order, with the same
/// warnings.
pub proof fn law_embedded_archive(prefix: Seq<u8>, archive: Seq<u8>, k: nat, order: Seq<int>)
    requires
        k >= 1,
        prefix.len() == 16 * k,
        prefix[0] == 0x4d,
        prefix[1] == 0x5a,
        forall|i: int| 1 <= i < k ==> !magic_at(prefix, #[trigger] (16 * i)),
        archive_start(archive) == Some(0nat),
        prefix.len() + archive.len() <= u64::MAX,
        listed_in_start_order(archive, order),
        extraction_of(archive, order) is Ok,
    ensures
        listed_in_start_order(prefix + archive, order),
        extraction_of(prefix + archive, order) == extraction_of(archive, order),
{
    let d = prefix + archive;
    let kk = prefix.len() as u64;
    law_embedded_start(prefix, archive, k);
    assert(archive_listing(archive) is Ok);
    let (its, ws) = archive_listing(archive)->Ok_0;
    assert(shift_items(Seq::empty(), kk) =~= Seq::<ItemView>::empty());
    lemma_chain_shift(prefix, archive, 11, archive.len() + 1, d.len() + 1, Seq::empty(), Seq::empty());
    assert(archive_listing(d) == Ok::<(Seq<ItemView>, Seq<Xp3Warning>), Xp3Error>(
        (shift_items(its, kk), ws),
    ));
    assert(is_start_order(its, order));
    lemma_files_shift(prefix, archive, its, order, 0, Seq::empty());
    law_listed_items_segments(archive);
    crate::laws::lemma_start_order_covers(its, order);
    let sits = shift_items(its, kk);
    assert forall|i: int| 0 <= i < its.len() implies first_start(#[trigger] sits[i]) == first_start(its[i]) + kk by {
        assert(order.contains(i));
        let t = choose|t: int| 0 <= t < order.len() && order[t] == i;
        assert(item_contents(archive, its[order[t]].segments) is Ok);
        lemma_contents_shift(prefix, archive, its[i].segments, 0, Seq::empty());
        assert(its[i].segments.len() > 0);
        assert(segment_payload(archive, its[i].segments[0]) is Ok);
        assert(sits[i].segments[0] == shift_segment(its[i].segments[0], kk));
    }
    assert(is_start_order(sits, order));
}

} // verus!
