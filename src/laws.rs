//! Properties that hold of every input: how the locator, the segment table
//! and the index scan behave as a whole.
use vstd::prelude::*;

use crate::archive::{ArchiveSegment, ItemView, Xp3Error, Xp3Warning};
use crate::chunk::{
    chunk_at, file_scan, initial_pending, kind_of, le_at, scan_file, scan_index, segment_at,
    segments_from, segments_of, ChunkAt, ChunkKind, FileEnd, Pending,
};
use crate::extract::{
    contents_from, extraction_of, files_in_order, is_start_order, item_contents,
    listed_in_start_order, segment_payload, write_at,
};
use crate::index::{archive_listing, chain_from, entry_at};
use crate::inflate::zlib_inflated;
use crate::locate::{archive_start, is_pe_stub, lemma_archive_start_found, magic_at, scan_for_magic};
use vstd::set_lib::{lemma_int_range, lemma_len_subset, lemma_subset_equality, set_int_range};

verus! {

/// Input that neither begins with the header mark nor with "MZ" holds no
/// archive, and extracting it yields no file and no warning.
pub proof fn law_magic_absent(d: Seq<u8>)
    requires
        !is_pe_stub(d),
        !magic_at(d, 0),
    ensures
        archive_start(d) is None,
        archive_listing(d) == Ok::<(Seq<ItemView>, Seq<Xp3Warning>), Xp3Error>(
            (Seq::empty(), Seq::empty()),
        ),
        forall|order: Seq<int>|
            listed_in_start_order(d, order) ==> extraction_of(d, order) == Ok::<
                (Seq<(Seq<char>, Seq<u8>)>, Seq<Xp3Warning>),
                Xp3Error,
            >((Seq::empty(), Seq::empty())),
{
    assert forall|order: Seq<int>| listed_in_start_order(d, order) implies extraction_of(d, order)
        == Ok::<(Seq<(Seq<char>, Seq<u8>)>, Seq<Xp3Warning>), Xp3Error>(
        (Seq::empty(), Seq::empty()),
    ) by {
        assert(is_start_order(Seq::empty(), order));
        assert(order.len() == 0);
        assert(files_in_order(d, Seq::empty(), order, 0, Seq::empty()) == Ok::<
            Seq<(Seq<char>, Seq<u8>)>,
            Xp3Error,
        >(Seq::empty()));
    }
}

proof fn lemma_scan_over_prefix(d: Seq<u8>, prefix: Seq<u8>, k: nat, j: nat)
    requires
        1 <= j <= k,
        prefix.len() == 16 * k,
        d.len() >= 16 * k + 11,
        d.subrange(0, 16 * k as int) == prefix,
        magic_at(d, 16 * k as int),
        forall|i: int| 1 <= i < k ==> !magic_at(prefix, #[trigger] (16 * i)),
    ensures
        scan_for_magic(d, 16 * j) == Some(16 * k),
    decreases k - j,
{
    if j < k {
        let at = 16 * j as int;
        assert(d.subrange(at, at + 11) =~= prefix.subrange(at, at + 11));
        assert(!magic_at(prefix, 16 * (j as int)));
        assert(!magic_at(d, at));
        lemma_scan_over_prefix(d, prefix, k, j + 1);
        assert(16 * j + 16 == 16 * (j + 1));
    }
}

/// After an executable stub of `16k` bytes that begins with "MZ" and holds
/// no header mark on its 16-byte grid, an archive is found where it begins.
pub proof fn law_embedded_start(prefix: Seq<u8>, archive: Seq<u8>, k: nat)
    requires
        k >= 1,
        prefix.len() == 16 * k,
        prefix[0] == 0x4d,
        prefix[1] == 0x5a,
        forall|i: int| 1 <= i < k ==> !magic_at(prefix, #[trigger] (16 * i)),
        archive_start(archive) == Some(0nat),
    ensures
        archive_start(prefix + archive) == Some(16 * k),
{
    let d = prefix + archive;
    lemma_archive_start_found(archive);
    assert(d.subrange(16 * k as int, 16 * k + 11int) =~= archive.subrange(0, 11));
    assert(d.subrange(0, 16 * k as int) =~= prefix);
    lemma_scan_over_prefix(d, prefix, k, 1);
}

/// The total size of the segments once inflated.
pub open spec fn sum_sizes(segs: Seq<ArchiveSegment>) -> nat
    decreases segs.len(),
{
    if segs.len() == 0 {
        0
    } else {
        sum_sizes(segs.drop_last()) + segs.last().original_size as nat
    }
}

/// Each segment starts where the ones before it end, the first at 0.
pub open spec fn is_contiguous(segs: Seq<ArchiveSegment>) -> bool {
    forall|i: int| 0 <= i < segs.len() ==> #[trigger] segs[i].offset == sum_sizes(segs.take(i))
}

/// The payloads of segments `i..` appended to `acc`.
pub open spec fn concat_from(d: Seq<u8>, segs: Seq<ArchiveSegment>, i: nat, acc: Seq<u8>) -> Result<
    Seq<u8>,
    Xp3Error,
>
    decreases segs.len() - i,
{
    if i >= segs.len() {
        Ok(acc)
    } else {
        match segment_payload(d, segs[i as int]) {
            Err(e) => Err(e),
            Ok(p) => concat_from(d, segs, i + 1, acc + p),
        }
    }
}

/// The payloads of all segments, one after another.
pub open spec fn concatenated_payloads(d: Seq<u8>, segs: Seq<ArchiveSegment>) -> Result<
    Seq<u8>,
    Xp3Error,
> {
    concat_from(d, segs, 0, Seq::empty())
}

proof fn lemma_sum_step(segs: Seq<ArchiveSegment>, i: int)
    requires
        0 <= i < segs.len(),
    ensures
        sum_sizes(segs.take(i + 1)) == sum_sizes(segs.take(i)) + segs[i].original_size,
{
    assert(segs.take(i + 1).drop_last() =~= segs.take(i));
}

proof fn lemma_prefix_sum_le(segs: Seq<ArchiveSegment>, i: nat)
    requires
        i <= segs.len(),
    ensures
        sum_sizes(segs.take(i as int)) <= sum_sizes(segs),
    decreases segs.len() - i,
{
    if i < segs.len() {
        lemma_sum_step(segs, i as int);
        lemma_prefix_sum_le(segs, i + 1);
    } else {
        assert(segs.take(i as int) =~= segs);
    }
}

proof fn lemma_segments_from_contiguous(
    body: Seq<u8>,
    base: u64,
    i: nat,
    offset: nat,
    acc: Seq<ArchiveSegment>,
)
    requires
        is_contiguous(acc),
        offset == sum_sizes(acc),
        offset <= u64::MAX,
    ensures
        segments_from(body, base, i, offset, acc) matches Ok(segs) ==> is_contiguous(segs)
            && sum_sizes(segs) <= u64::MAX,
    decreases body.len() / 28 - i,
{
    if i < body.len() / 28 && le_at(body, 28 * i as int, 4) % 8 <= 1 && offset + le_at(
        body,
        28 * i + 12int,
        8,
    ) <= u64::MAX {
        let size = le_at(body, 28 * i + 12int, 8);
        let seg = segment_at(body, base, i, offset);
        let next = acc.push(seg);
        assert(seg.original_size == size);
        assert(seg.offset == offset);
        assert(next.drop_last() =~= acc);
        assert(next.take(acc.len() as int) =~= acc);
        assert forall|j: int| 0 <= j < next.len() implies #[trigger] next[j].offset == sum_sizes(
            next.take(j),
        ) by {
            if j < acc.len() {
                assert(next.take(j) =~= acc.take(j));
            }
        }
        lemma_segments_from_contiguous(body, base, i + 1, offset + size, next);
    }
}

/// The segments read from a `segm` body follow one another without gap or
/// overlap, from offset 0 on, and their sizes add up within 64 bits.
pub proof fn law_parsed_segments_contiguous(body: Seq<u8>, base: u64)
    ensures
        segments_of(body, base) matches Ok(segs) ==> is_contiguous(segs) && sum_sizes(segs)
            <= u64::MAX,
{
    lemma_segments_from_contiguous(body, base, 0, 0, Seq::empty());
}

proof fn lemma_payload_len(d: Seq<u8>, seg: ArchiveSegment)
    ensures
        segment_payload(d, seg) matches Ok(p) ==> p.len() == seg.original_size,
{
}

proof fn lemma_contents_concat(d: Seq<u8>, segs: Seq<ArchiveSegment>, i: nat, acc: Seq<u8>)
    requires
        is_contiguous(segs),
        sum_sizes(segs) <= usize::MAX,
        i <= segs.len(),
        acc.len() == sum_sizes(segs.take(i as int)),
    ensures
        contents_from(d, segs, i, acc) == concat_from(d, segs, i, acc),
        concat_from(d, segs, i, acc) matches Ok(c) ==> c.len() == sum_sizes(segs),
    decreases segs.len() - i,
{
    if i < segs.len() {
        let seg = segs[i as int];
        lemma_payload_len(d, seg);
        lemma_sum_step(segs, i as int);
        lemma_prefix_sum_le(segs, i + 1);
        if let Ok(p) = segment_payload(d, seg) {
            assert(seg.offset == acc.len());
            assert(write_at(acc, seg.offset as nat, p) =~= acc + p);
            lemma_contents_concat(d, segs, i + 1, acc + p);
        }
    } else {
        assert(segs.take(i as int) =~= segs);
    }
}

/// Contiguous segments rebuild a file that is their payloads one after
/// another, as long as the total size fits in memory.
pub proof fn law_contiguous_reconstruction(d: Seq<u8>, segs: Seq<ArchiveSegment>)
    requires
        is_contiguous(segs),
        sum_sizes(segs) <= usize::MAX,
    ensures
        item_contents(d, segs) == concatenated_payloads(d, segs),
        concatenated_payloads(d, segs) matches Ok(c) ==> c.len() == sum_sizes(segs),
{
    assert(segs.take(0) =~= Seq::<ArchiveSegment>::empty());
    lemma_contents_concat(d, segs, 0, Seq::empty());
}

/// A compressed segment whose stored bytes inflate to a raw segment's bytes
/// contributes the same payload.
pub proof fn law_compressed_payload(
    raw_input: Seq<u8>,
    raw: ArchiveSegment,
    packed_input: Seq<u8>,
    packed: ArchiveSegment,
)
    requires
        !raw.compressed,
        packed.compressed,
        raw.original_size == packed.original_size,
        raw.start + raw.original_size <= raw_input.len(),
        packed.start + packed.archive_size <= packed_input.len(),
        zlib_inflated(packed_input.subrange(packed.start as int, packed.start + packed.archive_size))
            == Some(raw_input.subrange(raw.start as int, raw.start + raw.original_size)),
    ensures
        segment_payload(raw_input, raw) is Ok,
        segment_payload(packed_input, packed) == segment_payload(raw_input, raw),
{
}

/// Both lists place, segment by segment, the same payload at the same offset.
pub open spec fn same_payloads(
    d1: Seq<u8>,
    s1: Seq<ArchiveSegment>,
    d2: Seq<u8>,
    s2: Seq<ArchiveSegment>,
) -> bool {
    &&& s1.len() == s2.len()
    &&& forall|j: int|
        #![trigger s1[j], s2[j]]
        0 <= j < s1.len() ==> s1[j].offset == s2[j].offset && segment_payload(d1, s1[j])
            == segment_payload(d2, s2[j])
}

proof fn lemma_same_payloads_from(
    d1: Seq<u8>,
    s1: Seq<ArchiveSegment>,
    d2: Seq<u8>,
    s2: Seq<ArchiveSegment>,
    i: nat,
    file: Seq<u8>,
)
    requires
        same_payloads(d1, s1, d2, s2),
    ensures
        contents_from(d1, s1, i, file) == contents_from(d2, s2, i, file),
    decreases s1.len() - i,
{
    if i < s1.len() {
        assert(s1[i as int].offset == s2[i as int].offset && segment_payload(d1, s1[i as int])
            == segment_payload(d2, s2[i as int]));
        if let Ok(p) = segment_payload(d1, s1[i as int]) {
            lemma_same_payloads_from(d1, s1, d2, s2, i + 1, write_at(file, s1[i as int].offset as nat, p));
        }
    }
}

/// Segments that place the same payloads at the same offsets rebuild the
/// same file, wherever and however their bytes are stored.
pub proof fn law_same_payloads_same_file(
    d1: Seq<u8>,
    s1: Seq<ArchiveSegment>,
    d2: Seq<u8>,
    s2: Seq<ArchiveSegment>,
)
    requires
        same_payloads(d1, s1, d2, s2),
    ensures
        item_contents(d1, s1) == item_contents(d2, s2),
{
    lemma_same_payloads_from(d1, s1, d2, s2, 0, Seq::empty());
}

/// From `p` to its end, `b` is a run of whole `File` chunks.
pub open spec fn whole_file_chunks(b: Seq<u8>, p: nat) -> bool
    decreases b.len() - p,
{
    if p == b.len() {
        true
    } else {
        match chunk_at(b, p) {
            ChunkAt::Found { tag, body, next } => kind_of(tag) == Some(ChunkKind::File) && p < next
                <= b.len() && whole_file_chunks(b, next),
            _ => false,
        }
    }
}

pub proof fn lemma_chunk_at_shift(a: Seq<u8>, b: Seq<u8>, p: nat)
    ensures
        match (chunk_at(a + b, a.len() + p), chunk_at(b, p)) {
            (ChunkAt::End, ChunkAt::End) => true,
            (ChunkAt::Oversized, ChunkAt::Oversized) => true,
            (
                ChunkAt::Found { tag: t1, body: b1, next: n1 },
                ChunkAt::Found { tag: t2, body: b2, next: n2 },
            ) => t1 == t2 && b1 == b2 && n1 == a.len() + n2,
            _ => false,
        },
{
    let d = a + b;
    let q: int = (a.len() + p) as int;
    if p + 12 <= b.len() {
        assert(d.subrange(q + 4, q + 12) =~= b.subrange(p + 4int, p + 12int));
        let size: int = le_at(b, p + 4int, 8) as int;
        assert(d.subrange(q, q + 4) =~= b.subrange(p as int, p + 4int));
        if p + 12 + size <= b.len() {
            assert(d.subrange(q + 12, q + 12 + size) =~= b.subrange(p + 12int, p + 12 + size));
        }
    }
}

pub proof fn lemma_chunk_at_prefix(a: Seq<u8>, b: Seq<u8>, p: nat)
    requires
        chunk_at(a, p) is Found,
    ensures
        chunk_at(a + b, p) == chunk_at(a, p),
{
    let d = a + b;
    assert(d.subrange(p + 4int, p + 12int) =~= a.subrange(p + 4int, p + 12int));
    let size: int = le_at(a, p + 4int, 8) as int;
    assert(d.subrange(p as int, p + 4int) =~= a.subrange(p as int, p + 4int));
    assert(d.subrange(p + 12int, p + 12 + size) =~= a.subrange(p + 12int, p + 12 + size));
}

pub proof fn lemma_scan_index_shift(
    a: Seq<u8>,
    b: Seq<u8>,
    p: nat,
    base: u64,
    items: Seq<ItemView>,
    ws: Seq<Xp3Warning>,
)
    ensures
        scan_index(a + b, a.len() + p, base, items, ws) == scan_index(b, p, base, items, ws),
    decreases b.len() - p,
{
    lemma_chunk_at_shift(a, b, p);
    if let ChunkAt::Found { tag, body, next } = chunk_at(b, p) {
        if kind_of(tag) == Some(ChunkKind::File) && p < next <= b.len() {
            match crate::chunk::file_scan(body, base, ws) {
                Ok((crate::chunk::FileEnd::Complete(it), ws2)) => {
                    lemma_scan_index_shift(a, b, next, base, items.push(it), ws2);
                },
                Ok((crate::chunk::FileEnd::Incomplete, ws2)) => {
                    lemma_scan_index_shift(
                        a,
                        b,
                        next,
                        base,
                        items,
                        ws2.push(Xp3Warning::MissingSubChunk),
                    );
                },
                _ => {},
            }
        }
    }
}

proof fn lemma_split_from(
    first: Seq<u8>,
    rest: Seq<u8>,
    p: nat,
    base: u64,
    items: Seq<ItemView>,
    ws: Seq<Xp3Warning>,
)
    requires
        whole_file_chunks(first, p),
        scan_index(first, p, base, items, ws) matches Ok((_, _, stopped)) && !stopped,
    ensures
        scan_index(first, p, base, items, ws) matches Ok((its, ws1, _)) && scan_index(
            first + rest,
            p,
            base,
            items,
            ws,
        ) == scan_index(rest, 0, base, its, ws1),
    decreases first.len() - p,
{
    if p == first.len() {
        lemma_scan_index_shift(first, rest, 0, base, items, ws);
    } else {
        lemma_chunk_at_prefix(first, rest, p);
        if let ChunkAt::Found { tag, body, next } = chunk_at(first, p) {
            match crate::chunk::file_scan(body, base, ws) {
                Ok((crate::chunk::FileEnd::Complete(it), ws2)) => {
                    lemma_split_from(first, rest, next, base, items.push(it), ws2);
                },
                Ok((crate::chunk::FileEnd::Incomplete, ws2)) => {
                    lemma_split_from(
                        first,
                        rest,
                        next,
                        base,
                        items,
                        ws2.push(Xp3Warning::MissingSubChunk),
                    );
                },
                _ => {},
            }
        }
    }
}

/// An index body made of a run of whole `File` chunks and then more chunks
/// lists what scanning the run and then the rest lists, items and warnings
/// carried over. Splitting an index at a chunk boundary into linked indexes
/// therefore lists the same items, as long as the first part is not cut
/// short by an oversized chunk.
pub proof fn law_split_index(
    first: Seq<u8>,
    rest: Seq<u8>,
    base: u64,
    items: Seq<ItemView>,
    ws: Seq<Xp3Warning>,
)
    requires
        whole_file_chunks(first, 0),
        scan_index(first, 0, base, items, ws) matches Ok((_, _, stopped)) && !stopped,
    ensures
        scan_index(first, 0, base, items, ws) matches Ok((its, ws1, _)) && scan_index(
            first + rest,
            0,
            base,
            items,
            ws,
        ) == scan_index(rest, 0, base, its, ws1),
{
    lemma_split_from(first, rest, 0, base, items, ws);
}

pub proof fn lemma_start_order_covers(items: Seq<ItemView>, o: Seq<int>)
    requires
        is_start_order(items, o),
    ensures
        o.no_duplicates(),
        forall|x: int| 0 <= x < items.len() ==> o.contains(x),
{
    assert forall|a: int, b: int| 0 <= a < o.len() && 0 <= b < o.len() && a != b implies o[a]
        != o[b] by {
        if a < b {
            assert(o[a] != o[b]);
        } else {
            assert(o[b] != o[a]);
        }
    }
    o.unique_seq_to_set();
    lemma_int_range(0, items.len() as int);
    assert(o.to_set().subset_of(set_int_range(0, items.len() as int)));
    lemma_len_subset(o.to_set(), set_int_range(0, items.len() as int));
    lemma_subset_equality(o.to_set(), set_int_range(0, items.len() as int));
    assert forall|x: int| 0 <= x < items.len() implies o.contains(x) by {
        assert(set_int_range(0, items.len() as int).contains(x));
        assert(o.to_set().contains(x));
    }
}

proof fn lemma_orders_agree(items: Seq<ItemView>, o1: Seq<int>, o2: Seq<int>, j: nat)
    requires
        is_start_order(items, o1),
        is_start_order(items, o2),
        j <= o1.len(),
    ensures
        forall|t: int| 0 <= t < j ==> o1[t] == o2[t],
    decreases j,
{
    if j > 0 {
        let i = j - 1;
        lemma_orders_agree(items, o1, o2, i as nat);
        lemma_start_order_covers(items, o1);
        lemma_start_order_covers(items, o2);
        let x = o1[i];
        let y = o2[i];
        if x != y {
            assert(o2.contains(x));
            let m = choose|m: int| 0 <= m < o2.len() && o2[m] == x;
            assert(o1.contains(y));
            let m1 = choose|m: int| 0 <= m < o1.len() && o1[m] == y;
            if m < i {
                assert(o1[m] == o2[m]);
            }
            if m1 < i {
                assert(o1[m1] == o2[m1]);
            }
            assert(m > i);
            assert(m1 > i);
            assert(o2[i] == y && o2[m] == x);
            assert(o1[i] == x && o1[m1] == y);
        }
    }
}

/// The order in which extraction takes the items is determined by them:
/// two orders that both sort by the start of the first segment, ties in
/// listed order, are the same.
pub proof fn law_start_order_unique(items: Seq<ItemView>, o1: Seq<int>, o2: Seq<int>)
    requires
        is_start_order(items, o1),
        is_start_order(items, o2),
    ensures
        o1 == o2,
{
    lemma_orders_agree(items, o1, o2, o1.len());
    assert(o1 =~= o2);
}

/// An index entry whose body is a run of whole `File` chunks followed by
/// more chunks lists the same items and warnings as two linked entries, the
/// first holding the run with the continuation bit set, the second the rest.
pub proof fn law_split_chain(
    single: Seq<u8>,
    single_pos: nat,
    single_fuel: nat,
    linked: Seq<u8>,
    linked_pos: nat,
    linked_fuel: nat,
    base: u64,
    first: Seq<u8>,
    rest: Seq<u8>,
)
    requires
        single_fuel >= 1,
        linked_fuel >= 2,
        entry_at(single, base, single_pos) matches Ok(e) && e.body == first + rest && e.flag < 0x80,
        entry_at(linked, base, linked_pos) matches Ok(e1) && (e1.body == first && e1.flag >= 0x80
            && (entry_at(linked, base, e1.next) matches Ok(e2) && e2.body == rest && e2.flag < 0x80)),
        whole_file_chunks(first, 0),
        scan_index(first, 0, base, Seq::empty(), Seq::empty()) matches Ok((_, _, stopped))
            && !stopped,
    ensures
        chain_from(single, base, single_pos, single_fuel, Seq::empty(), Seq::empty()) == chain_from(
            linked,
            base,
            linked_pos,
            linked_fuel,
            Seq::empty(),
            Seq::empty(),
        ),
{
    law_split_index(first, rest, base, Seq::empty(), Seq::empty());
    let e1 = entry_at(linked, base, linked_pos)->Ok_0;
    let (its, ws1, _) = scan_index(first, 0, base, Seq::empty(), Seq::empty())->Ok_0;
    assert(chain_from(linked, base, linked_pos, linked_fuel, Seq::empty(), Seq::empty()) == chain_from(
        linked,
        base,
        e1.next,
        (linked_fuel - 1) as nat,
        its,
        ws1,
    ));
}

/// Every item has at least one segment, and its segments follow one
/// another from offset 0 with sizes that add up within 64 bits.
pub open spec fn well_segmented(items: Seq<ItemView>) -> bool {
    forall|i: int|
        0 <= i < items.len() ==> {
            &&& (#[trigger] items[i]).segments.len() > 0
            &&& is_contiguous(items[i].segments)
            &&& sum_sizes(items[i].segments) <= u64::MAX
        }
}

proof fn lemma_scan_file_segments(b: Seq<u8>, p: nat, base: u64, count: nat, st: Pending, ws: Seq<Xp3Warning>)
    requires
        is_contiguous(st.item.segments),
        sum_sizes(st.item.segments) <= u64::MAX,
    ensures
        scan_file(b, p, base, count, st, ws) matches Ok((FileEnd::Complete(it), _)) ==> {
            &&& it.segments.len() > 0
            &&& is_contiguous(it.segments)
            &&& sum_sizes(it.segments) <= u64::MAX
        },
    decreases count,
{
    if count > 0 {
        if let ChunkAt::Found { tag, body, next } = chunk_at(b, p) {
            match kind_of(tag) {
                Some(ChunkKind::Info) => {
                    if let Ok(info) = crate::chunk::info_of(body) {
                        lemma_scan_file_segments(
                            b,
                            next,
                            base,
                            (count - 1) as nat,
                            Pending {
                                item: ItemView {
                                    name: info.name,
                                    original_size: info.original_size,
                                    archive_size: info.archive_size,
                                    ..st.item
                                },
                                has_info: true,
                                ..st
                            },
                            if crate::chunk::is_protected(info.flags) {
                                ws.push(Xp3Warning::Protected)
                            } else {
                                ws
                            },
                        );
                    }
                },
                Some(ChunkKind::Segment) => {
                    law_parsed_segments_contiguous(body, base);
                    if let Ok(segs) = segments_of(body, base) {
                        lemma_scan_file_segments(
                            b,
                            next,
                            base,
                            (count - 1) as nat,
                            Pending { item: ItemView { segments: segs, ..st.item }, has_segments: true, ..st },
                            if body.len() % 28 != 0 {
                                ws.push(Xp3Warning::SegmentSizeNotMultiple)
                            } else {
                                ws
                            },
                        );
                    }
                },
                Some(ChunkKind::Adlr) => {
                    if body.len() >= 4 {
                        lemma_scan_file_segments(
                            b,
                            next,
                            base,
                            (count - 1) as nat,
                            Pending {
                                item: ItemView { file_hash: le_at(body, 0, 4) as u32, ..st.item },
                                has_hash: true,
                                ..st
                            },
                            ws,
                        );
                    }
                },
                _ => {},
            }
        }
    }
}

proof fn lemma_scan_index_segments(
    b: Seq<u8>,
    p: nat,
    base: u64,
    items: Seq<ItemView>,
    ws: Seq<Xp3Warning>,
)
    requires
        well_segmented(items),
    ensures
        scan_index(b, p, base, items, ws) matches Ok((its, _, _)) ==> well_segmented(its),
    decreases b.len() - p,
{
    if let ChunkAt::Found { tag, body, next } = chunk_at(b, p) {
        if kind_of(tag) == Some(ChunkKind::File) {
            assert(is_contiguous(initial_pending().item.segments));
            lemma_scan_file_segments(body, 0, base, 3, initial_pending(), ws);
            match file_scan(body, base, ws) {
                Ok((FileEnd::Complete(it), ws2)) => {
                    lemma_scan_index_segments(b, next, base, items.push(it), ws2);
                },
                Ok((FileEnd::Incomplete, ws2)) => {
                    lemma_scan_index_segments(
                        b,
                        next,
                        base,
                        items,
                        ws2.push(Xp3Warning::MissingSubChunk),
                    );
                },
                _ => {},
            }
        }
    }
}

proof fn lemma_chain_segments(
    d: Seq<u8>,
    base: u64,
    pos: nat,
    f: nat,
    items: Seq<ItemView>,
    ws: Seq<Xp3Warning>,
)
    requires
        well_segmented(items),
    ensures
        chain_from(d, base, pos, f, items, ws) matches Ok((its, _)) ==> well_segmented(its),
    decreases f,
{
    if f > 0 {
        if let Ok(e) = entry_at(d, base, pos) {
            lemma_scan_index_segments(e.body, 0, base, items, ws);
            if let Ok((its, ws2, stopped)) = scan_index(e.body, 0, base, items, ws) {
                if !(stopped || e.flag < 0x80) {
                    lemma_chain_segments(d, base, e.next, (f - 1) as nat, its, ws2);
                }
            }
        }
    }
}

/// Every item that an archive lists has at least one segment, and its
/// segments follow one another from offset 0 without gap or overlap, so
/// that its file is their payloads one after another.
pub proof fn law_listed_items_segments(d: Seq<u8>)
    ensures
        archive_listing(d) matches Ok((items, _)) ==> well_segmented(items),
{
    if let Some(base) = archive_start(d) {
        assert(well_segmented(Seq::empty()));
        lemma_chain_segments(d, base as u64, base + 11, d.len() + 1, Seq::empty(), Seq::empty());
    }
}

} // verus!
