//! An archive laid out from known files extracts to exactly those files.
use vstd::prelude::*;

use crate::archive::{ArchiveSegment, ItemView, Xp3Error, Xp3Warning};
use crate::chunk::{
    chunk_at, file_scan, info_of, initial_pending, le_at, scan_file, scan_index, segment_at,
    segments_from, segments_of, kind_of, ChunkAt, ChunkKind, FileEnd, InfoView, Pending,
    CHUNK_SIZE_LIMIT,
};
use crate::extract::{
    contents_from, extraction_of, files_in_order, first_start, is_start_order, item_contents,
    listed_in_start_order, segment_payload, write_at,
};
use crate::index::{archive_listing, chain_from, entry_at, IndexEntry};
use crate::laws::{law_start_order_unique, lemma_chunk_at_shift, lemma_scan_index_shift};
use crate::locate::{archive_start, magic, magic_at};
use crate::stream::{le_value, pow256};
use crate::text::{utf8_len, MAX_NAME_BYTES};
use crate::text::{decode_utf16, utf16_units};
use vstd::utf8::{char_is_scalar, char_u32_cast};

verus! {

/// The `n` little-endian bytes of `v`.
pub open spec fn le_bytes(v: nat, n: nat) -> Seq<u8>
    decreases n,
{
    if n == 0 {
        Seq::empty()
    } else {
        seq![(v % 256) as u8] + le_bytes(v / 256, (n - 1) as nat)
    }
}

proof fn lemma_le_bytes(v: nat, n: nat)
    requires
        v < pow256(n),
    ensures
        le_bytes(v, n).len() == n,
        le_value(le_bytes(v, n)) == v,
    decreases n,
{
    if n > 0 {
        assert(v / 256 < pow256((n - 1) as nat)) by (nonlinear_arith)
            requires
                v < 256 * pow256((n - 1) as nat),
        ;
        lemma_le_bytes(v / 256, (n - 1) as nat);
        let b = le_bytes(v, n);
        assert(b.drop_first() =~= le_bytes(v / 256, (n - 1) as nat));
        assert(v % 256 + 256 * (v / 256) == v) by (nonlinear_arith);
    }
}

/// The UTF-16 code units of one character.
pub open spec fn utf16_of_char(c: char) -> Seq<u16> {
    let v = c as u32;
    if v < 0x10000 {
        seq![v as u16]
    } else {
        seq![(0xD800 + (v - 0x10000) / 0x400) as u16, (0xDC00 + (v - 0x10000) % 0x400) as u16]
    }
}

/// The UTF-16 code units of a string.
pub open spec fn utf16_of(s: Seq<char>) -> Seq<u16>
    decreases s.len(),
{
    if s.len() == 0 {
        Seq::empty()
    } else {
        utf16_of_char(s[0]) + utf16_of(s.drop_first())
    }
}

proof fn lemma_utf16_round_trip(s: Seq<char>)
    ensures
        decode_utf16(utf16_of(s)) == Some(s),
        utf16_of(s).len() <= 2 * s.len(),
    decreases s.len(),
{
    if s.len() > 0 {
        let c = s[0];
        let v = c as u32;
        let u = utf16_of(s);
        let rest = utf16_of(s.drop_first());
        lemma_utf16_round_trip(s.drop_first());
        char_is_scalar(c);
        char_u32_cast(c, v);
        if v < 0x10000 {
            assert(u.skip(1) =~= rest);
            assert((v as u16) as u32 == v);
            assert(u[0] as u32 as char == c);
        } else {
            let q = (v - 0x10000) / 0x400;
            let r = (v - 0x10000) % 0x400;
            assert(q < 0x400 && r < 0x400 && 0x10000 + q * 0x400 + r == v) by (nonlinear_arith)
                requires
                    0x10000 <= v <= 0x10FFFF,
                    q == (v - 0x10000) / 0x400,
                    r == (v - 0x10000) % 0x400,
            ;
            assert(u.skip(2) =~= rest);
            assert(crate::text::pair_scalar(u[0], u[1]) == v);
            assert(crate::text::pair_scalar(u[0], u[1]) as char == c);
        }
        assert(seq![c] + s.drop_first() =~= s);
    }
}

/// Code units stored little-endian, two bytes each.
pub open spec fn units_bytes(u: Seq<u16>) -> Seq<u8> {
    Seq::new(
        2 * u.len(),
        |i: int|
            if i % 2 == 0 {
                (u[i / 2] % 256) as u8
            } else {
                (u[i / 2] / 256) as u8
            },
    )
}

proof fn lemma_units_bytes(u: Seq<u16>)
    ensures
        utf16_units(units_bytes(u)) == u,
{
    let b = units_bytes(u);
    assert forall|i: int| 0 <= i < u.len() implies #[trigger] utf16_units(b)[i] == u[i] by {
        assert((2 * i) % 2 == 0 && (2 * i) / 2 == i && (2 * i + 1) % 2 == 1 && (2 * i + 1) / 2 == i)
            by (nonlinear_arith);
        assert(u[i] % 256 + 256 * (u[i] / 256) == u[i]) by (nonlinear_arith);
    }
    assert(utf16_units(b) =~= u);
}

pub open spec fn file_tag() -> Seq<u8> {
    seq![0x46u8, 0x69, 0x6c, 0x65]
}

pub open spec fn info_tag() -> Seq<u8> {
    seq![0x69u8, 0x6e, 0x66, 0x6f]
}

pub open spec fn segm_tag() -> Seq<u8> {
    seq![0x73u8, 0x65, 0x67, 0x6d]
}

pub open spec fn adlr_tag() -> Seq<u8> {
    seq![0x61u8, 0x64, 0x6c, 0x72]
}

/// A chunk: its tag, its body's length in eight bytes, its body.
#[verifier::opaque]
pub open spec fn chunk_bytes(tag: Seq<u8>, body: Seq<u8>) -> Seq<u8> {
    tag + le_bytes(body.len(), 8) + body
}

proof fn lemma_pow256_8()
    ensures
        pow256(8) == 0x1_0000_0000_0000_0000,
        pow256(4) == 0x1_0000_0000,
        pow256(2) == 0x1_0000,
{
    reveal_with_fuel(pow256, 9);
}

proof fn lemma_chunk_found(tag: Seq<u8>, body: Seq<u8>, rest: Seq<u8>)
    requires
        tag.len() == 4,
        body.len() <= CHUNK_SIZE_LIMIT,
    ensures
        chunk_bytes(tag, body).len() == 12 + body.len(),
        chunk_at(chunk_bytes(tag, body) + rest, 0) == (ChunkAt::Found {
            tag,
            body,
            next: 12 + body.len(),
        }),
{
    reveal(chunk_bytes);
    lemma_pow256_8();
    lemma_le_bytes(body.len(), 8);
    let c = chunk_bytes(tag, body) + rest;
    assert(c.subrange(4, 12) =~= le_bytes(body.len(), 8));
    assert(c.subrange(0, 4) =~= tag);
    assert(c.subrange(12, 12 + body.len() as int) =~= body);
}

proof fn lemma_len_le_utf8(s: Seq<char>)
    ensures
        s.len() <= utf8_len(s),
    decreases s.len(),
{
    if s.len() > 0 {
        lemma_len_le_utf8(s.drop_last());
    }
}

/// An `info` body: no flags, equal sizes, the name in UTF-16LE.
pub open spec fn info_body(name: Seq<char>, size: nat) -> Seq<u8> {
    let u = utf16_of(name);
    le_bytes(0, 4) + le_bytes(size, 8) + le_bytes(size, 8) + le_bytes(u.len(), 2) + units_bytes(u)
}

proof fn lemma_info_body(name: Seq<char>, size: nat)
    requires
        size <= u64::MAX,
        utf8_len(name) <= MAX_NAME_BYTES,
    ensures
        info_body(name, size).len() <= 22 + 2 * MAX_NAME_BYTES * 2,
        info_of(info_body(name, size)) == Ok::<InfoView, Xp3Error>(
            InfoView { flags: 0, original_size: size as u64, archive_size: size as u64, name },
        ),
{
    lemma_pow256_8();
    let u = utf16_of(name);
    lemma_utf16_round_trip(name);
    lemma_len_le_utf8(name);
    lemma_units_bytes(u);
    lemma_le_bytes(0, 4);
    lemma_le_bytes(size, 8);
    lemma_le_bytes(u.len(), 2);
    let b = info_body(name, size);
    assert(b.subrange(0, 4) =~= le_bytes(0, 4));
    assert(b.subrange(4, 12) =~= le_bytes(size, 8));
    assert(b.subrange(12, 20) =~= le_bytes(size, 8));
    assert(b.subrange(20, 22) =~= le_bytes(u.len(), 2));
    assert(b.subrange(22, 22 + 2 * u.len() as int) =~= units_bytes(u));
}

/// A `segm` body of one raw segment.
pub open spec fn segm_body(start: nat, size: nat) -> Seq<u8> {
    le_bytes(0, 4) + le_bytes(start, 8) + le_bytes(size, 8) + le_bytes(size, 8)
}

/// One raw segment at the start of its file.
pub open spec fn raw_segment(start: nat, size: nat) -> ArchiveSegment {
    ArchiveSegment {
        start: start as u64,
        offset: 0,
        original_size: size as u64,
        archive_size: size as u64,
        compressed: false,
    }
}

proof fn lemma_segm_body(start: nat, size: nat)
    requires
        start <= u64::MAX,
        size <= u64::MAX,
    ensures
        segm_body(start, size).len() == 28,
        segments_of(segm_body(start, size), 0) == Ok::<Seq<ArchiveSegment>, Xp3Error>(
            seq![raw_segment(start, size)],
        ),
{
    lemma_pow256_8();
    lemma_le_bytes(0, 4);
    lemma_le_bytes(start, 8);
    lemma_le_bytes(size, 8);
    let b = segm_body(start, size);
    assert(b.subrange(0, 4) =~= le_bytes(0, 4));
    assert(b.subrange(4, 12) =~= le_bytes(start, 8));
    assert(b.subrange(12, 20) =~= le_bytes(size, 8));
    assert(b.subrange(20, 28) =~= le_bytes(size, 8));
    let seg = segment_at(b, 0, 0, 0);
    assert((start as u64).wrapping_add(0) == start as u64);
    assert(seg == raw_segment(start, size));
    assert(Seq::<ArchiveSegment>::empty().push(seg) =~= seq![raw_segment(start, size)]);
    assert(segments_from(b, 0, 0, 0, Seq::empty()) == segments_from(
        b,
        0,
        1,
        size,
        seq![raw_segment(start, size)],
    ));
}

/// The body of a `File` chunk for one file stored raw at `start`.
#[verifier::opaque]
pub open spec fn file_body(name: Seq<char>, start: nat, size: nat) -> Seq<u8> {
    chunk_bytes(info_tag(), info_body(name, size)) + chunk_bytes(segm_tag(), segm_body(start, size))
        + chunk_bytes(adlr_tag(), le_bytes(0, 4))
}

/// The item that such a `File` chunk describes.
pub open spec fn built_item(name: Seq<char>, start: nat, size: nat) -> ItemView {
    ItemView {
        name,
        file_hash: 0,
        original_size: size as u64,
        archive_size: size as u64,
        segments: seq![raw_segment(start, size)],
    }
}

proof fn lemma_file_chunks(name: Seq<char>, start: nat, size: nat)
    requires
        start <= u64::MAX,
        size <= u64::MAX,
        utf8_len(name) <= MAX_NAME_BYTES,
    ensures
        ({
            let ib = info_body(name, size);
            let n1 = 12 + ib.len();
            let fb = file_body(name, start, size);
            &&& fb.len() == n1 + 56
            &&& fb.len() <= 2000
            &&& chunk_at(fb, 0) == (ChunkAt::Found { tag: info_tag(), body: ib, next: n1 })
            &&& chunk_at(fb, n1) == (ChunkAt::Found {
                tag: segm_tag(),
                body: segm_body(start, size),
                next: n1 + 40,
            })
            &&& chunk_at(fb, n1 + 40) == (ChunkAt::Found {
                tag: adlr_tag(),
                body: le_bytes(0, 4),
                next: n1 + 56,
            })
        }),
{
    lemma_pow256_8();
    lemma_info_body(name, size);
    lemma_segm_body(start, size);
    lemma_le_bytes(0, 4);
    let ib = info_body(name, size);
    let sb = segm_body(start, size);
    let ab = le_bytes(0, 4);
    let c1 = chunk_bytes(info_tag(), ib);
    let c2 = chunk_bytes(segm_tag(), sb);
    let c3 = chunk_bytes(adlr_tag(), ab);
    let fb = file_body(name, start, size);
    reveal(file_body);
    lemma_chunk_found(info_tag(), ib, c2 + c3);
    lemma_chunk_found(segm_tag(), sb, c3);
    lemma_chunk_found(adlr_tag(), ab, Seq::empty());
    assert(fb =~= c1 + (c2 + c3));
    assert(fb =~= (c1 + c2) + c3);
    assert(c3 + Seq::empty() =~= c3);
    lemma_chunk_at_shift(c1, c2 + c3, 0);
    lemma_chunk_at_shift(c1 + c2, c3, 0);
}

proof fn lemma_info_step(
    b: Seq<u8>,
    p: nat,
    base: u64,
    k: nat,
    st: Pending,
    ws: Seq<Xp3Warning>,
    body: Seq<u8>,
    next: nat,
    info: InfoView,
)
    requires
        k > 0,
        chunk_at(b, p) == (ChunkAt::Found { tag: info_tag(), body, next }),
        info_of(body) == Ok::<InfoView, Xp3Error>(info),
        info.flags == 0,
    ensures
        scan_file(b, p, base, k, st, ws) == scan_file(
            b,
            next,
            base,
            (k - 1) as nat,
            Pending {
                item: ItemView {
                    name: info.name,
                    original_size: info.original_size,
                    archive_size: info.archive_size,
                    ..st.item
                },
                has_info: true,
                ..st
            },
            ws,
        ),
{
    assert(kind_of(info_tag()) == Some(ChunkKind::Info));
}

proof fn lemma_segm_step(
    b: Seq<u8>,
    p: nat,
    base: u64,
    k: nat,
    st: Pending,
    ws: Seq<Xp3Warning>,
    body: Seq<u8>,
    next: nat,
    segs: Seq<ArchiveSegment>,
)
    requires
        k > 0,
        chunk_at(b, p) == (ChunkAt::Found { tag: segm_tag(), body, next }),
        segments_of(body, base) == Ok::<Seq<ArchiveSegment>, Xp3Error>(segs),
        body.len() == 28,
    ensures
        scan_file(b, p, base, k, st, ws) == scan_file(
            b,
            next,
            base,
            (k - 1) as nat,
            Pending { item: ItemView { segments: segs, ..st.item }, has_segments: true, ..st },
            ws,
        ),
{
    assert(segm_tag() != info_tag());
    assert(kind_of(segm_tag()) == Some(ChunkKind::Segment));
}

proof fn lemma_adlr_step(
    b: Seq<u8>,
    p: nat,
    base: u64,
    k: nat,
    st: Pending,
    ws: Seq<Xp3Warning>,
    body: Seq<u8>,
    next: nat,
)
    requires
        k > 0,
        chunk_at(b, p) == (ChunkAt::Found { tag: adlr_tag(), body, next }),
        body.len() >= 4,
    ensures
        scan_file(b, p, base, k, st, ws) == scan_file(
            b,
            next,
            base,
            (k - 1) as nat,
            Pending {
                item: ItemView { file_hash: le_at(body, 0, 4) as u32, ..st.item },
                has_hash: true,
                ..st
            },
            ws,
        ),
{
    assert(adlr_tag() != info_tag());
    assert(adlr_tag() != segm_tag());
    assert(kind_of(adlr_tag()) == Some(ChunkKind::Adlr));
}

proof fn lemma_three_chunks(
    fb: Seq<u8>,
    ib: Seq<u8>,
    sb: Seq<u8>,
    ab: Seq<u8>,
    info: InfoView,
    segs: Seq<ArchiveSegment>,
    ws: Seq<Xp3Warning>,
)
    requires
        chunk_at(fb, 0) == (ChunkAt::Found { tag: info_tag(), body: ib, next: 12 + ib.len() }),
        chunk_at(fb, 12 + ib.len()) == (ChunkAt::Found {
            tag: segm_tag(),
            body: sb,
            next: 12 + ib.len() + 40,
        }),
        chunk_at(fb, 12 + ib.len() + 40) == (ChunkAt::Found {
            tag: adlr_tag(),
            body: ab,
            next: 12 + ib.len() + 56,
        }),
        info_of(ib) == Ok::<InfoView, Xp3Error>(info),
        info.flags == 0,
        segments_of(sb, 0) == Ok::<Seq<ArchiveSegment>, Xp3Error>(segs),
        segs.len() > 0,
        sb.len() == 28,
        ab.len() >= 4,
        le_at(ab, 0, 4) == 0,
    ensures
        file_scan(fb, 0, ws) == Ok::<(FileEnd, Seq<Xp3Warning>), Xp3Error>(
            (
                FileEnd::Complete(
                    ItemView {
                        name: info.name,
                        file_hash: 0,
                        original_size: info.original_size,
                        archive_size: info.archive_size,
                        segments: segs,
                    },
                ),
                ws,
            ),
        ),
{
    let n1 = 12 + ib.len();
    let st0 = initial_pending();
    let st1 = Pending {
        item: ItemView {
            name: info.name,
            original_size: info.original_size,
            archive_size: info.archive_size,
            ..st0.item
        },
        has_info: true,
        ..st0
    };
    let st2 = Pending { item: ItemView { segments: segs, ..st1.item }, has_segments: true, ..st1 };
    let st3 = Pending {
        item: ItemView { file_hash: le_at(ab, 0, 4) as u32, ..st2.item },
        has_hash: true,
        ..st2
    };
    lemma_info_step(fb, 0, 0, 3, st0, ws, ib, n1, info);
    lemma_segm_step(fb, n1, 0, 2, st1, ws, sb, n1 + 40, segs);
    lemma_adlr_step(fb, n1 + 40, 0, 1, st2, ws, ab, n1 + 56);
}

proof fn lemma_file_body(name: Seq<char>, start: nat, size: nat, ws: Seq<Xp3Warning>)
    requires
        start <= u64::MAX,
        size <= u64::MAX,
        utf8_len(name) <= MAX_NAME_BYTES,
    ensures
        file_body(name, start, size).len() <= 2000,
        file_scan(file_body(name, start, size), 0, ws) == Ok::<(FileEnd, Seq<Xp3Warning>), Xp3Error>(
            (FileEnd::Complete(built_item(name, start, size)), ws),
        ),
{
    lemma_info_body(name, size);
    lemma_segm_body(start, size);
    lemma_file_chunks(name, start, size);
    let ab = le_bytes(0, 4);
    assert(le_at(ab, 0, 4) == 0 && ab.len() == 4) by {
        lemma_pow256_8();
        lemma_le_bytes(0, 4);
        assert(ab.subrange(0, 4) =~= ab);
    }
    lemma_three_chunks(
        file_body(name, start, size),
        info_body(name, size),
        segm_body(start, size),
        ab,
        InfoView { flags: 0, original_size: size as u64, archive_size: size as u64, name },
        seq![raw_segment(start, size)],
        ws,
    );
}

/// Where file `i`'s contents begin among the contents of all files: the
/// lengths of the files before it, added up.
pub open spec fn offset_of(files: Seq<(Seq<char>, Seq<u8>)>, i: nat) -> nat
    decreases i,
{
    if i == 0 {
        0
    } else {
        offset_of(files, (i - 1) as nat) + files[i - 1].1.len()
    }
}

/// The contents of files `i..`, one after another.
pub open spec fn payload_from(files: Seq<(Seq<char>, Seq<u8>)>, i: nat) -> Seq<u8>
    decreases files.len() - i,
{
    if i >= files.len() {
        Seq::empty()
    } else {
        files[i as int].1 + payload_from(files, i + 1)
    }
}

/// The `File` chunks of files `i..`; the contents begin at byte 19 of the
/// archive.
pub open spec fn index_from(files: Seq<(Seq<char>, Seq<u8>)>, i: nat) -> Seq<u8>
    decreases files.len() - i,
{
    if i >= files.len() {
        Seq::empty()
    } else {
        chunk_bytes(
            file_tag(),
            file_body(files[i as int].0, 19 + offset_of(files, i), files[i as int].1.len()),
        ) + index_from(files, i + 1)
    }
}

/// The items that the index of `built_archive(files)` lists.
pub open spec fn built_items(files: Seq<(Seq<char>, Seq<u8>)>) -> Seq<ItemView> {
    Seq::new(
        files.len(),
        |i: int| built_item(files[i].0, 19 + offset_of(files, i as nat), files[i].1.len()),
    )
}

/// An archive holding `files`: the header mark, the offset of its one raw
/// index, the contents of the files one after another, then that index,
/// which lists each file as one raw segment.
pub open spec fn built_archive(files: Seq<(Seq<char>, Seq<u8>)>) -> Seq<u8> {
    let payload = payload_from(files, 0);
    let index = index_from(files, 0);
    magic() + le_bytes(19 + payload.len(), 8) + payload + seq![0u8] + le_bytes(index.len(), 8)
        + index
}

proof fn lemma_offsets_grow(files: Seq<(Seq<char>, Seq<u8>)>, i: nat, j: nat)
    requires
        i <= j,
    ensures
        offset_of(files, i) <= offset_of(files, j),
    decreases j,
{
    if i < j {
        lemma_offsets_grow(files, i, (j - 1) as nat);
    }
}

proof fn lemma_payload_len(files: Seq<(Seq<char>, Seq<u8>)>, i: nat)
    requires
        i <= files.len(),
    ensures
        payload_from(files, i).len() + offset_of(files, i) == offset_of(files, files.len()),
    decreases files.len() - i,
{
    if i < files.len() {
        lemma_payload_len(files, i + 1);
    }
}

proof fn lemma_payload_at(files: Seq<(Seq<char>, Seq<u8>)>, i: nat, j: nat)
    requires
        i <= j < files.len(),
    ensures
        ({
            let o = offset_of(files, j) - offset_of(files, i);
            &&& o >= 0
            &&& payload_from(files, i).subrange(o, o + files[j as int].1.len()) == files[j as int].1
        }),
    decreases j - i,
{
    let head = files[i as int].1;
    let whole = payload_from(files, i);
    lemma_payload_len(files, i + 1);
    if j == i {
        assert(whole.subrange(0, head.len() as int) =~= head);
    } else {
        lemma_payload_at(files, i + 1, j);
        lemma_offsets_grow(files, i + 1, j);
        lemma_offsets_grow(files, j + 1, files.len());
        assert(offset_of(files, j + 1) == offset_of(files, j) + files[j as int].1.len());
        assert(whole == head + payload_from(files, i + 1));
        let rest = payload_from(files, i + 1);
        let o2 = offset_of(files, j) - offset_of(files, i + 1);
        let o = offset_of(files, j) - offset_of(files, i);
        assert(o == head.len() + o2);
        assert(whole.subrange(o, o + files[j as int].1.len()) =~= rest.subrange(
            o2,
            o2 + files[j as int].1.len(),
        ));
    }
}

proof fn lemma_index_from(files: Seq<(Seq<char>, Seq<u8>)>, i: nat, ws: Seq<Xp3Warning>)
    requires
        i <= files.len(),
        forall|j: int| 0 <= j < files.len() ==> utf8_len(#[trigger] files[j].0) <= MAX_NAME_BYTES,
        19 + offset_of(files, files.len()) <= u64::MAX,
    ensures
        scan_index(index_from(files, i), 0, 0, built_items(files).take(i as int), ws) == Ok::<
            (Seq<ItemView>, Seq<Xp3Warning>, bool),
            Xp3Error,
        >((built_items(files), ws, false)),
    decreases files.len() - i,
{
    let items = built_items(files);
    if i < files.len() {
        let name = files[i as int].0;
        let start = 19 + offset_of(files, i);
        let size = files[i as int].1.len();
        lemma_offsets_grow(files, i + 1, files.len());
        assert(utf8_len(files[i as int].0) <= MAX_NAME_BYTES);
        lemma_file_body(name, start, size, ws);
        let fb = file_body(name, start, size);
        let c = chunk_bytes(file_tag(), fb);
        let rest = index_from(files, i + 1);
        lemma_chunk_found(file_tag(), fb, rest);
        assert(kind_of(file_tag()) == Some(ChunkKind::File));
        assert(items[i as int] == built_item(name, start, size));
        assert(items.take(i as int).push(items[i as int]) =~= items.take(i + 1int));
        lemma_scan_index_shift(c, rest, 0, 0, items.take(i + 1int), ws);
        lemma_index_from(files, i + 1, ws);
        assert(c + rest + Seq::empty() =~= c + rest);
        assert(scan_index(c + rest, 0, 0, items.take(i as int), ws) == scan_index(
            c + rest,
            c.len(),
            0,
            items.take(i + 1int),
            ws,
        ));
    } else {
        assert(items.take(i as int) =~= items);
    }
}

proof fn lemma_le_bytes_len(v: nat, n: nat)
    ensures
        le_bytes(v, n).len() == n,
    decreases n,
{
    if n > 0 {
        lemma_le_bytes_len(v / 256, (n - 1) as nat);
    }
}

proof fn lemma_built_len(files: Seq<(Seq<char>, Seq<u8>)>)
    ensures
        built_archive(files).len() == 28 + payload_from(files, 0).len() + index_from(files, 0).len(),
        payload_from(files, 0).len() == offset_of(files, files.len()),
{
    lemma_payload_len(files, 0);
    lemma_le_bytes_len(19 + payload_from(files, 0).len(), 8);
    lemma_le_bytes_len(index_from(files, 0).len(), 8);
}

proof fn lemma_built_listing(files: Seq<(Seq<char>, Seq<u8>)>)
    requires
        forall|j: int| 0 <= j < files.len() ==> utf8_len(#[trigger] files[j].0) <= MAX_NAME_BYTES,
        built_archive(files).len() <= u64::MAX,
    ensures
        archive_listing(built_archive(files)) == Ok::<(Seq<ItemView>, Seq<Xp3Warning>), Xp3Error>(
            (built_items(files), Seq::empty()),
        ),
{
    let d = built_archive(files);
    let payload = payload_from(files, 0);
    let index = index_from(files, 0);
    let p = payload.len();
    let n = index.len();
    lemma_built_len(files);
    lemma_payload_len(files, 0);
    lemma_pow256_8();
    lemma_le_bytes(19 + p, 8);
    lemma_le_bytes(n, 8);
    assert(d.subrange(0, 11) =~= magic());
    assert(d[0] == 0x58);
    assert(magic_at(d, 0));
    assert(archive_start(d) == Some(0nat));
    assert(d.subrange(11, 19) =~= le_bytes(19 + p, 8));
    let at: int = 19 + p as int;
    assert(((19 + p) as u64).wrapping_add(0) == (19 + p) as u64);
    assert(d[at] == 0);
    assert(d.subrange(at + 1, at + 9) =~= le_bytes(n, 8));
    assert(d.subrange(at + 9, at + 9 + n) =~= index);
    assert(entry_at(d, 0, 11) == Ok::<IndexEntry, Xp3Error>(
        IndexEntry { body: index, flag: 0, next: d.len() },
    ));
    lemma_index_from(files, 0, Seq::empty());
    assert(built_items(files).take(0) =~= Seq::<ItemView>::empty());
    assert(chain_from(d, 0, 11, d.len() + 1, Seq::empty(), Seq::empty()) == Ok::<
        (Seq<ItemView>, Seq<Xp3Warning>),
        Xp3Error,
    >((built_items(files), Seq::empty())));
}

proof fn lemma_built_file(files: Seq<(Seq<char>, Seq<u8>)>, j: nat)
    requires
        j < files.len(),
        built_archive(files).len() <= usize::MAX,
        built_archive(files).len() <= u64::MAX,
    ensures
        item_contents(built_archive(files), built_items(files)[j as int].segments) == Ok::<
            Seq<u8>,
            Xp3Error,
        >(files[j as int].1),
{
    let d = built_archive(files);
    let payload = payload_from(files, 0);
    lemma_built_len(files);
    lemma_le_bytes_len(19 + payload.len(), 8);
    lemma_payload_len(files, 0);
    lemma_payload_at(files, 0, j);
    lemma_offsets_grow(files, j + 1, files.len());
    let off = offset_of(files, j);
    let size = files[j as int].1.len();
    let start = 19 + off;
    assert(offset_of(files, j + 1) == off + size);
    assert(d.subrange(19, 19 + payload.len() as int) =~= payload);
    assert(d.subrange(start as int, start + size as int) =~= payload.subrange(off as int, off + size as int));
    let seg = raw_segment(start, size);
    assert(built_items(files)[j as int].segments == seq![seg]);
    assert(segment_payload(d, seg) == Ok::<Seq<u8>, Xp3Error>(files[j as int].1));
    assert(write_at(Seq::empty(), 0, files[j as int].1) =~= files[j as int].1);
    assert(contents_from(d, seq![seg], 0, Seq::empty()) == contents_from(
        d,
        seq![seg],
        1,
        files[j as int].1,
    ));
}

proof fn lemma_built_files(
    files: Seq<(Seq<char>, Seq<u8>)>,
    order: Seq<int>,
    j: nat,
)
    requires
        j <= files.len(),
        order == Seq::new(files.len(), |i: int| i),
        built_archive(files).len() <= usize::MAX,
        built_archive(files).len() <= u64::MAX,
    ensures
        files_in_order(built_archive(files), built_items(files), order, j, files.take(j as int))
            == Ok::<Seq<(Seq<char>, Seq<u8>)>, Xp3Error>(files),
    decreases files.len() - j,
{
    if j < files.len() {
        lemma_built_file(files, j);
        assert(files.take(j as int).push((built_items(files)[j as int].name, files[j as int].1))
            =~= files.take(j + 1int));
        lemma_built_files(files, order, j + 1);
    } else {
        assert(files.take(j as int) =~= files);
    }
}

/// An archive laid out from known files, each stored raw under a name of at
/// most `MAX_NAME_BYTES` UTF-8 bytes, extracts to exactly those files, in
/// their order, with no warning.
pub proof fn law_round_trip(files: Seq<(Seq<char>, Seq<u8>)>)
    requires
        forall|j: int| 0 <= j < files.len() ==> utf8_len(#[trigger] files[j].0) <= MAX_NAME_BYTES,
        built_archive(files).len() <= usize::MAX,
    ensures
        listed_in_start_order(built_archive(files), Seq::new(files.len(), |i: int| i)),
        forall|order: Seq<int>|
            listed_in_start_order(built_archive(files), order) ==> extraction_of(
                built_archive(files),
                order,
            ) == Ok::<(Seq<(Seq<char>, Seq<u8>)>, Seq<Xp3Warning>), Xp3Error>(
                (files, Seq::empty()),
            ),
{
    let d = built_archive(files);
    assert(usize::MAX <= u64::MAX);
    lemma_built_listing(files);
    let items = built_items(files);
    let id = Seq::new(files.len(), |i: int| i);
    assert forall|j1: int, j2: int| #![trigger id[j1], id[j2]] 0 <= j1 < j2 < id.len() implies {
        let a = first_start(items[id[j1]]);
        let b = first_start(items[id[j2]]);
        a < b || (a == b && id[j1] < id[j2])
    } by {
        lemma_offsets_grow(files, j1 as nat, j2 as nat);
        lemma_offsets_grow(files, j2 as nat, files.len());
        lemma_built_len(files);
        assert(items[j1].segments[0] == raw_segment(19 + offset_of(files, j1 as nat), files[j1].1.len()));
        assert(items[j2].segments[0] == raw_segment(19 + offset_of(files, j2 as nat), files[j2].1.len()));
    }
    assert(is_start_order(items, id));
    lemma_built_files(files, id, 0);
    assert(files.take(0) =~= Seq::<(Seq<char>, Seq<u8>)>::empty());
    assert forall|order: Seq<int>| listed_in_start_order(d, order) implies extraction_of(d, order)
        == Ok::<(Seq<(Seq<char>, Seq<u8>)>, Seq<Xp3Warning>), Xp3Error>((files, Seq::empty())) by {
        law_start_order_unique(items, order, id);
    }
}

} // verus!
