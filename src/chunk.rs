//! The chunk structure inside an index: `File` chunks at the top level, each
//! holding `info`, `segm` and `adlr` sub-chunks.
use vstd::prelude::*;

use crate::archive::{ArchiveItem, ArchiveSegment, ItemView, Xp3Error, Xp3Warning};
use crate::stream::{le_value, ReadStream, StreamError};
use crate::text::{decode_utf16, shorten_name, shortened_name, utf16_units};

verus! {

/// The little-endian integer in the `n` bytes of `b` at `off`.
pub open spec fn le_at(b: Seq<u8>, off: int, n: int) -> nat {
    le_value(b.subrange(off, off + n))
}

/// Chunks that declare more bytes than this end the scan of their index.
pub const CHUNK_SIZE_LIMIT: u64 = 0xFFFF_FFFF;

/// The length of one record of a `segm` chunk.
pub const SEGMENT_RECORD: u64 = 28;

/// The recognised chunk tags.
#[derive(Clone, Copy, Debug, PartialEq, Eq, Structural)]
pub enum ChunkKind {
    File,
    Info,
    Segment,
    Adlr,
}

/// The kind that a four-byte tag names: "File", "info", "segm" or "adlr".
pub open spec fn kind_of(tag: Seq<u8>) -> Option<ChunkKind> {
    if tag == seq![0x46u8, 0x69, 0x6c, 0x65] {
        Some(ChunkKind::File)
    } else if tag == seq![0x69u8, 0x6e, 0x66, 0x6f] {
        Some(ChunkKind::Info)
    } else if tag == seq![0x73u8, 0x65, 0x67, 0x6d] {
        Some(ChunkKind::Segment)
    } else if tag == seq![0x61u8, 0x64, 0x6c, 0x72] {
        Some(ChunkKind::Adlr)
    } else {
        None
    }
}

/// What stands at position `p` of a chunk sequence.
pub enum ChunkAt {
    /// No complete chunk header, or a body that runs past the end.
    End,
    /// A header that declares more than `CHUNK_SIZE_LIMIT` bytes.
    Oversized,
    Found { tag: Seq<u8>, body: Seq<u8>, next: nat },
}

/// A chunk is four tag bytes, a little-endian 64-bit size and that many bytes.
pub open spec fn chunk_at(b: Seq<u8>, p: nat) -> ChunkAt {
    if p + 12 > b.len() {
        ChunkAt::End
    } else {
        let size = le_at(b, p + 4int, 8);
        if size > CHUNK_SIZE_LIMIT {
            ChunkAt::Oversized
        } else if p + 12 + size > b.len() {
            ChunkAt::End
        } else {
            ChunkAt::Found {
                tag: b.subrange(p as int, p + 4int),
                body: b.subrange(p + 12int, p + 12int + size),
                next: p + 12 + size,
            }
        }
    }
}

/// A chunk of a recognised kind, with a stream over its body.
pub enum Chunk {
    File(ReadStream),
    Info(ReadStream),
    Segment(ReadStream),
    Adlr(ReadStream),
}

impl Chunk {
    pub open spec fn kind(&self) -> ChunkKind {
        match self {
            Chunk::File(_) => ChunkKind::File,
            Chunk::Info(_) => ChunkKind::Info,
            Chunk::Segment(_) => ChunkKind::Segment,
            Chunk::Adlr(_) => ChunkKind::Adlr,
        }
    }

    pub open spec fn data(&self) -> ReadStream {
        match self {
            Chunk::File(s) => *s,
            Chunk::Info(s) => *s,
            Chunk::Segment(s) => *s,
            Chunk::Adlr(s) => *s,
        }
    }

    /// A chunk of kind `k` whose stream reads `body` from its start,
    /// little-endian.
    pub open spec fn holds(&self, k: ChunkKind, body: Seq<u8>) -> bool {
        &&& self.kind() == k
        &&& self.data().content() == body
        &&& self.data().cursor() == 0
        &&& self.data().le_order()
    }

    /// Reads a body of `size` bytes and names it by its tag; `None` when the
    /// body is incomplete or the tag unknown.
    pub fn guess(stream: &mut ReadStream, name: [u8; 4], size: u64) -> (r: Option<Chunk>)
        ensures
            old(stream).can_read(size as nat) ==> {
                &&& old(stream).moved_to(&*final(stream), old(stream).cursor() + size as nat)
                &&& match kind_of(name@) {
                    Some(k) => r is Some && r.unwrap().holds(k, old(stream).window(size as nat)),
                    None => r is None,
                }
            },
            !old(stream).can_read(size as nat) ==> r is None && *final(stream) == *old(stream),
    {
        let body = match create_stream(stream, size) {
            Some(x) => x,
            None => {
                return None;
            },
        };
        match tag_kind(&name) {
            Some(ChunkKind::File) => Some(Chunk::File(body)),
            Some(ChunkKind::Info) => Some(Chunk::Info(body)),
            Some(ChunkKind::Segment) => Some(Chunk::Segment(body)),
            Some(ChunkKind::Adlr) => Some(Chunk::Adlr(body)),
            None => None,
        }
    }
}

/// A little-endian stream over the next `size` bytes, which it consumes;
/// `None` when fewer remain.
pub fn create_stream(stream: &mut ReadStream, size: u64) -> (r: Option<ReadStream>)
    ensures
        old(stream).can_read(size as nat) ==> {
            &&& old(stream).moved_to(&*final(stream), old(stream).cursor() + size as nat)
            &&& r is Some
            &&& r.unwrap().content() == old(stream).window(size as nat)
            &&& r.unwrap().cursor() == 0
            &&& r.unwrap().le_order()
        },
        !old(stream).can_read(size as nat) ==> r is None && *final(stream) == *old(stream),
{
    if size > usize::MAX as u64 {
        proof {
            stream.lemma_content_fits();
        }
        return None;
    }
    let buffer = match stream.read_exact(size as usize) {
        Ok(x) => x,
        Err(_) => {
            return None;
        },
    };
    Some(ReadStream::new(buffer, true))
}

fn tag_kind(name: &[u8; 4]) -> (r: Option<ChunkKind>)
    ensures
        r == kind_of(name@),
{
    let n = *name;
    proof {
        assert(name@.len() == 4);
        assert(seq![name@[0], name@[1], name@[2], name@[3]] =~= name@);
    }
    if n[0] == 0x46 && n[1] == 0x69 && n[2] == 0x6c && n[3] == 0x65 {
        Some(ChunkKind::File)
    } else if n[0] == 0x69 && n[1] == 0x6e && n[2] == 0x66 && n[3] == 0x6f {
        Some(ChunkKind::Info)
    } else if n[0] == 0x73 && n[1] == 0x65 && n[2] == 0x67 && n[3] == 0x6d {
        Some(ChunkKind::Segment)
    } else if n[0] == 0x61 && n[1] == 0x64 && n[2] == 0x6c && n[3] == 0x72 {
        Some(ChunkKind::Adlr)
    } else {
        None
    }
}

/// The outcome of reading the next chunk header and body.
pub enum ChunkRead {
    Found(Chunk),
    /// The end of the sequence, an incomplete chunk or an unknown tag.
    End,
    /// The chunk declares more than `CHUNK_SIZE_LIMIT` bytes.
    Oversized,
}

/// Reads the next chunk, leaving the cursor after its body.
pub fn find_chunk(stream: &mut ReadStream) -> (r: ChunkRead)
    requires
        old(stream).le_order(),
    ensures
        final(stream).content() == old(stream).content(),
        final(stream).le_order(),
        match chunk_at(old(stream).content(), old(stream).cursor()) {
            ChunkAt::End => r is End,
            ChunkAt::Oversized => r is Oversized,
            ChunkAt::Found { tag, body, next } => match kind_of(tag) {
                Some(k) => final(stream).cursor() == next && match r {
                    ChunkRead::Found(c) => c.holds(k, body),
                    _ => false,
                },
                None => r is End,
            },
        },
{
    let ghost b = stream.content();
    let ghost p = stream.cursor();
    let name = match stream.read_exact(4) {
        Ok(x) => x,
        Err(_) => {
            return ChunkRead::End;
        },
    };
    let real_size = match stream.read_u64() {
        Ok(x) => x,
        Err(_) => {
            return ChunkRead::End;
        },
    };
    if real_size > CHUNK_SIZE_LIMIT {
        return ChunkRead::Oversized;
    }
    let tag: [u8; 4] = [name[0], name[1], name[2], name[3]];
    assert(tag@ =~= b.subrange(p as int, p + 4int));
    match Chunk::guess(stream, tag, real_size) {
        Some(c) => ChunkRead::Found(c),
        None => ChunkRead::End,
    }
}

/// The segment that record `i` of a `segm` body describes, placed at
/// `offset` in its file; its start is rebased by the archive's offset `base`.
pub open spec fn segment_at(body: Seq<u8>, base: u64, i: nat, offset: nat) -> ArchiveSegment {
    let r = 28 * i;
    ArchiveSegment {
        start: (le_at(body, r + 4int, 8) as u64).wrapping_add(base),
        offset: offset as u64,
        original_size: le_at(body, r + 12int, 8) as u64,
        archive_size: le_at(body, r + 20int, 8) as u64,
        compressed: le_at(body, r as int, 4) % 8 == 1,
    }
}

/// The segments of records `i..` of a `segm` body, after `acc`; `offset`
/// is the sum of the sizes before record `i`.
pub open spec fn segments_from(
    body: Seq<u8>,
    base: u64,
    i: nat,
    offset: nat,
    acc: Seq<ArchiveSegment>,
) -> Result<Seq<ArchiveSegment>, Xp3Error>
    decreases body.len() / 28 - i,
{
    if i >= body.len() / 28 {
        Ok(acc)
    } else if le_at(body, 28 * i as int, 4) % 8 > 1 {
        Err(Xp3Error::BadSegmentFlag)
    } else if offset + le_at(body, 28 * i + 12int, 8) > u64::MAX {
        Err(Xp3Error::OffsetOverflow)
    } else {
        segments_from(
            body,
            base,
            i + 1,
            offset + le_at(body, 28 * i + 12int, 8),
            acc.push(segment_at(body, base, i, offset)),
        )
    }
}

/// The segments that a `segm` body describes, each placed right after the
/// one before it; a partial record at the end is ignored.
pub open spec fn segments_of(body: Seq<u8>, base: u64) -> Result<Seq<ArchiveSegment>, Xp3Error> {
    segments_from(body, base, 0, 0, Seq::empty())
}

proof fn lemma_low_bits(x: u32)
    ensures
        x & 7 == x % 8,
{
    assert(x & 7 == x % 8) by (bit_vector);
}

impl ArchiveSegment {
    /// Reads every whole record of a `segm` body.
    pub fn find_all(segm_data: &mut ReadStream, start_offset: u64) -> (r: Result<
        Vec<ArchiveSegment>,
        Xp3Error,
    >)
        requires
            old(segm_data).cursor() == 0,
            old(segm_data).le_order(),
        ensures
            match segments_of(old(segm_data).content(), start_offset) {
                Ok(segs) => r is Ok && r.unwrap()@ == segs,
                Err(e) => r == Err::<Vec<ArchiveSegment>, Xp3Error>(e),
            },
    {
        let ghost body = segm_data.content();
        let count = segm_data.len() / SEGMENT_RECORD;
        let mut segments: Vec<ArchiveSegment> = Vec::new();
        let mut offset_in_archive: u64 = 0;
        let mut i: u64 = 0;
        while i < count
            invariant
                segm_data.content() == body,
                old(segm_data).content() == body,
                segm_data.le_order(),
                count == body.len() / 28,
                i <= count,
                segm_data.cursor() == 28 * i,
                segments_of(body, start_offset) == segments_from(
                    body,
                    start_offset,
                    i as nat,
                    offset_in_archive as nat,
                    segments@,
                ),
            decreases count - i,
        {
            proof {
                assert(28 * i + 28 <= body.len()) by (nonlinear_arith)
                    requires
                        i < count,
                        count == body.len() / 28,
                ;
            }
            let flags = match segm_data.read_u32() {
                Ok(x) => x,
                Err(_) => {
                    return Err(Xp3Error::Truncated);
                },
            };
            proof {
                lemma_low_bits(flags);
            }
            let mode = flags & 7;
            if mode > 1 {
                return Err(Xp3Error::BadSegmentFlag);
            }
            let stored_start = match segm_data.read_u64() {
                Ok(x) => x,
                Err(_) => {
                    return Err(Xp3Error::Truncated);
                },
            };
            let original_size = match segm_data.read_u64() {
                Ok(x) => x,
                Err(_) => {
                    return Err(Xp3Error::Truncated);
                },
            };
            let archive_size = match segm_data.read_u64() {
                Ok(x) => x,
                Err(_) => {
                    return Err(Xp3Error::Truncated);
                },
            };
            if original_size > u64::MAX - offset_in_archive {
                return Err(Xp3Error::OffsetOverflow);
            }
            let seg = ArchiveSegment {
                start: stored_start.wrapping_add(start_offset),
                offset: offset_in_archive,
                original_size,
                archive_size,
                compressed: mode == 1,
            };
            assert(seg == segment_at(body, start_offset, i as nat, offset_in_archive as nat));
            segments.push(seg);
            offset_in_archive = offset_in_archive + original_size;
            i = i + 1;
        }
        Ok(segments)
    }
}

/// The fields of an `info` body.
pub struct InfoView {
    pub flags: u32,
    pub original_size: u64,
    pub archive_size: u64,
    pub name: Seq<char>,
}

/// An `info` body: flags (u32), original size (u64), stored size (u64), the
/// name's length in code units (u16), then the name in UTF-16LE. The name is
/// shortened when too long for a file system.
pub open spec fn info_of(body: Seq<u8>) -> Result<InfoView, Xp3Error> {
    if body.len() < 22 {
        Err(Xp3Error::Truncated)
    } else {
        let n = le_at(body, 20, 2);
        if 22 + 2 * n > body.len() {
            Err(Xp3Error::Truncated)
        } else {
            match decode_utf16(utf16_units(body.subrange(22, 22 + 2 * n as int))) {
                None => Err(Xp3Error::InvalidName),
                Some(chars) => Ok(
                    InfoView {
                        flags: le_at(body, 0, 4) as u32,
                        original_size: le_at(body, 4, 8) as u64,
                        archive_size: le_at(body, 12, 8) as u64,
                        name: shortened_name(chars),
                    },
                ),
            }
        }
    }
}

/// The protected flag is the top bit of an item's flags.
pub open spec fn is_protected(flags: u32) -> bool {
    flags >= 0x8000_0000
}

/// The fields of an item as parsing leaves them before any sub-chunk is read.
pub open spec fn empty_item() -> ItemView {
    ItemView {
        name: Seq::empty(),
        file_hash: 0,
        original_size: 0,
        archive_size: 0,
        segments: Seq::empty(),
    }
}

/// An item under construction, and which sub-chunks it has met.
pub struct Pending {
    pub item: ItemView,
    pub has_info: bool,
    pub has_segments: bool,
    pub has_hash: bool,
}

pub open spec fn initial_pending() -> Pending {
    Pending { item: empty_item(), has_info: false, has_segments: false, has_hash: false }
}

/// How the scan of a `File` body ends.
pub enum FileEnd {
    /// All three sub-chunks were met and there is at least one segment.
    Complete(ItemView),
    /// A sub-chunk is missing, or no segment was described.
    Incomplete,
    /// A sub-chunk declares more than `CHUNK_SIZE_LIMIT` bytes.
    Oversized,
}

pub open spec fn finish(st: Pending) -> FileEnd {
    if st.has_info && st.has_segments && st.has_hash && st.item.segments.len() > 0 {
        FileEnd::Complete(st.item)
    } else {
        FileEnd::Incomplete
    }
}

/// Reads at most `k` more sub-chunks of a `File` body from `p`, in any order;
/// the end of the body or an unknown tag ends the scan. Later sub-chunks of a
/// kind replace earlier ones. `ws` are the warnings so far.
pub open spec fn scan_file(
    b: Seq<u8>,
    p: nat,
    base: u64,
    k: nat,
    st: Pending,
    ws: Seq<Xp3Warning>,
) -> Result<(FileEnd, Seq<Xp3Warning>), Xp3Error>
    decreases k,
{
    if k == 0 {
        Ok((finish(st), ws))
    } else {
        match chunk_at(b, p) {
            ChunkAt::End => Ok((finish(st), ws)),
            ChunkAt::Oversized => Ok((FileEnd::Oversized, ws)),
            ChunkAt::Found { tag, body, next } => match kind_of(tag) {
                None => Ok((finish(st), ws)),
                Some(ChunkKind::File) => Err(Xp3Error::NestedFile),
                Some(ChunkKind::Info) => match info_of(body) {
                    Err(e) => Err(e),
                    Ok(info) => scan_file(
                        b,
                        next,
                        base,
                        (k - 1) as nat,
                        Pending {
                            item: ItemView {
                                name: info.name,
                                original_size: info.original_size,
                                archive_size: info.archive_size,
                                ..st.item
                            },
                            has_info: true,
                            ..st
                        },
                        if is_protected(info.flags) {
                            ws.push(Xp3Warning::Protected)
                        } else {
                            ws
                        },
                    ),
                },
                Some(ChunkKind::Segment) => match segments_of(body, base) {
                    Err(e) => Err(e),
                    Ok(segs) => scan_file(
                        b,
                        next,
                        base,
                        (k - 1) as nat,
                        Pending { item: ItemView { segments: segs, ..st.item }, has_segments: true, ..st },
                        if body.len() % 28 != 0 {
                            ws.push(Xp3Warning::SegmentSizeNotMultiple)
                        } else {
                            ws
                        },
                    ),
                },
                Some(ChunkKind::Adlr) => if body.len() < 4 {
                    Err(Xp3Error::Truncated)
                } else {
                    scan_file(
                        b,
                        next,
                        base,
                        (k - 1) as nat,
                        Pending {
                            item: ItemView { file_hash: le_at(body, 0, 4) as u32, ..st.item },
                            has_hash: true,
                            ..st
                        },
                        ws,
                    )
                },
            },
        }
    }
}

/// A `File` body holds at most three sub-chunks.
pub open spec fn file_scan(b: Seq<u8>, base: u64, ws: Seq<Xp3Warning>) -> Result<
    (FileEnd, Seq<Xp3Warning>),
    Xp3Error,
> {
    scan_file(b, 0, base, 3, initial_pending(), ws)
}

/// How reading one `File` body ended.
pub enum ItemScan {
    Complete(ArchiveItem),
    Incomplete,
    Oversized,
}

pub open spec fn scan_matches(r: &ItemScan, end: FileEnd) -> bool {
    match (r, end) {
        (ItemScan::Complete(it), FileEnd::Complete(v)) => it@ == v,
        (ItemScan::Incomplete, FileEnd::Incomplete) => true,
        (ItemScan::Oversized, FileEnd::Oversized) => true,
        _ => false,
    }
}

fn finish_item(item: ArchiveItem, has_info: bool, has_segments: bool, has_hash: bool) -> (r: ItemScan)
    ensures
        scan_matches(&r, finish(Pending { item: item@, has_info, has_segments, has_hash })),
{
    if has_info && has_segments && has_hash && item.segments.len() > 0 {
        ItemScan::Complete(item)
    } else {
        ItemScan::Incomplete
    }
}

impl ArchiveItem {
    /// Reads the sub-chunks of a `File` body into an item, appending the
    /// warnings met to `warnings`.
    pub fn new(file_data: &mut ReadStream, start_offset: u64, warnings: &mut Vec<Xp3Warning>) -> (r:
        Result<ItemScan, Xp3Error>)
        requires
            old(file_data).cursor() == 0,
            old(file_data).le_order(),
        ensures
            match file_scan(old(file_data).content(), start_offset, old(warnings)@) {
                Ok((end, ws)) => r is Ok && scan_matches(&r.unwrap(), end) && final(warnings)@ == ws,
                Err(e) => r == Err::<ItemScan, Xp3Error>(e),
            },
    {
        let ghost b = file_data.content();
        let mut item = ArchiveItem {
            name: String::new(),
            file_hash: 0,
            original_size: 0,
            archive_size: 0,
            segments: Vec::new(),
        };
        let mut has_info = false;
        let mut has_segments = false;
        let mut has_hash = false;
        let mut k: usize = 0;
        assert(item@ =~= empty_item());
        while k < 3
            invariant
                file_data.content() == b,
                old(file_data).content() == b,
                file_data.le_order(),
                k <= 3,
                file_scan(b, start_offset, old(warnings)@) == scan_file(
                    b,
                    file_data.cursor(),
                    start_offset,
                    (3 - k) as nat,
                    Pending { item: item@, has_info, has_segments, has_hash },
                    warnings@,
                ),
            decreases 3 - k,
        {
            match find_chunk(file_data) {
                ChunkRead::End => {
                    return Ok(finish_item(item, has_info, has_segments, has_hash));
                },
                ChunkRead::Oversized => {
                    return Ok(ItemScan::Oversized);
                },
                ChunkRead::Found(chunk) => match chunk {
                    Chunk::Info(mut info_data) => {
                        let protected = item.read_info(&mut info_data)?;
                        if protected {
                            warnings.push(Xp3Warning::Protected);
                        }
                        has_info = true;
                    },
                    Chunk::Segment(mut segm_data) => {
                        if segm_data.len() % SEGMENT_RECORD != 0 {
                            warnings.push(Xp3Warning::SegmentSizeNotMultiple);
                        }
                        let segments = ArchiveSegment::find_all(&mut segm_data, start_offset)?;
                        item.segments = segments;
                        has_segments = true;
                    },
                    Chunk::Adlr(mut adlr_data) => {
                        let hash = match adlr_data.read_u32() {
                            Ok(x) => x,
                            Err(_) => {
                                return Err(Xp3Error::Truncated);
                            },
                        };
                        item.file_hash = hash;
                        has_hash = true;
                    },
                    Chunk::File(_) => {
                        return Err(Xp3Error::NestedFile);
                    },
                },
            }
            k = k + 1;
        }
        Ok(finish_item(item, has_info, has_segments, has_hash))
    }

    /// Reads an `info` body into the item's name and sizes; tells whether the
    /// item is protected.
    pub fn read_info(&mut self, info_data: &mut ReadStream) -> (r: Result<bool, Xp3Error>)
        requires
            old(info_data).cursor() == 0,
            old(info_data).le_order(),
        ensures
            match info_of(old(info_data).content()) {
                Ok(info) => r == Ok::<bool, Xp3Error>(is_protected(info.flags)) && final(self)@ == (
                ItemView {
                    name: info.name,
                    original_size: info.original_size,
                    archive_size: info.archive_size,
                    ..old(self)@
                }),
                Err(e) => r == Err::<bool, Xp3Error>(e),
            },
    {
        let ghost b = info_data.content();
        let item_flags = match info_data.read_u32() {
            Ok(x) => x,
            Err(_) => {
                return Err(Xp3Error::Truncated);
            },
        };
        let original_size = match info_data.read_u64() {
            Ok(x) => x,
            Err(_) => {
                return Err(Xp3Error::Truncated);
            },
        };
        let archive_size = match info_data.read_u64() {
            Ok(x) => x,
            Err(_) => {
                return Err(Xp3Error::Truncated);
            },
        };
        let utf16_len = match info_data.read_u16() {
            Ok(x) => x,
            Err(_) => {
                return Err(Xp3Error::Truncated);
            },
        };
        let name = match info_data.read_utf16(utf16_len as usize) {
            Ok(x) => x,
            Err(StreamError::InvalidData) => {
                return Err(Xp3Error::InvalidName);
            },
            Err(_) => {
                return Err(Xp3Error::Truncated);
            },
        };
        self.original_size = original_size;
        self.archive_size = archive_size;
        self.name = shorten_name(name);
        Ok(item_flags >= 0x8000_0000)
    }
}

/// The items of a vector, as values.
pub open spec fn views(v: Seq<ArchiveItem>) -> Seq<ItemView> {
    v.map_values(|it: ArchiveItem| it@)
}

/// Scans the top level of an index body from `p`: `File` chunks, one after
/// another, until the body ends or another chunk stands there. Complete items
/// are appended to `items`, incomplete ones skipped with a warning. The flag
/// in the result tells that an oversized chunk cut the scan short.
pub open spec fn scan_index(
    b: Seq<u8>,
    p: nat,
    base: u64,
    items: Seq<ItemView>,
    ws: Seq<Xp3Warning>,
) -> Result<(Seq<ItemView>, Seq<Xp3Warning>, bool), Xp3Error>
    decreases b.len() - p,
{
    match chunk_at(b, p) {
        ChunkAt::End => Ok((items, ws, false)),
        ChunkAt::Oversized => Ok((items, ws.push(Xp3Warning::OversizedChunk), true)),
        ChunkAt::Found { tag, body, next } => if kind_of(tag) != Some(ChunkKind::File) {
            Ok((items, ws, false))
        } else {
            match file_scan(body, base, ws) {
                Err(e) => Err(e),
                Ok((FileEnd::Complete(it), ws2)) => scan_index(b, next, base, items.push(it), ws2),
                Ok((FileEnd::Incomplete, ws2)) => scan_index(
                    b,
                    next,
                    base,
                    items,
                    ws2.push(Xp3Warning::MissingSubChunk),
                ),
                Ok((FileEnd::Oversized, ws2)) => Ok(
                    (items, ws2.push(Xp3Warning::OversizedChunk), true),
                ),
            }
        },
    }
}

/// Reads the `File` chunks of an index body from the cursor on, appending
/// complete items to `items` and warnings to `warnings`. Returns whether an
/// oversized chunk cut the scan short.
pub fn scan_entry(
    entry_data: &mut ReadStream,
    start_offset: u64,
    items: &mut Vec<ArchiveItem>,
    warnings: &mut Vec<Xp3Warning>,
) -> (r: Result<bool, Xp3Error>)
    requires
        old(entry_data).le_order(),
    ensures
        match scan_index(
            old(entry_data).content(),
            old(entry_data).cursor(),
            start_offset,
            views(old(items)@),
            old(warnings)@,
        ) {
            Ok((its, ws, stopped)) => r == Ok::<bool, Xp3Error>(stopped) && views(final(items)@) == its
                && final(warnings)@ == ws,
            Err(e) => r == Err::<bool, Xp3Error>(e),
        },
{
    let ghost b = entry_data.content();
    loop
        invariant
            entry_data.content() == b,
            old(entry_data).content() == b,
            entry_data.le_order(),
            scan_index(b, old(entry_data).cursor(), start_offset, views(old(items)@), old(warnings)@)
                == scan_index(b, entry_data.cursor(), start_offset, views(items@), warnings@),
        decreases b.len() - entry_data.cursor(),
    {
        let ghost p = entry_data.cursor();
        match find_chunk(entry_data) {
            ChunkRead::Found(Chunk::File(mut file_data)) => {
                match ArchiveItem::new(&mut file_data, start_offset, warnings)? {
                    ItemScan::Complete(item) => {
                        let ghost before = items@;
                        items.push(item);
                        assert(views(items@) =~= views(before).push(items@.last()@));
                    },
                    ItemScan::Incomplete => {
                        warnings.push(Xp3Warning::MissingSubChunk);
                    },
                    ItemScan::Oversized => {
                        warnings.push(Xp3Warning::OversizedChunk);
                        return Ok(true);
                    },
                }
            },
            ChunkRead::Found(_) => {
                return Ok(false);
            },
            ChunkRead::End => {
                return Ok(false);
            },
            ChunkRead::Oversized => {
                warnings.push(Xp3Warning::OversizedChunk);
                return Ok(true);
            },
        }
    }
}

} // verus!
