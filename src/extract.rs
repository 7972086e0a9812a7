//! Reconstructing the logical files of an archive from their segments.
use vstd::prelude::*;

use crate::archive::{ArchiveItem, ArchiveSegment, ExtractedFile, Extraction, ItemView, Xp3Error};
use crate::chunk::views;
use crate::index::{archive_listing, load_items};
use crate::inflate::{inflate_exact, inflate_outcome, zlib_inflated};
use crate::stream::{ReadStream, SeekFrom};

verus! {

/// The start of an item's first segment: the key that orders extraction.
pub open spec fn first_start(it: ItemView) -> u64 {
    if it.segments.len() > 0 {
        it.segments[0].start
    } else {
        0
    }
}

/// `order` lists every index of `items` once, by ascending start of the first
/// segment, items with equal starts in their listed order. Exactly one
/// sequence meets this for given items.
pub open spec fn is_start_order(items: Seq<ItemView>, order: Seq<int>) -> bool {
    &&& order.len() == items.len()
    &&& forall|j: int| 0 <= j < order.len() ==> 0 <= #[trigger] order[j] < items.len()
    &&& forall|j1: int, j2: int|
        #![trigger order[j1], order[j2]]
        0 <= j1 < j2 < order.len() ==> {
            let a = first_start(items[order[j1]]);
            let b = first_start(items[order[j2]]);
            a < b || (a == b && order[j1] < order[j2])
        }
}

pub open spec fn pair_le(a: (u64, usize), b: (u64, usize)) -> bool {
    a.0 < b.0 || (a.0 == b.0 && a.1 <= b.1)
}

/// Relies on `slice::sort`: it arranges the same pairs in ascending order,
/// where tuples compare by their first field, then their second.
#[verifier::external_body]
fn sort_pairs(v: &mut Vec<(u64, usize)>)
    ensures
        final(v)@.to_multiset() == old(v)@.to_multiset(),
        forall|i: int, j: int| 0 <= i < j < final(v)@.len() ==> pair_le(final(v)@[i], final(v)@[j]),
{
    v.sort();
}

/// The order in which the items are extracted: by the start of their first
/// segment, which reads the input roughly front to back.
pub fn start_order(items: &Vec<ArchiveItem>) -> (r: Vec<usize>)
    ensures
        is_start_order(views(items@), r@.map_values(|i: usize| i as int)),
{
    let ghost vs = views(items@);
    let n = items.len();
    let mut pairs: Vec<(u64, usize)> = Vec::with_capacity(n);
    let mut i: usize = 0;
    while i < n
        invariant
            n == items@.len(),
            vs == views(items@),
            i <= n,
            pairs@.len() == i,
            forall|k: int| 0 <= k < i ==> #[trigger] pairs@[k] == (first_start(vs[k]), k as usize),
        decreases n - i,
    {
        let key = if items[i].segments.len() > 0 {
            items[i].segments[0].start
        } else {
            0
        };
        pairs.push((key, i));
        i = i + 1;
    }
    let ghost before = pairs@;
    assert(before.no_duplicates()) by {
        assert forall|a: int, b: int| 0 <= a < before.len() && 0 <= b < before.len() && a != b implies before[a]
            != before[b] by {
            assert(before[a].1 == a as usize);
            assert(before[b].1 == b as usize);
        }
    }
    sort_pairs(&mut pairs);
    let ghost after = pairs@;
    proof {
        before.lemma_multiset_has_no_duplicates();
        after.lemma_multiset_has_no_duplicates_conv();
        assert(after.len() == before.len()) by {
            before.to_multiset_ensures();
            after.to_multiset_ensures();
        }
        assert forall|j: int| 0 <= j < after.len() implies exists|k: int|
            0 <= k < before.len() && #[trigger] after[j] == before[k] by {
            after.to_multiset_ensures();
            before.to_multiset_ensures();
            assert(after.contains(after[j]));
            assert(before.to_multiset().count(after[j]) > 0);
            assert(before.contains(after[j]));
        }
    }
    let mut order: Vec<usize> = Vec::with_capacity(n);
    let mut j: usize = 0;
    while j < n
        invariant
            n == after.len(),
            pairs@ == after,
            j <= n,
            order@.len() == j,
            forall|k: int| 0 <= k < j ==> #[trigger] order@[k] == after[k].1,
        decreases n - j,
    {
        order.push(pairs[j].1);
        j = j + 1;
    }
    let ghost o = order@.map_values(|x: usize| x as int);
    assert forall|j: int| 0 <= j < o.len() implies 0 <= #[trigger] o[j] < vs.len() && first_start(
        vs[o[j]],
    ) == after[j].0 by {
        let k = choose|k: int| 0 <= k < before.len() && after[j] == before[k];
        assert(after[j] == before[k]);
    }
    assert forall|j1: int, j2: int| #![trigger o[j1], o[j2]] 0 <= j1 < j2 < o.len() implies {
        let a = first_start(vs[o[j1]]);
        let b = first_start(vs[o[j2]]);
        a < b || (a == b && o[j1] < o[j2])
    } by {
        assert(pair_le(after[j1], after[j2]));
        assert(after[j1] != after[j2]);
        assert(0 <= o[j1] < vs.len() && first_start(vs[o[j1]]) == after[j1].0);
        assert(0 <= o[j2] < vs.len() && first_start(vs[o[j2]]) == after[j2].0);
    }
    order
}

/// The bytes a segment contributes: its stored bytes, inflated when
/// compressed.
pub open spec fn segment_payload(d: Seq<u8>, seg: ArchiveSegment) -> Result<Seq<u8>, Xp3Error> {
    if seg.compressed {
        if seg.start + seg.archive_size > d.len() {
            Err(Xp3Error::Truncated)
        } else {
            inflate_outcome(
                zlib_inflated(d.subrange(seg.start as int, seg.start + seg.archive_size)),
                seg.original_size as nat,
            )
        }
    } else {
        if seg.start + seg.original_size > d.len() {
            Err(Xp3Error::Truncated)
        } else {
            Ok(d.subrange(seg.start as int, seg.start + seg.original_size))
        }
    }
}

/// A file after `bytes` are written at `offset`: it grows to cover them,
/// with zeros in any gap, and keeps its other bytes.
pub open spec fn write_at(file: Seq<u8>, offset: nat, bytes: Seq<u8>) -> Seq<u8> {
    let end = offset + bytes.len();
    let len = if file.len() > end {
        file.len()
    } else {
        end
    };
    Seq::new(
        len as nat,
        |i: int|
            if offset <= i < end {
                bytes[i - offset]
            } else if i < file.len() {
                file[i]
            } else {
                0u8
            },
    )
}

/// Writes the payloads of segments `i..` into `file`, in segment order.
pub open spec fn contents_from(d: Seq<u8>, segs: Seq<ArchiveSegment>, i: nat, file: Seq<u8>) -> Result<
    Seq<u8>,
    Xp3Error,
>
    decreases segs.len() - i,
{
    if i >= segs.len() {
        Ok(file)
    } else {
        match segment_payload(d, segs[i as int]) {
            Err(e) => Err(e),
            Ok(p) => if segs[i as int].offset + p.len() > usize::MAX {
                Err(Xp3Error::OffsetOverflow)
            } else {
                contents_from(d, segs, i + 1, write_at(file, segs[i as int].offset as nat, p))
            },
        }
    }
}

/// The reconstructed contents of a file with the given segments.
pub open spec fn item_contents(d: Seq<u8>, segs: Seq<ArchiveSegment>) -> Result<Seq<u8>, Xp3Error> {
    contents_from(d, segs, 0, Seq::empty())
}

fn write_bytes_at(file: &mut Vec<u8>, offset: usize, bytes: &Vec<u8>)
    requires
        offset + bytes@.len() <= usize::MAX,
    ensures
        final(file)@ == write_at(old(file)@, offset as nat, bytes@),
{
    let ghost original = file@;
    while file.len() < offset
        invariant
            file@.len() >= original.len(),
            file@.len() <= offset || file@.len() == original.len(),
            offset + bytes@.len() <= usize::MAX,
            forall|k: int| 0 <= k < file@.len() ==> #[trigger] file@[k] == (if k < original.len() {
                original[k]
            } else {
                0u8
            }),
        decreases offset - file@.len(),
    {
        file.push(0);
    }
    let ghost grown = file@;
    assert(grown =~= write_at(original, offset as nat, bytes@.take(0)));
    let n = bytes.len();
    let mut i: usize = 0;
    while i < n
        invariant
            n == bytes@.len(),
            offset + n <= usize::MAX,
            i <= n,
            file@ == write_at(original, offset as nat, bytes@.take(i as int)),
        decreases n - i,
    {
        let ghost prev = file@;
        if offset + i < file.len() {
            file.set(offset + i, bytes[i]);
        } else {
            file.push(bytes[i]);
        }
        i = i + 1;
        assert(file@ =~= write_at(original, offset as nat, bytes@.take(i as int)));
    }
    assert(bytes@.take(n as int) =~= bytes@);
}

/// Reads the payload of one segment from the input.
fn read_segment(stream: &mut ReadStream, segment: &ArchiveSegment) -> (r: Result<Vec<u8>, Xp3Error>)
    ensures
        final(stream).content() == old(stream).content(),
        final(stream).le_order() == old(stream).le_order(),
        match segment_payload(old(stream).content(), *segment) {
            Ok(p) => r is Ok && r.unwrap()@ == p,
            Err(e) => r is Err && r->Err_0 == e,
        },
{
    proof {
        stream.lemma_content_fits();
    }
    let _ = stream.seek(SeekFrom::Start(segment.start));
    let size = if segment.compressed {
        segment.archive_size
    } else {
        segment.original_size
    };
    if size > usize::MAX as u64 {
        return Err(Xp3Error::Truncated);
    }
    let stored = match stream.read_exact(size as usize) {
        Ok(x) => x,
        Err(_) => {
            return Err(Xp3Error::Truncated);
        },
    };
    if segment.compressed {
        inflate_exact(&stored, segment.original_size)
    } else {
        Ok(stored)
    }
}

/// Reconstructs one logical file: each segment's payload is placed at the
/// segment's offset, in segment order.
pub fn extract_item(stream: &mut ReadStream, item: &ArchiveItem) -> (r: Result<Vec<u8>, Xp3Error>)
    ensures
        final(stream).content() == old(stream).content(),
        final(stream).le_order() == old(stream).le_order(),
        match item_contents(old(stream).content(), item.segments@) {
            Ok(c) => r is Ok && r.unwrap()@ == c,
            Err(e) => r is Err && r->Err_0 == e,
        },
{
    let ghost d = stream.content();
    let mut file: Vec<u8> = Vec::new();
    let n = item.segments.len();
    let mut i: usize = 0;
    assert(file@ =~= Seq::<u8>::empty());
    while i < n
        invariant
            n == item.segments@.len(),
            i <= n,
            stream.content() == d,
            old(stream).content() == d,
            stream.le_order() == old(stream).le_order(),
            item_contents(d, item.segments@) == contents_from(d, item.segments@, i as nat, file@),
        decreases n - i,
    {
        let segment = item.segments[i];
        let payload = read_segment(stream, &segment)?;
        if segment.offset > usize::MAX as u64 || payload.len() > usize::MAX - segment.offset as usize {
            return Err(Xp3Error::OffsetOverflow);
        }
        write_bytes_at(&mut file, segment.offset as usize, &payload);
        i = i + 1;
    }
    Ok(file)
}

/// The names and contents of the items taken in `order`, from position `j`
/// on, after `acc`; the first item that cannot be reconstructed ends it.
pub open spec fn files_in_order(
    d: Seq<u8>,
    items: Seq<ItemView>,
    order: Seq<int>,
    j: nat,
    acc: Seq<(Seq<char>, Seq<u8>)>,
) -> Result<Seq<(Seq<char>, Seq<u8>)>, Xp3Error>
    decreases order.len() - j,
{
    if j >= order.len() {
        Ok(acc)
    } else {
        match item_contents(d, items[order[j as int]].segments) {
            Err(e) => Err(e),
            Ok(c) => files_in_order(
                d,
                items,
                order,
                j + 1,
                acc.push((items[order[j as int]].name, c)),
            ),
        }
    }
}

/// The extracted files as names and contents.
pub open spec fn file_views(files: Seq<ExtractedFile>) -> Seq<(Seq<char>, Seq<u8>)> {
    files.map_values(|f: ExtractedFile| (f.name@, f.contents@))
}

/// What extracting the input `d` yields: nothing when it holds no archive;
/// otherwise every listed item, reconstructed in start order, with the
/// warnings met while listing them.
pub open spec fn extraction_of(d: Seq<u8>, order: Seq<int>) -> Result<
    (Seq<(Seq<char>, Seq<u8>)>, Seq<crate::archive::Xp3Warning>),
    Xp3Error,
> {
    match archive_listing(d) {
        Err(e) => Err(e),
        Ok((items, ws)) => match files_in_order(d, items, order, 0, Seq::empty()) {
            Err(e) => Err(e),
            Ok(fs) => Ok((fs, ws)),
        },
    }
}

/// The order in which extraction takes the items that `d` lists.
pub open spec fn listed_in_start_order(d: Seq<u8>, order: Seq<int>) -> bool {
    match archive_listing(d) {
        Ok((items, _)) => is_start_order(items, order),
        Err(_) => order.len() == 0,
    }
}

/// Extracts every logical file of the archive that the stream holds.
pub fn flare(stream: &mut ReadStream) -> (r: Result<Extraction, Xp3Error>)
    ensures
        exists|order: Seq<int>|
            {
                &&& listed_in_start_order(old(stream).content(), order)
                &&& match extraction_of(old(stream).content(), order) {
                    Ok((fs, ws)) => r is Ok && file_views(r.unwrap().files@) == fs
                        && r.unwrap().warnings@ == ws,
                    Err(e) => r is Err && r->Err_0 == e,
                }
            },
{
    let ghost d = stream.content();
    let (items, warnings) = match load_items(stream) {
        Ok(x) => x,
        Err(e) => {
            assert(listed_in_start_order(d, Seq::empty()));
            return Err(e);
        },
    };
    let ghost vs = views(items@);
    let order = start_order(&items);
    let ghost o = order@.map_values(|x: usize| x as int);
    let mut files: Vec<ExtractedFile> = Vec::new();
    let n = order.len();
    let mut j: usize = 0;
    assert(file_views(files@) =~= Seq::<(Seq<char>, Seq<u8>)>::empty());
    while j < n
        invariant
            n == o.len(),
            o == order@.map_values(|x: usize| x as int),
            vs == views(items@),
            is_start_order(vs, o),
            j <= n,
            stream.content() == d,
            old(stream).content() == d,
            archive_listing(d) == Ok::<(Seq<ItemView>, Seq<crate::archive::Xp3Warning>), Xp3Error>(
                (vs, warnings@),
            ),
            files_in_order(d, vs, o, 0, Seq::empty()) == files_in_order(
                d,
                vs,
                o,
                j as nat,
                file_views(files@),
            ),
        decreases n - j,
    {
        let k = order[j];
        assert(o[j as int] == k as int);
        let contents = match extract_item(stream, &items[k]) {
            Ok(c) => c,
            Err(e) => {
                assert(listed_in_start_order(d, o));
                return Err(e);
            },
        };
        let ghost before = files@;
        files.push(ExtractedFile { name: items[k].name.clone(), contents });
        assert(file_views(files@) =~= file_views(before).push((vs[k as int].name, contents@)));
        j = j + 1;
    }
    assert(listed_in_start_order(d, o));
    Ok(Extraction { files, warnings })
}

} // verus!
