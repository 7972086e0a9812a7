use std::io::Write;

use xp3_flare::archive::{Extraction, Xp3Error, Xp3Warning};
use xp3_flare::extract::flare;
use xp3_flare::formats::{guess_format, Format, XP3Archive};
use xp3_flare::stream::ReadStream;

const MAGIC: [u8; 11] = [0x58, 0x50, 0x33, 0x0d, 0x0a, 0x20, 0x0a, 0x1a, 0x8b, 0x67, 0x01];

fn chunk(tag: &[u8; 4], body: &[u8]) -> Vec<u8> {
    let mut out = tag.to_vec();
    out.extend_from_slice(&(body.len() as u64).to_le_bytes());
    out.extend_from_slice(body);
    out
}

fn info(flags: u32, original: u64, stored: u64, name: &str) -> Vec<u8> {
    let units: Vec<u16> = name.encode_utf16().collect();
    let mut body = Vec::new();
    body.extend_from_slice(&flags.to_le_bytes());
    body.extend_from_slice(&original.to_le_bytes());
    body.extend_from_slice(&stored.to_le_bytes());
    body.extend_from_slice(&(units.len() as u16).to_le_bytes());
    for u in units {
        body.extend_from_slice(&u.to_le_bytes());
    }
    chunk(b"info", &body)
}

fn segm(records: &[(u32, u64, u64, u64)]) -> Vec<u8> {
    let mut body = Vec::new();
    for &(flags, start, original, stored) in records {
        body.extend_from_slice(&flags.to_le_bytes());
        body.extend_from_slice(&start.to_le_bytes());
        body.extend_from_slice(&original.to_le_bytes());
        body.extend_from_slice(&stored.to_le_bytes());
    }
    chunk(b"segm", &body)
}

fn adlr(hash: u32) -> Vec<u8> {
    chunk(b"adlr", &hash.to_le_bytes())
}

fn file_chunk(parts: &[Vec<u8>]) -> Vec<u8> {
    let body: Vec<u8> = parts.concat();
    chunk(b"File", &body)
}

fn zlib(data: &[u8]) -> Vec<u8> {
    let mut enc = flate2::write::ZlibEncoder::new(Vec::new(), flate2::Compression::default());
    enc.write_all(data).unwrap();
    enc.finish().unwrap()
}

/// Magic, the stored offset of the first entry, the payload, then one raw
/// index entry with the given flag holding `index`.
fn archive(payload: &[u8], index: &[u8], flag: u8) -> Vec<u8> {
    let mut out = MAGIC.to_vec();
    let entry = 11 + 8 + payload.len() as u64;
    out.extend_from_slice(&entry.to_le_bytes());
    out.extend_from_slice(payload);
    out.push(flag);
    out.extend_from_slice(&(index.len() as u64).to_le_bytes());
    out.extend_from_slice(index);
    out
}

fn run(bytes: Vec<u8>) -> Result<Extraction, Xp3Error> {
    let mut stream = ReadStream::new(bytes, true);
    flare(&mut stream)
}

fn names_and_contents(ex: &Extraction) -> Vec<(String, Vec<u8>)> {
    ex.files.iter().map(|f| (f.name.clone(), f.contents.clone())).collect()
}

fn minimal() -> Vec<u8> {
    let index = file_chunk(&[info(0, 5, 5, "a.txt"), segm(&[(0, 19, 5, 5)]), adlr(0)]);
    archive(b"hello", &index, 0x00)
}

#[test]
fn minimal_raw_archive() {
    let ex = run(minimal()).unwrap();
    assert_eq!(names_and_contents(&ex), vec![("a.txt".to_string(), b"hello".to_vec())]);
    assert!(ex.warnings.is_empty());
}

#[test]
fn two_segment_file() {
    // "lo" is stored first, "hel" after it.
    let index = file_chunk(&[
        info(0, 5, 5, "a.txt"),
        segm(&[(0, 21, 3, 3), (0, 19, 2, 2)]),
        adlr(0),
    ]);
    let ex = run(archive(b"lohel", &index, 0x00)).unwrap();
    assert_eq!(names_and_contents(&ex), vec![("a.txt".to_string(), b"hello".to_vec())]);
}

#[test]
fn compressed_segment() {
    let packed = zlib(b"hello");
    let n = packed.len() as u64;
    let index = file_chunk(&[info(0, 5, n, "a.txt"), segm(&[(1, 19, 5, n)]), adlr(0)]);
    let ex = run(archive(&packed, &index, 0x00)).unwrap();
    assert_eq!(names_and_contents(&ex), vec![("a.txt".to_string(), b"hello".to_vec())]);
}

#[test]
fn compressed_index() {
    let index = file_chunk(&[info(0, 5, 5, "a.txt"), segm(&[(0, 19, 5, 5)]), adlr(0)]);
    let packed = zlib(&index);
    let mut bytes = MAGIC.to_vec();
    bytes.extend_from_slice(&24u64.to_le_bytes());
    bytes.extend_from_slice(b"hello");
    bytes.push(0x01);
    bytes.extend_from_slice(&(packed.len() as u64).to_le_bytes());
    bytes.extend_from_slice(&(index.len() as u64).to_le_bytes());
    bytes.extend_from_slice(&packed);
    let ex = run(bytes).unwrap();
    assert_eq!(names_and_contents(&ex), vec![("a.txt".to_string(), b"hello".to_vec())]);
}

/// Two linked raw entries, each listing one file.
fn chained(first_flag: u8) -> Vec<u8> {
    let first = file_chunk(&[info(0, 1, 1, "a.txt"), segm(&[(0, 19, 1, 1)]), adlr(0)]);
    let second = file_chunk(&[info(0, 1, 1, "b.txt"), segm(&[(0, 20, 1, 1)]), adlr(0)]);
    let mut bytes = MAGIC.to_vec();
    bytes.extend_from_slice(&21u64.to_le_bytes());
    bytes.extend_from_slice(b"ab");
    bytes.push(first_flag);
    bytes.extend_from_slice(&(first.len() as u64).to_le_bytes());
    bytes.extend_from_slice(&first);
    let second_at = bytes.len() as u64 + 8;
    bytes.extend_from_slice(&second_at.to_le_bytes());
    bytes.push(0x00);
    bytes.extend_from_slice(&(second.len() as u64).to_le_bytes());
    bytes.extend_from_slice(&second);
    bytes
}

#[test]
fn continuation() {
    let ex = run(chained(0x80)).unwrap();
    assert_eq!(
        names_and_contents(&ex),
        vec![("a.txt".to_string(), b"a".to_vec()), ("b.txt".to_string(), b"b".to_vec())]
    );
}

#[test]
fn continuation_bit_clear_stops_after_first_index() {
    let ex = run(chained(0x00)).unwrap();
    assert_eq!(names_and_contents(&ex), vec![("a.txt".to_string(), b"a".to_vec())]);
}

#[test]
fn split_index_gives_same_output() {
    let a = file_chunk(&[info(0, 1, 1, "a.txt"), segm(&[(0, 19, 1, 1)]), adlr(0)]);
    let b = file_chunk(&[info(0, 1, 1, "b.txt"), segm(&[(0, 20, 1, 1)]), adlr(0)]);
    let mut both = a.clone();
    both.extend_from_slice(&b);
    let single = run(archive(b"ab", &both, 0x00)).unwrap();
    let linked = run(chained(0x80)).unwrap();
    assert_eq!(names_and_contents(&single), names_and_contents(&linked));
}

fn with_prefix(k: usize, archive: &[u8]) -> Vec<u8> {
    let mut bytes = vec![0u8; 16 * k];
    bytes[0] = 0x4d;
    bytes[1] = 0x5a;
    bytes.extend_from_slice(archive);
    bytes
}

/// The archive of `minimal`, placed after `16 * k` bytes of stub.
fn embedded(k: usize) -> Vec<u8> {
    let base = 16 * k as u64;
    let index = file_chunk(&[info(0, 5, 5, "a.txt"), segm(&[(0, 19, 5, 5)]), adlr(0)]);
    let mut bytes = MAGIC.to_vec();
    bytes.extend_from_slice(&24u64.to_le_bytes());
    bytes.extend_from_slice(b"hello");
    bytes.push(0x00);
    bytes.extend_from_slice(&(index.len() as u64).to_le_bytes());
    bytes.extend_from_slice(&index);
    let out = with_prefix(k, &bytes);
    assert_eq!(out.len() as u64, base + bytes.len() as u64);
    out
}

#[test]
fn pe_prefix() {
    let ex = run(embedded(128)).unwrap();
    assert_eq!(names_and_contents(&ex), vec![("a.txt".to_string(), b"hello".to_vec())]);
}

#[test]
fn embedded_archive_matches_bare_one() {
    let bare = names_and_contents(&run(minimal()).unwrap());
    for k in [1usize, 2, 7, 33] {
        assert_eq!(names_and_contents(&run(embedded(k)).unwrap()), bare);
    }
}

#[test]
fn oversized_chunk_guard() {
    let mut index = b"File".to_vec();
    index.extend_from_slice(&(1u64 << 33).to_le_bytes());
    let ex = run(archive(b"", &index, 0x00)).unwrap();
    assert!(ex.files.is_empty());
    assert_eq!(ex.warnings, vec![Xp3Warning::OversizedChunk]);
}

#[test]
fn oversized_chunk_keeps_earlier_items_and_skips_later_indexes() {
    let good = file_chunk(&[info(0, 1, 1, "a.txt"), segm(&[(0, 19, 1, 1)]), adlr(0)]);
    let mut index = good.clone();
    index.extend_from_slice(b"File");
    index.extend_from_slice(&(1u64 << 32).to_le_bytes());
    let ex = run(archive(b"a", &index, 0x80)).unwrap();
    assert_eq!(names_and_contents(&ex), vec![("a.txt".to_string(), b"a".to_vec())]);
    assert_eq!(ex.warnings, vec![Xp3Warning::OversizedChunk]);
}

#[test]
fn no_magic_gives_nothing() {
    let ex = run(b"just some text, not an archive".to_vec()).unwrap();
    assert!(ex.files.is_empty());
    assert!(ex.warnings.is_empty());
    let ex = run(Vec::new()).unwrap();
    assert!(ex.files.is_empty());
}

#[test]
fn stub_without_archive_gives_nothing() {
    let ex = run(with_prefix(64, b"no archive here")).unwrap();
    assert!(ex.files.is_empty());
}

#[test]
fn compression_equivalence() {
    let raw = names_and_contents(&run(minimal()).unwrap());
    let packed = zlib(b"hello");
    let n = packed.len() as u64;
    let index = file_chunk(&[info(0, 5, n, "a.txt"), segm(&[(1, 19, 5, n)]), adlr(0)]);
    assert_eq!(names_and_contents(&run(archive(&packed, &index, 0x00)).unwrap()), raw);
}

#[test]
fn round_trip_several_files_sorted_by_start() {
    // Payload: "second" at 19, "first" at 25, "xyz" at 30; listed first, second, third.
    let index = [
        file_chunk(&[info(0, 5, 5, "dir/first.txt"), segm(&[(0, 25, 5, 5)]), adlr(1)]),
        file_chunk(&[info(0, 6, 6, "second.bin"), segm(&[(0, 19, 6, 6)]), adlr(2)]),
        file_chunk(&[info(0, 3, 3, "third"), segm(&[(0, 30, 3, 3)]), adlr(3)]),
    ]
    .concat();
    let ex = run(archive(b"secondfirstxyz", &index, 0x00)).unwrap();
    assert_eq!(
        names_and_contents(&ex),
        vec![
            ("second.bin".to_string(), b"second".to_vec()),
            ("dir/first.txt".to_string(), b"first".to_vec()),
            ("third".to_string(), b"xyz".to_vec()),
        ]
    );
}

#[test]
fn sub_chunks_in_any_order() {
    let index = file_chunk(&[adlr(7), segm(&[(0, 19, 5, 5)]), info(0, 5, 5, "a.txt")]);
    let ex = run(archive(b"hello", &index, 0x00)).unwrap();
    assert_eq!(names_and_contents(&ex), vec![("a.txt".to_string(), b"hello".to_vec())]);
}

#[test]
fn missing_sub_chunk_skips_item() {
    let incomplete = file_chunk(&[info(0, 5, 5, "a.txt"), segm(&[(0, 19, 5, 5)])]);
    let complete = file_chunk(&[info(0, 5, 5, "b.txt"), segm(&[(0, 19, 5, 5)]), adlr(0)]);
    let index = [incomplete, complete].concat();
    let ex = run(archive(b"hello", &index, 0x00)).unwrap();
    assert_eq!(names_and_contents(&ex), vec![("b.txt".to_string(), b"hello".to_vec())]);
    assert_eq!(ex.warnings, vec![Xp3Warning::MissingSubChunk]);
}

#[test]
fn protected_item_warns_and_extracts() {
    let index = file_chunk(&[info(0x8000_0000, 5, 5, "a.txt"), segm(&[(0, 19, 5, 5)]), adlr(0)]);
    let ex = run(archive(b"hello", &index, 0x00)).unwrap();
    assert_eq!(names_and_contents(&ex), vec![("a.txt".to_string(), b"hello".to_vec())]);
    assert_eq!(ex.warnings, vec![Xp3Warning::Protected]);
}

#[test]
fn segm_surplus_bytes_warn() {
    let mut records = segm(&[(0, 19, 5, 5)]);
    // Grow the declared size by three bytes and append them.
    records[4..12].copy_from_slice(&31u64.to_le_bytes());
    records.extend_from_slice(&[1, 2, 3]);
    let index = file_chunk(&[info(0, 5, 5, "a.txt"), records, adlr(0)]);
    let ex = run(archive(b"hello", &index, 0x00)).unwrap();
    assert_eq!(names_and_contents(&ex), vec![("a.txt".to_string(), b"hello".to_vec())]);
    assert_eq!(ex.warnings, vec![Xp3Warning::SegmentSizeNotMultiple]);
}

#[test]
fn bad_entry_flag() {
    let index = file_chunk(&[info(0, 5, 5, "a.txt"), segm(&[(0, 19, 5, 5)]), adlr(0)]);
    assert_eq!(run(archive(b"hello", &index, 0x02)).err(), Some(Xp3Error::BadEntryFlag));
}

#[test]
fn bad_segment_flag() {
    let index = file_chunk(&[info(0, 5, 5, "a.txt"), segm(&[(3, 19, 5, 5)]), adlr(0)]);
    assert_eq!(run(archive(b"hello", &index, 0x00)).err(), Some(Xp3Error::BadSegmentFlag));
}

#[test]
fn nested_file_chunk() {
    let inner = file_chunk(&[info(0, 5, 5, "a.txt")]);
    let index = file_chunk(&[inner]);
    assert_eq!(run(archive(b"hello", &index, 0x00)).err(), Some(Xp3Error::NestedFile));
}

#[test]
fn corrupt_compressed_segment() {
    let index = file_chunk(&[info(0, 5, 5, "a.txt"), segm(&[(1, 19, 5, 5)]), adlr(0)]);
    assert_eq!(run(archive(b"hello", &index, 0x00)).err(), Some(Xp3Error::InflateFailure));
}

#[test]
fn inflated_length_must_match() {
    let packed = zlib(b"hello");
    let n = packed.len() as u64;
    let index = file_chunk(&[info(0, 6, n, "a.txt"), segm(&[(1, 19, 6, n)]), adlr(0)]);
    assert_eq!(run(archive(&packed, &index, 0x00)).err(), Some(Xp3Error::InflateFailure));
}

#[test]
fn unpaired_surrogate_name() {
    let mut body = Vec::new();
    body.extend_from_slice(&0u32.to_le_bytes());
    body.extend_from_slice(&5u64.to_le_bytes());
    body.extend_from_slice(&5u64.to_le_bytes());
    body.extend_from_slice(&1u16.to_le_bytes());
    body.extend_from_slice(&0xD800u16.to_le_bytes());
    let index = file_chunk(&[chunk(b"info", &body), segm(&[(0, 19, 5, 5)]), adlr(0)]);
    assert_eq!(run(archive(b"hello", &index, 0x00)).err(), Some(Xp3Error::InvalidName));
}

#[test]
fn payload_past_end_is_truncated() {
    let index = file_chunk(&[info(0, 5000, 5000, "a.txt"), segm(&[(0, 19, 5000, 5000)]), adlr(0)]);
    assert_eq!(run(archive(b"hello", &index, 0x00)).err(), Some(Xp3Error::Truncated));
}

#[test]
fn short_info_is_truncated() {
    let index = file_chunk(&[chunk(b"info", &[0, 0, 0, 0]), segm(&[(0, 19, 5, 5)]), adlr(0)]);
    assert_eq!(run(archive(b"hello", &index, 0x00)).err(), Some(Xp3Error::Truncated));
}

#[test]
fn entry_offset_past_end_is_truncated() {
    let mut bytes = MAGIC.to_vec();
    bytes.extend_from_slice(&1000u64.to_le_bytes());
    assert_eq!(run(bytes).err(), Some(Xp3Error::Truncated));
}

#[test]
fn offsets_that_overflow() {
    let index = file_chunk(&[
        info(0, 5, 5, "a.txt"),
        segm(&[(0, 19, u64::MAX, 5), (0, 19, 1, 1)]),
        adlr(0),
    ]);
    assert_eq!(run(archive(b"hello", &index, 0x00)).err(), Some(Xp3Error::OffsetOverflow));
}

#[test]
fn endless_index_chain() {
    let mut bytes = MAGIC.to_vec();
    bytes.extend_from_slice(&19u64.to_le_bytes());
    bytes.push(0x80);
    bytes.extend_from_slice(&0u64.to_le_bytes());
    bytes.extend_from_slice(&19u64.to_le_bytes());
    assert_eq!(run(bytes).err(), Some(Xp3Error::EndlessIndexChain));
}

#[test]
fn long_names_are_shortened() {
    let name: String = std::iter::repeat('x').take(300).collect();
    let index = file_chunk(&[info(0, 5, 5, &name), segm(&[(0, 19, 5, 5)]), adlr(0)]);
    let ex = run(archive(b"hello", &index, 0x00)).unwrap();
    let expected = format!("{}...{}", "x".repeat(126), "x".repeat(126));
    assert_eq!(ex.files[0].name, expected);
    assert_eq!(ex.files[0].name.len(), 255);
}

#[test]
fn guess_and_convert() {
    let mut stream = ReadStream::new(minimal(), true);
    assert_eq!(guess_format(&mut stream), vec![Format::XP3Archive]);
    let mut stream = ReadStream::new(b"nothing".to_vec(), true);
    assert!(guess_format(&mut stream).is_empty());
    let mut stream = ReadStream::new(embedded(3), true);
    assert!(XP3Archive::is_correct_format(&mut stream));
    let mut archive = XP3Archive::new();
    let mut stream = ReadStream::new(minimal(), true);
    let ex = archive.flare(&mut stream).unwrap();
    assert_eq!(names_and_contents(&ex), vec![("a.txt".to_string(), b"hello".to_vec())]);
}

/// Files stored raw one after another from byte 19, listed in one raw index.
fn laid_out(files: &[(&str, &[u8])]) -> Vec<u8> {
    let mut payload = Vec::new();
    let mut index = Vec::new();
    for (name, contents) in files {
        let start = 19 + payload.len() as u64;
        let n = contents.len() as u64;
        index.extend(file_chunk(&[info(0, n, n, name), segm(&[(0, start, n, n)]), adlr(0)]));
        payload.extend_from_slice(contents);
    }
    archive(&payload, &index, 0x00)
}

#[test]
fn round_trip_reproduces_every_file() {
    let files: Vec<(&str, &[u8])> = vec![
        ("a.txt", b"hello"),
        ("empty", b""),
        ("dir/\u{00fc}ber.bin", &[0, 1, 2, 255, 254]),
        ("\u{1F600}/\u{3042}.txt", b"unicode names"),
    ];
    let ex = run(laid_out(&files)).unwrap();
    let expected: Vec<(String, Vec<u8>)> =
        files.iter().map(|(n, c)| (n.to_string(), c.to_vec())).collect();
    assert_eq!(names_and_contents(&ex), expected);
    assert!(ex.warnings.is_empty());
}

#[test]
fn embedded_after_noisy_stub() {
    let bare = minimal();
    let mut stub: Vec<u8> = (0..16 * 40).map(|i| (i * 7 % 251) as u8).collect();
    stub[0] = 0x4d;
    stub[1] = 0x5a;
    let mut bytes = stub.clone();
    bytes.extend_from_slice(&bare);
    // Offsets in the archive are relative to its start, so the same bytes serve.
    assert_eq!(
        names_and_contents(&run(bytes).unwrap()),
        names_and_contents(&run(bare).unwrap())
    );
}

#[test]
fn mixed_raw_and_compressed_segments() {
    let packed = zlib(b"lo, world");
    let n = packed.len() as u64;
    let mut payload = b"hel".to_vec();
    payload.extend_from_slice(&packed);
    let index = file_chunk(&[
        info(0, 12, 3 + n, "a.txt"),
        segm(&[(0, 19, 3, 3), (1, 22, 9, n)]),
        adlr(0),
    ]);
    let ex = run(archive(&payload, &index, 0x00)).unwrap();
    assert_eq!(names_and_contents(&ex), vec![("a.txt".to_string(), b"hello, world".to_vec())]);
}
