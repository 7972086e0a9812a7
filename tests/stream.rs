use std::io::Write;

use xp3_flare::inflate::{accept_inflated, inflate_exact};
use xp3_flare::archive::Xp3Error;
use xp3_flare::stream::{reduce_to_int, ReadStream, SeekFrom, StreamError};
use xp3_flare::text::shorten_name;
use xp3_flare::types::UTF16LE;

#[test]
fn integers_little_endian() {
    let mut s = ReadStream::new(vec![0x01, 0x02, 0x03, 0x04, 0x05, 0x06, 0x07, 0x08, 0x09, 0x0a, 0x0b, 0x0c, 0x0d, 0x0e, 0x0f], true);
    assert_eq!(s.read_u8(), Ok(0x01));
    assert_eq!(s.read_u16(), Ok(0x0302));
    assert_eq!(s.read_u32(), Ok(0x0706_0504));
    assert_eq!(s.read_u64(), Ok(0x0f0e_0d0c_0b0a_0908));
    assert_eq!(s.pos(), 15);
    assert_eq!(s.read_u8(), Err(StreamError::UnexpectedEof));
}

#[test]
fn integers_big_endian() {
    let mut s = ReadStream::new(vec![0x12, 0x34, 0x56, 0x78, 0x9a, 0xbc, 0xde, 0xf0, 0x11, 0x22], false);
    assert!(!s.is_little_endian());
    assert_eq!(s.read_u16(), Ok(0x1234));
    assert_eq!(s.read_u64(), Ok(0x5678_9abc_def0_1122));
    s.little_endian(true);
    assert!(s.is_little_endian());
}

#[test]
fn generic_reads() {
    let mut s = ReadStream::new(vec![0xff, 0x34, 0x12, 0x78, 0x56, 0x34], true);
    assert_eq!(s.read::<u8>(), Ok(0xff));
    assert_eq!(s.read::<u16>(), Ok(0x1234));
    assert_eq!(s.read::<u32>(), Err(StreamError::UnexpectedEof));
    assert_eq!(s.pos(), 3);
    assert_eq!(s.read::<u16>(), Ok(0x5678));
    let mut s = ReadStream::new(1u64.to_le_bytes().to_vec(), true);
    assert_eq!(s.read::<u64>(), Ok(1));
}

#[test]
fn reduce_bytes() {
    assert_eq!(reduce_to_int(&vec![0x01, 0x02], true), 0x0201);
    assert_eq!(reduce_to_int(&vec![0x01, 0x02], false), 0x0102);
    assert_eq!(reduce_to_int(&vec![], true), 0);
    assert_eq!(reduce_to_int(&vec![0xff; 8], false), u64::MAX);
}

#[test]
fn short_read_leaves_stream_unchanged() {
    let mut s = ReadStream::new(vec![1, 2, 3], true);
    assert_eq!(s.read_exact(4), Err(StreamError::UnexpectedEof));
    assert_eq!(s.pos(), 0);
    assert_eq!(s.read_exact(3), Ok(vec![1, 2, 3]));
    assert_eq!(s.read_exact(0), Ok(vec![]));
}

#[test]
fn read_into_buffer() {
    let mut s = ReadStream::new(vec![9, 8, 7, 6], true);
    let mut buf = vec![0u8; 3];
    assert_eq!(s.read_into(&mut buf), Ok(()));
    assert_eq!(buf, vec![9, 8, 7]);
    assert_eq!(s.read_into(&mut buf), Err(StreamError::UnexpectedEof));
}

#[test]
fn seeking() {
    let mut s = ReadStream::new(vec![0; 10], true);
    assert_eq!(s.len(), 10);
    assert_eq!(s.seek(SeekFrom::Start(4)), Ok(4));
    assert_eq!(s.seek(SeekFrom::Current(3)), Ok(7));
    assert_eq!(s.seek(SeekFrom::Current(-7)), Ok(0));
    assert_eq!(s.seek(SeekFrom::End(-2)), Ok(8));
    assert_eq!(s.seek(SeekFrom::End(5)), Ok(15));
    assert_eq!(s.seek(SeekFrom::Current(-16)), Err(StreamError::InvalidSeek));
    assert_eq!(s.pos(), 15);
    assert_eq!(s.read_u8(), Err(StreamError::UnexpectedEof));
}

#[test]
fn utf16_strings() {
    let mut s = ReadStream::new(vec![0x61, 0x00, 0x3d, 0xd8, 0x00, 0xde, 0x62, 0x00], true);
    assert_eq!(s.read_utf16(4), Ok("a\u{1F600}b".to_string()));
    let mut s = ReadStream::new(vec![0x00, 0xd8, 0x61, 0x00], true);
    assert_eq!(s.read_utf16(2), Err(StreamError::InvalidData));
    assert_eq!(s.pos(), 4);
    let mut s = ReadStream::new(vec![0x61, 0x00], true);
    assert_eq!(s.read_utf16(2), Err(StreamError::UnexpectedEof));
    let mut s = ReadStream::new(vec![0x41, 0x30], true);
    assert_eq!(s.read_with_len::<UTF16LE>(1), Ok("\u{3041}".to_string()));
}

#[test]
fn short_names_stay() {
    assert_eq!(shorten_name("a.txt".to_string()), "a.txt");
    let exact: String = "y".repeat(255);
    assert_eq!(shorten_name(exact.clone()), exact);
}

#[test]
fn long_names_keep_head_and_tail() {
    let name = format!("{}{}", "a".repeat(200), "b".repeat(100));
    let short = shorten_name(name);
    assert_eq!(short, format!("{}...{}{}", "a".repeat(126), "a".repeat(26), "b".repeat(100)));
}

#[test]
fn long_names_cut_at_char_boundaries() {
    // 100 three-byte characters: 300 bytes. The head keeps 42 (126 bytes), the
    // tail starts at the first boundary at or after byte 174, character 58.
    let name: String = std::iter::repeat('\u{3042}').take(100).collect();
    let short = shorten_name(name);
    let head: String = std::iter::repeat('\u{3042}').take(42).collect();
    let tail: String = std::iter::repeat('\u{3042}').take(42).collect();
    assert_eq!(short, format!("{}...{}", head, tail));
    // Two-byte characters: 127 of them are 254 bytes, so one more ASCII byte
    // pushes the name over 255.
    let name = format!("{}zz", "\u{00e9}".repeat(127));
    let short = shorten_name(name);
    let head = "\u{00e9}".repeat(63);
    let tail = format!("{}zz", "\u{00e9}".repeat(62));
    assert_eq!(short, format!("{}...{}", head, tail));
}

#[test]
fn inflation_checks_length() {
    assert_eq!(accept_inflated(Some(vec![1, 2, 3]), 3), Ok(vec![1, 2, 3]));
    assert_eq!(accept_inflated(Some(vec![1, 2, 3]), 4), Err(Xp3Error::InflateFailure));
    assert_eq!(accept_inflated(None, 0), Err(Xp3Error::InflateFailure));
}

#[test]
fn inflates_zlib_streams() {
    let mut enc = flate2::write::ZlibEncoder::new(Vec::new(), flate2::Compression::best());
    enc.write_all(b"hello hello hello").unwrap();
    let packed = enc.finish().unwrap();
    assert_eq!(inflate_exact(&packed, 17), Ok(b"hello hello hello".to_vec()));
    assert_eq!(inflate_exact(&packed, 16), Err(Xp3Error::InflateFailure));
    assert_eq!(inflate_exact(&b"hello".to_vec(), 5), Err(Xp3Error::InflateFailure));
}
