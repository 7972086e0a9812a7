//! The records that parsing an archive produces, and what can go wrong.
use vstd::prelude::*;

verus! {

/// A failure that ends the extraction of an archive.
#[derive(Clone, Copy, Debug, PartialEq, Eq, Structural)]
pub enum Xp3Error {
    /// A header, a field or a payload runs past the end of its buffer.
    Truncated,
    /// The low three bits of an index entry's flag are neither 0 nor 1.
    BadEntryFlag,
    /// The low three bits of a segment's flag are neither 0 nor 1.
    BadSegmentFlag,
    /// A `File` chunk stands inside another `File` chunk.
    NestedFile,
    /// zlib rejects the stored bytes, or they inflate to another length than declared.
    InflateFailure,
    /// An item's name is not well-formed UTF-16.
    InvalidName,
    /// A segment's offset in its file does not fit in 64 bits, or in memory.
    OffsetOverflow,
    /// The chain of indexes does not end within as many links as the archive has bytes.
    EndlessIndexChain,
}

/// A condition that is reported while extraction goes on.
#[derive(Clone, Copy, Debug, PartialEq, Eq, Structural)]
pub enum Xp3Warning {
    /// An item carries the protected flag.
    Protected,
    /// A chunk declares a size above `u32::MAX`: the rest of its index and
    /// all later indexes are not read.
    OversizedChunk,
    /// A `File` chunk lacks its `info`, `segm` or `adlr` part, or has no
    /// segment: the item is skipped.
    MissingSubChunk,
    /// A `segm` body is not a whole number of segment records; the surplus is ignored.
    SegmentSizeNotMultiple,
}

/// One contiguous run of bytes of a logical file.
#[derive(Clone, Copy, Debug, PartialEq, Eq, Structural)]
pub struct ArchiveSegment {
    /// Where the stored bytes begin in the container.
    pub start: u64,
    /// Where the bytes go in the reconstructed file.
    pub offset: u64,
    /// The length after inflation (the stored length when raw).
    pub original_size: u64,
    /// The stored length.
    pub archive_size: u64,
    /// The stored bytes are zlib-compressed.
    pub compressed: bool,
}

/// One logical file of an archive.
pub struct ArchiveItem {
    pub name: String,
    pub file_hash: u32,
    pub original_size: u64,
    pub archive_size: u64,
    pub segments: Vec<ArchiveSegment>,
}

/// An item as a mathematical value.
pub struct ItemView {
    pub name: Seq<char>,
    pub file_hash: u32,
    pub original_size: u64,
    pub archive_size: u64,
    pub segments: Seq<ArchiveSegment>,
}

impl View for ArchiveItem {
    type V = ItemView;

    open spec fn view(&self) -> ItemView {
        ItemView {
            name: self.name@,
            file_hash: self.file_hash,
            original_size: self.original_size,
            archive_size: self.archive_size,
            segments: self.segments@,
        }
    }
}

/// A logical file with its reconstructed contents.
pub struct ExtractedFile {
    pub name: String,
    pub contents: Vec<u8>,
}

/// The files of an archive, in the order they were reconstructed, and the
/// warnings met on the way.
pub struct Extraction {
    pub files: Vec<ExtractedFile>,
    pub warnings: Vec<Xp3Warning>,
}

} // verus!
