//! The error type shared by every fallible operation of the reader.

use vstd::prelude::*;

verus! {

/// Why an operation on a CHD image failed.
///
/// Every variant stands for invalid data; the fields carry the values that
/// a message would name.
#[derive(Debug, Clone, Copy, PartialEq, Eq, Structural)]
pub enum ChdError {
    /// The image does not start with the magic `MComprHD`.
    InvalidMagic,
    /// The header names a version other than 5.
    UnsupportedVersion(u32),
    /// The header's length field is not 124.
    InvalidHeaderLength(u32),
    /// The hunk size is 0 or larger than 512 KiB.
    InvalidHunkSize(u32),
    /// The unit size is 0, larger than the hunk size, or does not divide it.
    InvalidUnitSize { unit: u32, hunk: u32 },
    /// The number of hunks does not fit in 32 bits.
    HunkCountTooBig { count: u64, size: u64 },
    /// A bit width in the compressed map header is larger than 31.
    BitLengthTooBig(u8),
    /// The compressed map holds a compression type that is not defined.
    UnknownCompression { hunk: u32, kind: u8 },
    /// The decoded map does not match the checksum of the map header.
    MapCrcMismatch { calc: u16, crc: u16 },
    /// A decoded hunk does not match the checksum of its map entry.
    HunkCrcMismatch { hunk: u32, calc: u16, crc: u16 },
    /// An uncompressed map stores no checksums.
    NoChecksum,
    /// A hunk that lives in the parent image has no checksum in this image.
    ParentNoChecksum { hunk: u32 },
    /// The hunk index is not below the hunk count.
    InvalidHunk { number: u64, total: u32 },
    /// A hunk names a codec slot that the header leaves empty.
    NoDecompressor { offset: u64, slot: u8 },
    /// A hunk refers to the parent image and none is attached.
    RequiresParent { offset: u64 },
    /// A map entry holds a compression type that cannot be read.
    UnsupportedCompression { offset: u64, kind: u8 },
    /// A chain of references to other hunks of the same image never ends.
    SelfReferenceLoop { hunk: u32 },
    /// The SHA-1 of the offered parent is not the one that the child names.
    WrongParent,
    /// A relative seek left the range of a signed 64-bit position.
    SeekOverflow,
    /// A seek went before the start or past the end of the logical data.
    InvalidSeek,
    /// The image ends before the bytes that were asked for.
    ShortRead,
    /// The header names a codec that this library does not know.
    CodecNotImplemented(u32),
    /// A list of Huffman code lengths is malformed.
    HuffmanInvalidData,
    /// The Huffman bit stream ended before all symbols were decoded.
    HuffmanTooShort,
    /// The raw DEFLATE stream is malformed.
    InflateFailed,
    /// The raw DEFLATE stream does not inflate to the size of the destination.
    InflateSize,
    /// The LZMA stream is malformed or does not give the size of the destination.
    LzmaFailed,
    /// The first byte of a FLAC hunk is neither `L` nor `B`.
    FlacInvalidEndian(u8),
    /// The FLAC frame is malformed.
    FlacFailed,
    /// The FLAC data ended before a frame started.
    FlacTooShort,
    /// The FLAC frame does not hold two channels.
    FlacNotStereo(u32),
    /// The FLAC frame does not hold the number of samples that fills the destination.
    FlacDuration { decoded: u32, expected: u64 },
    /// The compressed hunk is shorter than its own framing says.
    TruncatedInput,
    /// The compressed hunk is longer than the 24 bits of a map entry's
    /// length can say.
    InputTooLong,
    /// The destination is not a whole number of the units that the codec writes.
    InvalidDestination,
}

} // verus!
