//! The sizes of a CD frame.

use vstd::prelude::*;

verus! {

/// Bytes of one sector.
pub const MAX_SECTOR_DATA: usize = 2352;

/// Bytes of the subcode of one sector.
pub const MAX_SUBCODE_DATA: usize = 96;

/// Bytes of one frame: a sector and its subcode.
pub const FRAME_SIZE: usize = 2448;

/// Bytes of the sync pattern that starts a sector.
pub const SYNC_NUM_BYTES: usize = 12;

/// The sync pattern: a zero, ten bytes of ones, a zero.
pub const SYNC_HEADER: [u8; 12] = [
    0x00, 0xff, 0xff, 0xff, 0xff, 0xff, 0xff, 0xff, 0xff, 0xff, 0xff, 0x00,
];

/// The sync pattern as a sequence.
pub open spec fn sync_header() -> Seq<u8> {
    seq![
        0x00u8, 0xffu8, 0xffu8, 0xffu8, 0xffu8, 0xffu8, 0xffu8, 0xffu8, 0xffu8, 0xffu8, 0xffu8,
        0x00u8,
    ]
}

} // verus!
