//! The hunk map: where each hunk of the logical data lies and how it is stored.

use vstd::prelude::*;
use vstd::arithmetic::power2::{lemma2_to64, lemma_pow2_strictly_increases};
use crate::bitstream::{BitReader, BitState, advance, bits_value, lemma_bits_value_bound};
use crate::error::ChdError;
use crate::header::Header;
use crate::huffman::{Huffman, decode_at, rle_import};
use crate::utils::{
    be_bytes, be_value, crc16_ccitt_false, crc16_feed, crc16_update, image_range,
    lemma_be_bytes_len, lemma_crc16_concat, read_be16, read_be32, read_be48, write_be16,
    write_be24, write_be48,
};

verus! {

/// Codec slot 0.
pub const COMPRESSION_TYPE_0: u8 = 0;

/// Codec slot 1.
pub const COMPRESSION_TYPE_1: u8 = 1;

/// Codec slot 2.
pub const COMPRESSION_TYPE_2: u8 = 2;

/// Codec slot 3.
pub const COMPRESSION_TYPE_3: u8 = 3;

/// Not compressed; the length is the hunk size.
pub const COMPRESSION_NONE: u8 = 4;

/// The same as another hunk of this image.
pub const COMPRESSION_SELF: u8 = 5;

/// The same as a hunk's worth of units of the parent image.
pub const COMPRESSION_PARENT: u8 = 6;

/// In the compressed map only: a short run of the last type.
pub const COMPRESSION_RLE_SMALL: u8 = 7;

/// In the compressed map only: a long run of the last type.
pub const COMPRESSION_RLE_LARGE: u8 = 8;

/// In the compressed map only: the hunk of the last reference to this image.
pub const COMPRESSION_SELF_0: u8 = 9;

/// In the compressed map only: the hunk after that of the last reference to this image.
pub const COMPRESSION_SELF_1: u8 = 10;

/// In the compressed map only: the same position in the parent.
pub const COMPRESSION_PARENT_SELF: u8 = 11;

/// In the compressed map only: the units of the last reference to the parent.
pub const COMPRESSION_PARENT_0: u8 = 12;

/// In the compressed map only: one hunk past the units of the last reference to the parent.
pub const COMPRESSION_PARENT_1: u8 = 13;

/// Compression type, offset and stored length of one hunk.
pub type MapHunk = (u8, u64, u32);

/// One record of the decoded map.
#[derive(Debug, Clone, Copy, PartialEq, Eq, Structural)]
pub struct MapEntry {
    /// 0 to 3: a codec slot; 4: stored raw; 5: another hunk; 6: the parent.
    pub compression: u8,
    /// Length of the stored bytes, 24 bits.
    pub complength: u32,
    /// Offset in the image, a hunk index, or an offset in units in the parent; 48 bits.
    pub offset: u64,
    /// CRC-16 of the hunk's bytes; 0 for a reference.
    pub crc16: u16,
}

/// The 12 bytes of a record: type, length, offset and checksum, big-endian.
pub open spec fn entry_bytes(e: MapEntry) -> Seq<u8> {
    seq![e.compression] + be_bytes(e.complength as nat, 3) + be_bytes(e.offset as nat, 6)
        + be_bytes(e.crc16 as nat, 2)
}

/// The records of a map, one after the other.
pub open spec fn map_image(entries: Seq<MapEntry>) -> Seq<u8>
    decreases entries.len(),
{
    if entries.len() == 0 {
        Seq::empty()
    } else {
        map_image(entries.drop_last()) + entry_bytes(entries.last())
    }
}

/// The record that is stored for a hunk: the length cut to 24 bits and the
/// offset to 48.
pub open spec fn entry_of(compression: u8, length: nat, offset: nat, crc: nat) -> MapEntry {
    MapEntry {
        compression,
        complength: (length % 0x100_0000) as u32,
        offset: (offset % 0x1_0000_0000_0000) as u64,
        crc16: crc as u16,
    }
}

/// The first pass over a compressed map, which decodes one compression type per hunk.
pub ghost struct TypePass {
    /// Where the bit stream stands.
    pub bits: BitState,
    /// The type that a run repeats.
    pub lastcomp: u8,
    /// How many more hunks repeat it.
    pub repcount: nat,
    /// The types decoded so far.
    pub types: Seq<u8>,
}

/// The type of one more hunk.
///
/// Inside a run the hunk takes the last type. Otherwise a symbol is decoded:
/// 7 starts a run of 2 plus the next symbol, 8 a run of 18 plus 16 times the
/// next symbol plus the one after, and the hunk that starts a run takes the
/// last type too; any other symbol is the hunk's type and the new last type.
pub open spec fn type_step(lengths: Seq<u8>, data: Seq<u8>, s: TypePass) -> TypePass {
    if s.repcount > 0 {
        TypePass {
            bits: s.bits,
            lastcomp: s.lastcomp,
            repcount: (s.repcount - 1) as nat,
            types: s.types.push(s.lastcomp),
        }
    } else {
        let a = decode_at(lengths, 8, data, s.bits);
        if a.0 == 7 {
            let b = decode_at(lengths, 8, data, a.1);
            TypePass {
                bits: b.1,
                lastcomp: s.lastcomp,
                repcount: 2 + b.0,
                types: s.types.push(s.lastcomp),
            }
        } else if a.0 == 8 {
            let b = decode_at(lengths, 8, data, a.1);
            let c = decode_at(lengths, 8, data, b.1);
            TypePass {
                bits: c.1,
                lastcomp: s.lastcomp,
                repcount: 2 + 16 + b.0 * 16 + c.0,
                types: s.types.push(s.lastcomp),
            }
        } else {
            TypePass {
                bits: a.1,
                lastcomp: a.0 as u8,
                repcount: 0,
                types: s.types.push(a.0 as u8),
            }
        }
    }
}

/// The first pass after `n` hunks.
pub open spec fn type_pass(lengths: Seq<u8>, data: Seq<u8>, start: TypePass, n: nat) -> TypePass
    decreases n,
{
    if n == 0 {
        start
    } else {
        type_step(lengths, data, type_pass(lengths, data, start, (n - 1) as nat))
    }
}

/// What the second pass needs from the two headers.
pub ghost struct MapParams {
    pub hunkbytes: nat,
    pub unitbytes: nat,
    /// Width of a compressed length.
    pub lengthbits: nat,
    /// Width of a hunk index.
    pub hunkbits: nat,
    /// Width of an offset in the parent.
    pub parentbits: nat,
}

/// The second pass over a compressed map, which fills in one record per hunk.
pub ghost struct EntryPass {
    /// Where the bit stream stands.
    pub bits: BitState,
    /// Where the next stored hunk starts in the image.
    pub curoffset: nat,
    /// The hunk of the last reference to this image.
    pub lastself: nat,
    /// The units of the last reference to the parent.
    pub lastparent: nat,
    /// The records so far.
    pub entries: Seq<MapEntry>,
    /// The type that stopped the pass, if one did.
    pub fault: Option<ChdError>,
}

/// The record of hunk `hunknum`, whose type from the first pass is `kind`.
///
/// - 0 to 3: a length of `lengthbits` bits and a 16-bit checksum follow; the
///   hunk lies at the running offset, which moves on by the length.
/// - 4: a 16-bit checksum follows; the hunk lies at the running offset, which
///   moves on by the hunk size.
/// - 5 and 6: an index of `hunkbits` bits, or an offset of `parentbits` bits, follows.
/// - 9 and 10: the last index of type 5, or the one after it; stored as type 5.
/// - 11: the hunk's own position in units; stored as type 6.
/// - 12 and 13: the last offset of type 6, or one hunk of units past it; stored as type 6.
/// - anything else stops the pass.
#[verifier::opaque]
pub open spec fn entry_step(p: MapParams, data: Seq<u8>, kind: u8, hunknum: nat, s: EntryPass)
    -> EntryPass {
    if s.fault is Some {
        s
    } else if kind <= 3 {
        let length = bits_value(data, s.bits.pos, p.lengthbits);
        let b1 = advance(data, s.bits, p.lengthbits);
        let crc = bits_value(data, b1.pos, 16);
        EntryPass {
            bits: advance(data, b1, 16),
            curoffset: s.curoffset + length,
            lastself: s.lastself,
            lastparent: s.lastparent,
            entries: s.entries.push(entry_of(kind, length, s.curoffset, crc)),
            fault: None,
        }
    } else if kind == 4 {
        let crc = bits_value(data, s.bits.pos, 16);
        EntryPass {
            bits: advance(data, s.bits, 16),
            curoffset: s.curoffset + p.hunkbytes,
            lastself: s.lastself,
            lastparent: s.lastparent,
            entries: s.entries.push(entry_of(4, p.hunkbytes, s.curoffset, crc)),
            fault: None,
        }
    } else if kind == 5 {
        let index = bits_value(data, s.bits.pos, p.hunkbits);
        EntryPass {
            bits: advance(data, s.bits, p.hunkbits),
            curoffset: s.curoffset,
            lastself: index,
            lastparent: s.lastparent,
            entries: s.entries.push(entry_of(5, 0, index, 0)),
            fault: None,
        }
    } else if kind == 6 {
        let units = bits_value(data, s.bits.pos, p.parentbits);
        EntryPass {
            bits: advance(data, s.bits, p.parentbits),
            curoffset: s.curoffset,
            lastself: s.lastself,
            lastparent: units,
            entries: s.entries.push(entry_of(6, 0, units, 0)),
            fault: None,
        }
    } else if kind == 9 || kind == 10 {
        let index = s.lastself + (kind - 9);
        EntryPass {
            bits: s.bits,
            curoffset: s.curoffset,
            lastself: index as nat,
            lastparent: s.lastparent,
            entries: s.entries.push(entry_of(5, 0, index as nat, 0)),
            fault: None,
        }
    } else if kind == 11 {
        let units = hunknum * p.hunkbytes / p.unitbytes;
        EntryPass {
            bits: s.bits,
            curoffset: s.curoffset,
            lastself: s.lastself,
            lastparent: units,
            entries: s.entries.push(entry_of(6, 0, units, 0)),
            fault: None,
        }
    } else if kind == 12 || kind == 13 {
        let units = if kind == 13 {
            s.lastparent + p.hunkbytes / p.unitbytes
        } else {
            s.lastparent
        };
        EntryPass {
            bits: s.bits,
            curoffset: s.curoffset,
            lastself: s.lastself,
            lastparent: units,
            entries: s.entries.push(entry_of(6, 0, units, 0)),
            fault: None,
        }
    } else {
        EntryPass {
            bits: s.bits,
            curoffset: s.curoffset,
            lastself: s.lastself,
            lastparent: s.lastparent,
            entries: s.entries,
            fault: Some(ChdError::UnknownCompression { hunk: hunknum as u32, kind }),
        }
    }
}

/// The second pass after `n` hunks.
pub open spec fn entry_pass(p: MapParams, data: Seq<u8>, types: Seq<u8>, start: EntryPass, n: nat)
    -> EntryPass
    decreases n,
{
    if n == 0 {
        start
    } else {
        entry_step(
            p,
            data,
            types[n - 1],
            (n - 1) as nat,
            entry_pass(p, data, types, start, (n - 1) as nat),
        )
    }
}

/// The first of the three bit widths of a map header that is over 31.
pub open spec fn width_fault(maphdr: Seq<u8>) -> Option<ChdError> {
    if maphdr[12] >= 32 {
        Some(ChdError::BitLengthTooBig(maphdr[12]))
    } else if maphdr[13] >= 32 {
        Some(ChdError::BitLengthTooBig(maphdr[13]))
    } else if maphdr[14] >= 32 {
        Some(ChdError::BitLengthTooBig(maphdr[14]))
    } else {
        None
    }
}

/// The records that a compressed map decodes to, or why it is rejected.
///
/// `maphdr` is the 16-byte map header and `comprmap` the bit stream after it.
/// The stream starts with the code lengths of a Huffman code of 16 symbols
/// of at most 8 bits, run-length coded; then come the two passes. The
/// decoded records must have the CRC-16 that the map header names.
pub open spec fn map_decode(
    hunkcount: nat,
    hunkbytes: nat,
    unitbytes: nat,
    maphdr: Seq<u8>,
    comprmap: Seq<u8>,
) -> Result<Seq<MapEntry>, ChdError> {
    let tree = rle_import(comprmap, BitState { pos: 0, overflow: false }, 16, 8);
    match tree.0 {
        Err(e) => Err(e),
        Ok(lengths) => {
            let first = type_pass(
                lengths,
                comprmap,
                TypePass { bits: tree.1, lastcomp: 0, repcount: 0, types: Seq::empty() },
                hunkcount,
            );
            match width_fault(maphdr) {
                Some(e) => Err(e),
                None => {
                    let p = MapParams {
                        hunkbytes,
                        unitbytes,
                        lengthbits: maphdr[12] as nat,
                        hunkbits: maphdr[13] as nat,
                        parentbits: maphdr[14] as nat,
                    };
                    let second = entry_pass(
                        p,
                        comprmap,
                        first.types,
                        EntryPass {
                            bits: first.bits,
                            curoffset: be_value(maphdr.subrange(4, 10)),
                            lastself: 0,
                            lastparent: 0,
                            entries: Seq::empty(),
                            fault: None,
                        },
                        hunkcount,
                    );
                    let crc = be_value(maphdr.subrange(10, 12)) as u16;
                    let calc = crc16_ccitt_false(map_image(second.entries));
                    match second.fault {
                        Some(e) => Err(e),
                        None => if calc != crc {
                            Err(ChdError::MapCrcMismatch { calc, crc })
                        } else {
                            Ok(second.entries)
                        },
                    }
                },
            }
        },
    }
}

/// An uncompressed map: one 32-bit big-endian number per hunk, the hunk's
/// offset in the image divided by the hunk size.
pub struct UncompressedMap5 {
    pub hunkbytes: u64,
    pub map: Vec<u8>,
}

impl UncompressedMap5 {
    /// The map holds whole records and the hunk size is one that a header can name.
    pub open spec fn wf(&self) -> bool {
        &&& self.map@.len() % 4 == 0
        &&& 1 <= self.hunkbytes <= 524288
    }

    /// The number of hunks.
    pub open spec fn count(&self) -> nat {
        self.map@.len() / 4
    }

    /// Where hunk `hunknum` lies: stored raw, whole, at the recorded multiple
    /// of the hunk size.
    pub open spec fn entry(&self, hunknum: int) -> MapHunk {
        (
            4u8,
            (be_value(self.map@.subrange(4 * hunknum, 4 * hunknum + 4)) * self.hunkbytes) as u64,
            self.hunkbytes as u32,
        )
    }

    /// The position of a hunk's record in the map.
    pub fn offset(hunknum: usize) -> (r: usize)
        requires
            4 * hunknum <= usize::MAX,
        ensures
            r == 4 * hunknum,
    {
        4 * hunknum
    }

    /// Takes the map of `header` from the image: four bytes per hunk at the map offset.
    pub fn read(io: &[u8], header: &Header) -> (r: Result<UncompressedMap5, ChdError>)
        requires
            header.wf(),
        ensures
            match image_range(io@, header.mapoffset as nat, 4 * header.hunkcount as nat) {
                Some(s) => r matches Ok(m) && m.map@ == s && m.hunkbytes == header.hunkbytes
                    && m.wf() && m.count() == header.hunkcount,
                None => r == Err::<UncompressedMap5, ChdError>(ChdError::ShortRead),
            },
    {
        let total = io.len() as u64;
        let need = 4 * (header.hunkcount as u64);
        if header.mapoffset > total || need > total - header.mapoffset {
            return Err(ChdError::ShortRead);
        }
        let start = header.mapoffset as usize;
        let end = start + need as usize;
        let map = vstd::slice::slice_to_vec(&io[start..end]);
        Ok(UncompressedMap5 { hunkbytes: header.hunkbytes as u64, map })
    }

    /// Where hunk `hunknum` lies.
    pub fn locate(&self, hunknum: usize) -> (r: MapHunk)
        requires
            self.wf(),
            hunknum < self.count(),
        ensures
            r == self.entry(hunknum as int),
    {
        let total = self.map.len();
        assert(4 * hunknum + 4 <= total);
        let offs = Self::offset(hunknum);
        let offset = read_be32(&self.map[offs..offs + 4]) as u64;
        assert(offset * self.hunkbytes <= 0xffff_ffff * 524288) by (nonlinear_arith)
            requires
                offset <= 0xffff_ffff,
                self.hunkbytes <= 524288,
        ;
        (COMPRESSION_NONE, offset * self.hunkbytes, self.hunkbytes as u32)
    }

    /// An uncompressed map holds no checksum to hold a hunk against.
    pub fn validate(&self, hunknum: usize, buf: &[u8]) -> (r: Result<(), ChdError>)
        ensures
            r == Err::<(), ChdError>(ChdError::NoChecksum),
    {
        Err(ChdError::NoChecksum)
    }
}

/// A read of `n` bits, `n` at most 31, gives a number below 2 to the power 31;
/// one of 16 bits a number below 65536.
pub proof fn lemma_read_bound(data: Seq<u8>, pos: nat, n: nat)
    requires
        n <= 31,
    ensures
        bits_value(data, pos, n) < 0x8000_0000,
        n == 16 ==> bits_value(data, pos, n) < 0x1_0000,
{
    lemma2_to64();
    lemma_bits_value_bound(data, pos, n);
    if n < 31 {
        lemma_pow2_strictly_increases(n, 31);
    }
}

/// The running values of the second pass.
pub struct EntryCursor {
    pub curoffset: u64,
    pub lastself: u64,
    pub lastparent: u64,
}

impl EntryCursor {
    /// The values are as small as `hunknum` steps can have left them.
    pub open spec fn bounded(&self, hunknum: nat) -> bool {
        &&& self.curoffset <= 0x1_0000_0000_0000 + hunknum * 0x8000_0000
        &&& self.lastself <= 0x8000_0000 + hunknum
        &&& self.lastparent <= 0x8_0000_0000_0000 + hunknum * 0x8_0000
    }

    /// Reads what the stream holds for one hunk and gives its record;
    /// nothing for a type that is not defined.
    fn next_entry(
        &mut self,
        bits: &mut BitReader,
        compression: u8,
        hunknum: usize,
        hunkbytes: u32,
        unitbytes: u32,
        lengthbits: usize,
        hunkbits: usize,
        parentbits: usize,
        Ghost(entries): Ghost<Seq<MapEntry>>,
    ) -> (r: Option<MapEntry>)
        requires
            old(bits).wf(),
            old(self).bounded(hunknum as nat),
            hunknum < u32::MAX,
            1 <= unitbytes <= hunkbytes <= 524288,
            lengthbits < 32,
            hunkbits < 32,
            parentbits < 32,
        ensures
            final(bits).wf(),
            final(bits).data() == old(bits).data(),
            final(self).bounded((hunknum + 1) as nat),
            ({
                let out = entry_step(
                    MapParams {
                        hunkbytes: hunkbytes as nat,
                        unitbytes: unitbytes as nat,
                        lengthbits: lengthbits as nat,
                        hunkbits: hunkbits as nat,
                        parentbits: parentbits as nat,
                    },
                    old(bits).data(),
                    compression,
                    hunknum as nat,
                    EntryPass {
                        bits: old(bits).state(),
                        curoffset: old(self).curoffset as nat,
                        lastself: old(self).lastself as nat,
                        lastparent: old(self).lastparent as nat,
                        entries,
                        fault: None,
                    },
                );
                match r {
                    Some(e) => out == (EntryPass {
                        bits: final(bits).state(),
                        curoffset: final(self).curoffset as nat,
                        lastself: final(self).lastself as nat,
                        lastparent: final(self).lastparent as nat,
                        entries: entries.push(e),
                        fault: None,
                    }) && e.compression <= 6,
                    None => out.fault == Some(
                        ChdError::UnknownCompression { hunk: hunknum as u32, kind: compression },
                    ),
                }
            }),
    {
        let ghost data = bits.data();
        proof {
            reveal(entry_step);
        }
        if compression <= COMPRESSION_TYPE_3 {
            // base types
            proof {
                lemma_read_bound(data, bits.state().pos, lengthbits as nat);
                lemma_read_bound(data, advance(data, bits.state(), lengthbits as nat).pos, 16);
            }
            let length = bits.read(lengthbits);
            let offset = self.curoffset;
            self.curoffset += length as u64;
            let crc = bits.read(16) as u16;
            Some(
                MapEntry {
                    compression,
                    complength: length % 0x100_0000,
                    offset: offset % 0x1_0000_0000_0000,
                    crc16: crc,
                },
            )
        } else if compression == COMPRESSION_NONE {
            proof {
                lemma_read_bound(data, bits.state().pos, 16);
            }
            let offset = self.curoffset;
            self.curoffset += hunkbytes as u64;
            let crc = bits.read(16) as u16;
            Some(
                MapEntry {
                    compression,
                    complength: hunkbytes % 0x100_0000,
                    offset: offset % 0x1_0000_0000_0000,
                    crc16: crc,
                },
            )
        } else if compression == COMPRESSION_SELF {
            proof {
                lemma_read_bound(data, bits.state().pos, hunkbits as nat);
            }
            let offset = bits.read(hunkbits) as u64;
            self.lastself = offset;
            Some(MapEntry { compression, complength: 0, offset, crc16: 0 })
        } else if compression == COMPRESSION_PARENT {
            proof {
                lemma_read_bound(data, bits.state().pos, parentbits as nat);
            }
            let offset = bits.read(parentbits) as u64;
            self.lastparent = offset;
            Some(MapEntry { compression, complength: 0, offset, crc16: 0 })
        } else if compression == COMPRESSION_SELF_0 || compression == COMPRESSION_SELF_1 {
            // pseudo-types; convert into base types
            self.lastself += (compression - COMPRESSION_SELF_0) as u64;
            Some(
                MapEntry {
                    compression: COMPRESSION_SELF,
                    complength: 0,
                    offset: self.lastself,
                    crc16: 0,
                },
            )
        } else if compression == COMPRESSION_PARENT_SELF {
            proof {
                assert(hunknum * hunkbytes <= 0xffff_ffff * 524288) by (nonlinear_arith)
                    requires
                        hunknum <= 0xffff_ffff,
                        hunkbytes <= 524288,
                ;
            }
            self.lastparent = ((hunknum as u64) * (hunkbytes as u64)) / (unitbytes as u64);
            Some(
                MapEntry {
                    compression: COMPRESSION_PARENT,
                    complength: 0,
                    offset: self.lastparent % 0x1_0000_0000_0000,
                    crc16: 0,
                },
            )
        } else if compression == COMPRESSION_PARENT_0 || compression == COMPRESSION_PARENT_1 {
            if compression == COMPRESSION_PARENT_1 {
                self.lastparent += (hunkbytes / unitbytes) as u64;
            }
            Some(
                MapEntry {
                    compression: COMPRESSION_PARENT,
                    complength: 0,
                    offset: self.lastparent % 0x1_0000_0000_0000,
                    crc16: 0,
                },
            )
        } else {
            None
        }
    }
}

/// A compressed map, decoded to one record per hunk.
pub struct CompressedMap5 {
    pub map: Vec<MapEntry>,
}

impl CompressedMap5 {
    /// Every record holds one of the types 0 to 6.
    pub open spec fn wf(&self) -> bool {
        forall|i: int| 0 <= i < self.map@.len() ==> (#[trigger] self.map@[i]).compression <= 6
    }

    /// The number of hunks.
    pub open spec fn count(&self) -> nat {
        self.map@.len()
    }

    /// Where hunk `hunknum` lies.
    pub open spec fn entry(&self, hunknum: int) -> MapHunk {
        (self.map@[hunknum].compression, self.map@[hunknum].offset, self.map@[hunknum].complength)
    }

    /// What holding `buf` against the checksum of hunk `hunknum` gives.
    pub open spec fn check(&self, hunknum: int, buf: Seq<u8>) -> Result<(), ChdError> {
        let e = self.map@[hunknum];
        let calc = crc16_ccitt_false(buf);
        if e.compression == 5 || e.compression == 6 {
            Err(ChdError::NoChecksum)
        } else if calc == e.crc16 {
            Ok(())
        } else {
            Err(ChdError::HunkCrcMismatch { hunk: hunknum as u32, calc, crc: e.crc16 })
        }
    }

    /// The position of a hunk's record among the 12-byte records of the map.
    pub fn offset(hunknum: usize) -> (r: usize)
        requires
            12 * hunknum <= usize::MAX,
        ensures
            r == 12 * hunknum,
    {
        12 * hunknum
    }

    /// A bit width of the map header as a number of bits to read.
    pub fn bit_length(val: u8) -> (r: Result<usize, ChdError>)
        ensures
            val < 32 ==> r == Ok::<usize, ChdError>(val as usize),
            val >= 32 ==> r == Err::<usize, ChdError>(ChdError::BitLengthTooBig(val)),
    {
        if val >= 32 {
            Err(ChdError::BitLengthTooBig(val))
        } else {
            Ok(val as usize)
        }
    }

    /// The 12 bytes of a record.
    fn record(e: &MapEntry) -> (r: Vec<u8>)
        ensures
            r@ == entry_bytes(*e),
    {
        let mut rec: Vec<u8> = vec![0u8; 12];
        proof {
            lemma_be_bytes_len(e.complength as nat, 3);
            lemma_be_bytes_len(e.offset as nat, 6);
            lemma_be_bytes_len(e.crc16 as nat, 2);
        }
        let whole = rec.as_mut_slice();
        let (kind, rest) = whole.split_at_mut(1);
        kind[0] = e.compression;
        let (length, rest) = rest.split_at_mut(3);
        write_be24(length, e.complength);
        let (offset, crc) = rest.split_at_mut(6);
        write_be48(offset, e.offset);
        write_be16(crc, e.crc16);
        assert(rec@ =~= entry_bytes(*e));
        rec
    }

    /// The CRC-16 of the records of a map.
    fn checksum(map: &Vec<MapEntry>) -> (r: u16)
        ensures
            r == crc16_ccitt_false(map_image(map@)),
    {
        let mut crc: u16 = 0xFFFF;
        let mut i: usize = 0;
        while i < map.len()
            invariant
                i <= map@.len(),
                crc == crc16_update(0xFFFF, map_image(map@.take(i as int))),
            decreases map@.len() - i,
        {
            let rec = Self::record(&map[i]);
            proof {
                let t = map@.take(i + 1);
                assert(t.drop_last() =~= map@.take(i as int));
                lemma_crc16_concat(0xFFFF, map_image(map@.take(i as int)), rec@);
            }
            crc = crc16_feed(crc, rec.as_slice());
            i += 1;
        }
        assert(map@.take(i as int) =~= map@);
        crc
    }

    /// Decodes the compression types of all hunks.
    fn decode_types(huffman: &mut Huffman, bits: &mut BitReader, hunkcount: usize) -> (types: Vec<
        u8,
    >)
        requires
            old(huffman).wf(),
            old(huffman).num_codes() == 16,
            old(huffman).max_bits() == 8,
            old(bits).wf(),
        ensures
            final(bits).wf(),
            final(bits).data() == old(bits).data(),
            ({
                let out = type_pass(
                    old(huffman).lengths(),
                    old(bits).data(),
                    TypePass {
                        bits: old(bits).state(),
                        lastcomp: 0,
                        repcount: 0,
                        types: Seq::empty(),
                    },
                    hunkcount as nat,
                );
                &&& types@ == out.types
                &&& final(bits).state() == out.bits
            }),
            types@.len() == hunkcount,
    {
        let mut types: Vec<u8> = Vec::new();
        let mut lastcomp: u8 = 0;
        let mut repcount: u32 = 0;
        let ghost lengths = huffman.lengths();
        let ghost data = bits.data();
        let ghost start = TypePass {
            bits: bits.state(),
            lastcomp: 0,
            repcount: 0,
            types: Seq::empty(),
        };
        let mut hunknum: usize = 0;
        while hunknum < hunkcount
            invariant
                hunknum <= hunkcount,
                huffman.wf(),
                huffman.num_codes() == 16,
                huffman.max_bits() == 8,
                huffman.lengths() == lengths,
                bits.wf(),
                bits.data() == data,
                repcount <= 2 + 16 + 15 * 16 + 15,
                types@.len() == hunknum,
                type_pass(lengths, data, start, hunknum as nat) == (TypePass {
                    bits: bits.state(),
                    lastcomp,
                    repcount: repcount as nat,
                    types: types@,
                }),
            decreases hunkcount - hunknum,
        {
            if repcount > 0 {
                repcount -= 1;
            } else {
                let val = huffman.decode_one(bits) as u8;
                if val == COMPRESSION_RLE_SMALL {
                    repcount = 2 + huffman.decode_one(bits);
                } else if val == COMPRESSION_RLE_LARGE {
                    repcount = 2 + 16 + huffman.decode_one(bits) * 16;
                    repcount += huffman.decode_one(bits);
                } else {
                    lastcomp = val;
                }
            }
            types.push(lastcomp);
            hunknum += 1;
        }
        types
    }

    /// Decodes a compressed map.
    ///
    /// `maphdr` is the 16-byte map header and `comprmap` the bit stream that
    /// follows it in the image.
    pub fn decompress(header: &Header, maphdr: &[u8], comprmap: &[u8]) -> (r: Result<
        Self,
        ChdError,
    >)
        requires
            header.wf(),
            maphdr@.len() == 16,
        ensures
            match map_decode(
                header.hunkcount as nat,
                header.hunkbytes as nat,
                header.unitbytes as nat,
                maphdr@,
                comprmap@,
            ) {
                Ok(entries) => r matches Ok(m) && m.map@ == entries && m.wf() && m.count()
                    == header.hunkcount,
                Err(e) => r == Err::<Self, ChdError>(e),
            },
    {
        let hunkcount = header.hunkcount as usize;
        let hunkbytes = header.hunkbytes;
        let unitbytes = header.unitbytes;

        let mut bits = BitReader::new(comprmap);
        let mut huffman = Huffman::new(16, 8);
        match huffman.import_tree_rle(&mut bits) {
            Err(e) => {
                return Err(e);
            },
            Ok(()) => {},
        }
        let ghost lengths = huffman.lengths();
        let ghost tree_end = bits.state();

        // first decode the compression types
        let types = Self::decode_types(&mut huffman, &mut bits, hunkcount);
        let ghost first = type_pass(
            lengths,
            comprmap@,
            TypePass { bits: tree_end, lastcomp: 0, repcount: 0, types: Seq::empty() },
            hunkcount as nat,
        );

        // then iterate through the hunks and extract the needed data
        let lengthbits = match Self::bit_length(maphdr[12]) {
            Err(e) => {
                return Err(e);
            },
            Ok(n) => n,
        };
        let hunkbits = match Self::bit_length(maphdr[13]) {
            Err(e) => {
                return Err(e);
            },
            Ok(n) => n,
        };
        let parentbits = match Self::bit_length(maphdr[14]) {
            Err(e) => {
                return Err(e);
            },
            Ok(n) => n,
        };
        let ghost p = MapParams {
            hunkbytes: hunkbytes as nat,
            unitbytes: unitbytes as nat,
            lengthbits: lengthbits as nat,
            hunkbits: hunkbits as nat,
            parentbits: parentbits as nat,
        };

        let mut map: Vec<MapEntry> = Vec::new();
        let mut cursor = EntryCursor {
            curoffset: read_be48(&maphdr[4..10]),
            lastself: 0,
            lastparent: 0,
        };
        let ghost start = EntryPass {
            bits: first.bits,
            curoffset: cursor.curoffset as nat,
            lastself: 0,
            lastparent: 0,
            entries: Seq::empty(),
            fault: None,
        };
        let mut hunknum: usize = 0;
        while hunknum < hunkcount
            invariant
                hunknum <= hunkcount,
                hunkcount <= u32::MAX,
                types@.len() == hunkcount,
                bits.wf(),
                bits.data() == comprmap@,
                1 <= unitbytes <= hunkbytes <= 524288,
                lengthbits < 32,
                hunkbits < 32,
                parentbits < 32,
                p == (MapParams {
                    hunkbytes: hunkbytes as nat,
                    unitbytes: unitbytes as nat,
                    lengthbits: lengthbits as nat,
                    hunkbits: hunkbits as nat,
                    parentbits: parentbits as nat,
                }),
                cursor.bounded(hunknum as nat),
                entry_pass(p, comprmap@, types@, start, hunkcount as nat).fault is Some ==> map_decode(
                    header.hunkcount as nat,
                    header.hunkbytes as nat,
                    header.unitbytes as nat,
                    maphdr@,
                    comprmap@,
                ) == Err::<Seq<MapEntry>, ChdError>(
                    entry_pass(p, comprmap@, types@, start, hunkcount as nat).fault.unwrap(),
                ),
                map@.len() == hunknum,
                forall|i: int| 0 <= i < map@.len() ==> (#[trigger] map@[i]).compression <= 6,
                entry_pass(p, comprmap@, types@, start, hunknum as nat) == (EntryPass {
                    bits: bits.state(),
                    curoffset: cursor.curoffset as nat,
                    lastself: cursor.lastself as nat,
                    lastparent: cursor.lastparent as nat,
                    entries: map@,
                    fault: None,
                }),
            decreases hunkcount - hunknum,
        {
            let compression = types[hunknum];
            let next = cursor.next_entry(
                &mut bits,
                compression,
                hunknum,
                hunkbytes,
                unitbytes,
                lengthbits,
                hunkbits,
                parentbits,
                Ghost(map@),
            );
            match next {
                None => {
                    proof {
                        lemma_entry_pass_stays_stopped(
                            p,
                            comprmap@,
                            types@,
                            start,
                            (hunknum + 1) as nat,
                            hunkcount as nat,
                        );
                    }
                    return Err(
                        ChdError::UnknownCompression { hunk: hunknum as u32, kind: compression },
                    );
                },
                Some(entry) => {
                    map.push(entry);
                },
            }
            hunknum += 1;
        }
        let crc = read_be16(&maphdr[10..12]);
        let calc = Self::checksum(&map);
        if calc != crc {
            return Err(ChdError::MapCrcMismatch { calc, crc });
        }
        Ok(CompressedMap5 { map })
    }

    /// Takes the map of `header` from the image: the 16-byte map header at
    /// the map offset, and the bit stream of the length that it names.
    pub fn read(io: &[u8], header: &Header) -> (r: Result<CompressedMap5, ChdError>)
        requires
            header.wf(),
        ensures
            match compressed_map_of(
                io@,
                header.mapoffset as nat,
                header.hunkcount as nat,
                header.hunkbytes as nat,
                header.unitbytes as nat,
            ) {
                Ok(entries) => r matches Ok(m) && m.map@ == entries && m.wf() && m.count()
                    == header.hunkcount,
                Err(e) => r == Err::<CompressedMap5, ChdError>(e),
            },
    {
        let total = io.len() as u64;
        if header.mapoffset > total || 16 > total - header.mapoffset {
            return Err(ChdError::ShortRead);
        }
        let start = header.mapoffset as usize;
        let maphdr = &io[start..start + 16];
        let maplength = read_be32(&maphdr[0..4]) as u64;
        assert(maphdr@.subrange(0, 4) =~= io@.subrange(start as int, start + 4));
        if maplength > total - header.mapoffset - 16 {
            return Err(ChdError::ShortRead);
        }
        let comprmap = &io[start + 16..start + 16 + maplength as usize];
        Self::decompress(header, maphdr, comprmap)
    }

    /// Where hunk `hunknum` lies.
    pub fn locate(&self, hunknum: usize) -> (r: MapHunk)
        requires
            hunknum < self.count(),
        ensures
            r == self.entry(hunknum as int),
    {
        let e = &self.map[hunknum];
        (e.compression, e.offset, e.complength)
    }

    /// Holds the bytes of a hunk against the checksum of its record.
    ///
    /// A reference to another hunk or to the parent has no checksum.
    pub fn validate(&self, hunknum: usize, buf: &[u8]) -> (r: Result<(), ChdError>)
        requires
            hunknum < self.count(),
            hunknum <= u32::MAX,
        ensures
            r == self.check(hunknum as int, buf@),
    {
        let e = &self.map[hunknum];
        if e.compression == COMPRESSION_SELF || e.compression == COMPRESSION_PARENT {
            return Err(ChdError::NoChecksum);
        }
        let crc = e.crc16;
        let calc = crc16_feed(0xFFFF, buf);
        if calc == crc {
            Ok(())
        } else {
            Err(ChdError::HunkCrcMismatch { hunk: hunknum as u32, calc, crc })
        }
    }
}

/// The records of the compressed map of an image with the given header.
pub open spec fn compressed_map_of(
    io: Seq<u8>,
    mapoffset: nat,
    hunkcount: nat,
    hunkbytes: nat,
    unitbytes: nat,
) -> Result<Seq<MapEntry>, ChdError> {
    match image_range(io, mapoffset, 16) {
        None => Err(ChdError::ShortRead),
        Some(maphdr) => match image_range(io, mapoffset + 16, be_value(maphdr.subrange(0, 4))) {
            None => Err(ChdError::ShortRead),
            Some(comprmap) => map_decode(hunkcount, hunkbytes, unitbytes, maphdr, comprmap),
        },
    }
}

/// A pass that has stopped keeps its fault.
pub proof fn lemma_entry_pass_stays_stopped(
    p: MapParams,
    data: Seq<u8>,
    types: Seq<u8>,
    start: EntryPass,
    k: nat,
    n: nat,
)
    requires
        k <= n,
        entry_pass(p, data, types, start, k).fault is Some,
    ensures
        entry_pass(p, data, types, start, n) == entry_pass(p, data, types, start, k),
    decreases n - k,
{
    reveal(entry_step);
    if k < n {
        lemma_entry_pass_stays_stopped(p, data, types, start, k, (n - 1) as nat);
    }
}

/// The map of an image, of either form.
pub enum HunkMap {
    Uncompressed(UncompressedMap5),
    Compressed(CompressedMap5),
}

impl HunkMap {
    /// The map is well formed.
    pub open spec fn wf(&self) -> bool {
        match self {
            HunkMap::Uncompressed(m) => m.wf(),
            HunkMap::Compressed(m) => m.wf(),
        }
    }

    /// The number of hunks.
    pub open spec fn count(&self) -> nat {
        match self {
            HunkMap::Uncompressed(m) => m.count(),
            HunkMap::Compressed(m) => m.count(),
        }
    }

    /// Where hunk `hunknum` lies.
    pub open spec fn entry(&self, hunknum: int) -> MapHunk {
        match self {
            HunkMap::Uncompressed(m) => m.entry(hunknum),
            HunkMap::Compressed(m) => m.entry(hunknum),
        }
    }

    /// What holding `buf` against the checksum of hunk `hunknum` gives.
    pub open spec fn check(&self, hunknum: int, buf: Seq<u8>) -> Result<(), ChdError> {
        match self {
            HunkMap::Uncompressed(m) => Err(ChdError::NoChecksum),
            HunkMap::Compressed(m) => m.check(hunknum, buf),
        }
    }

    /// Whether the map is the one that the image `io` holds for `header`.
    pub open spec fn matches(&self, io: Seq<u8>, header: Header) -> bool {
        match self {
            HunkMap::Uncompressed(m) => {
                &&& header.compressors[0] == 0
                &&& m.hunkbytes == header.hunkbytes
                &&& image_range(io, header.mapoffset as nat, 4 * header.hunkcount as nat) == Some(
                    m.map@,
                )
            },
            HunkMap::Compressed(m) => {
                &&& header.compressors[0] != 0
                &&& compressed_map_of(
                    io,
                    header.mapoffset as nat,
                    header.hunkcount as nat,
                    header.hunkbytes as nat,
                    header.unitbytes as nat,
                ) == Ok::<Seq<MapEntry>, ChdError>(m.map@)
            },
        }
    }

    /// The fault of the map that the image `io` holds for a header with
    /// these numbers, if it has one; `tag` is the tag of the first codec slot.
    pub open spec fn fault(
        io: Seq<u8>,
        tag: u32,
        mapoffset: nat,
        hunkcount: nat,
        hunkbytes: nat,
        unitbytes: nat,
    ) -> Option<ChdError> {
        if tag == 0 {
            match image_range(io, mapoffset, 4 * hunkcount) {
                Some(_) => None,
                None => Some(ChdError::ShortRead),
            }
        } else {
            match compressed_map_of(io, mapoffset, hunkcount, hunkbytes, unitbytes) {
                Ok(_) => None,
                Err(e) => Some(e),
            }
        }
    }

    /// Takes the map of `header` from the image: the plain form where the
    /// first codec slot is empty, the compressed form otherwise.
    pub fn read(io: &[u8], header: &Header) -> (r: Result<HunkMap, ChdError>)
        requires
            header.wf(),
        ensures
            match Self::fault(
                io@,
                header.compressors[0],
                header.mapoffset as nat,
                header.hunkcount as nat,
                header.hunkbytes as nat,
                header.unitbytes as nat,
            ) {
                Some(e) => r == Err::<HunkMap, ChdError>(e),
                None => r matches Ok(m) && m.matches(io@, *header) && m.wf() && m.count()
                    == header.hunkcount,
            },
    {
        if header.compressors[0] == 0 {
            match UncompressedMap5::read(io, header) {
                Err(e) => Err(e),
                Ok(m) => Ok(HunkMap::Uncompressed(m)),
            }
        } else {
            match CompressedMap5::read(io, header) {
                Err(e) => Err(e),
                Ok(m) => Ok(HunkMap::Compressed(m)),
            }
        }
    }

    /// Where hunk `hunknum` lies.
    pub fn locate(&self, hunknum: usize) -> (r: MapHunk)
        requires
            self.wf(),
            hunknum < self.count(),
        ensures
            r == self.entry(hunknum as int),
    {
        match self {
            HunkMap::Uncompressed(m) => m.locate(hunknum),
            HunkMap::Compressed(m) => m.locate(hunknum),
        }
    }

    /// Holds the bytes of a hunk against its checksum in the map.
    pub fn validate(&self, hunknum: usize, buf: &[u8]) -> (r: Result<(), ChdError>)
        requires
            hunknum < self.count(),
            hunknum <= u32::MAX,
        ensures
            r == self.check(hunknum as int, buf@),
    {
        match self {
            HunkMap::Uncompressed(m) => m.validate(hunknum, buf),
            HunkMap::Compressed(m) => m.validate(hunknum, buf),
        }
    }
}

} // verus!
