//! The fixed 124-byte header of a version 5 image.

use vstd::prelude::*;
use crate::error::ChdError;
use crate::utils::{be_value, read_be32, read_be64};

verus! {

/// The only version that is read.
pub const V5: u32 = 5;

/// The length of the header in bytes.
pub const HEADER_SIZE: usize = 124;

/// The greatest hunk size, 512 KiB.
pub const MAX_HUNK_BYTES: u32 = 524288;

/// The magic that starts every image: the ASCII text `MComprHD`.
pub open spec fn magic() -> Seq<u8> {
    seq![0x4du8, 0x43u8, 0x6fu8, 0x6du8, 0x70u8, 0x72u8, 0x48u8, 0x44u8]
}

/// The number of hunks that hold `size` bytes: `size / hunkbytes`, rounded up.
pub open spec fn hunk_count_of(size: nat, hunkbytes: nat) -> nat {
    ((size + hunkbytes - 1) / (hunkbytes as int)) as nat
}

/// The parsed header.
#[derive(Debug, Clone, Copy)]
pub struct Header {
    /// Length of the header, the magic and this field included.
    pub length: u32,
    /// Version of the format.
    pub version: u32,
    /// The tags of the four codec slots; 0 marks an empty slot.
    pub compressors: [u32; 4],
    /// Logical size of the data in bytes.
    pub size: u64,
    /// Offset of the hunk map in the image.
    pub mapoffset: u64,
    /// Offset of the first metadata blob in the image.
    pub metaoffset: u64,
    /// Bytes per hunk.
    pub hunkbytes: u32,
    /// Bytes per unit within a hunk.
    pub unitbytes: u32,
    /// SHA-1 of the raw data.
    pub rawsha1: [u8; 20],
    /// SHA-1 of the raw data and the metadata.
    pub sha1: [u8; 20],
    /// SHA-1 of the parent's raw data and metadata; all zero without a parent.
    pub parentsha1: [u8; 20],
    /// Number of hunks.
    pub hunkcount: u32,
}

/// The first fault of the bytes of a version 5 header whose length field
/// was read as `length`, if there is one.
pub open spec fn v5_fault(length: u32, data: Seq<u8>) -> Option<ChdError> {
    let hunkbytes = be_value(data.subrange(56, 60));
    let unitbytes = be_value(data.subrange(60, 64));
    let size = be_value(data.subrange(32, 40));
    if length != 124 {
        Some(ChdError::InvalidHeaderLength(length))
    } else if hunkbytes < 1 || hunkbytes > 524288 {
        Some(ChdError::InvalidHunkSize(hunkbytes as u32))
    } else if unitbytes < 1 || hunkbytes < unitbytes || hunkbytes % unitbytes != 0 {
        Some(ChdError::InvalidUnitSize { unit: unitbytes as u32, hunk: hunkbytes as u32 })
    } else if hunk_count_of(size, hunkbytes) > u32::MAX {
        Some(
            ChdError::HunkCountTooBig {
                count: hunk_count_of(size, hunkbytes) as u64,
                size: size as u64,
            },
        )
    } else {
        None
    }
}

/// The first fault of the first 124 bytes of an image, if there is one.
pub open spec fn header_fault(data: Seq<u8>) -> Option<ChdError> {
    let version = be_value(data.subrange(12, 16));
    if data.subrange(0, 8) != magic() {
        Some(ChdError::InvalidMagic)
    } else if version != 5 {
        Some(ChdError::UnsupportedVersion(version as u32))
    } else {
        v5_fault(be_value(data.subrange(8, 12)) as u32, data)
    }
}

impl Header {
    /// The sizes agree with each other as the format demands.
    pub open spec fn wf(&self) -> bool {
        &&& self.length == 124
        &&& self.version == 5
        &&& 1 <= self.hunkbytes <= 524288
        &&& 1 <= self.unitbytes <= self.hunkbytes
        &&& self.hunkbytes % self.unitbytes == 0
        &&& self.hunkcount == hunk_count_of(self.size as nat, self.hunkbytes as nat)
    }

    /// Every field after the version holds what the 124 bytes `data` spell.
    pub open spec fn holds_v5(&self, data: Seq<u8>) -> bool {
        &&& forall|k: int|
            0 <= k < 4 ==> self.compressors[k] == be_value(data.subrange(16 + 4 * k, 20 + 4 * k))
        &&& self.size == be_value(data.subrange(32, 40))
        &&& self.mapoffset == be_value(data.subrange(40, 48))
        &&& self.metaoffset == be_value(data.subrange(48, 56))
        &&& self.hunkbytes == be_value(data.subrange(56, 60))
        &&& self.unitbytes == be_value(data.subrange(60, 64))
        &&& self.rawsha1@ == data.subrange(64, 84)
        &&& self.sha1@ == data.subrange(84, 104)
        &&& self.parentsha1@ == data.subrange(104, 124)
        &&& self.hunkcount == hunk_count_of(self.size as nat, self.hunkbytes as nat)
    }

    /// Every field holds what the 124 bytes `data` spell.
    pub open spec fn holds(&self, data: Seq<u8>) -> bool {
        &&& self.length == be_value(data.subrange(8, 12))
        &&& self.version == be_value(data.subrange(12, 16))
        &&& self.holds_v5(data)
    }

    /// A header with every field zero.
    pub fn empty() -> (h: Self)
        ensures
            h.length == 0,
            h.version == 0,
            h.compressors@ == seq![0u32, 0u32, 0u32, 0u32],
            h.size == 0,
            h.mapoffset == 0,
            h.metaoffset == 0,
            h.hunkbytes == 0,
            h.unitbytes == 0,
            h.rawsha1@ == Seq::new(20, |i: int| 0u8),
            h.sha1@ == Seq::new(20, |i: int| 0u8),
            h.parentsha1@ == Seq::new(20, |i: int| 0u8),
            h.hunkcount == 0,
    {
        let h = Header {
            length: 0,
            version: 0,
            compressors: [0u32; 4],
            size: 0,
            mapoffset: 0,
            metaoffset: 0,
            hunkbytes: 0,
            unitbytes: 0,
            rawsha1: [0u8; 20],
            sha1: [0u8; 20],
            parentsha1: [0u8; 20],
            hunkcount: 0,
        };
        assert(h.compressors@ =~= seq![0u32, 0u32, 0u32, 0u32]);
        assert(h.rawsha1@ =~= Seq::new(20, |i: int| 0u8));
        assert(h.sha1@ =~= Seq::new(20, |i: int| 0u8));
        assert(h.parentsha1@ =~= Seq::new(20, |i: int| 0u8));
        h
    }

    /// The 20 bytes of a digest that start at `offset`.
    fn digest_at(data: &[u8], offset: usize) -> (d: [u8; 20])
        requires
            offset + 20 <= data@.len(),
        ensures
            d@ == data@.subrange(offset as int, offset + 20),
    {
        let mut d = [0u8; 20];
        let total = data.len();
        let mut i: usize = 0;
        while i < 20
            invariant
                i <= 20,
                offset + 20 <= data@.len(),
                total == data@.len(),
                d@.len() == 20,
                forall|k: int| 0 <= k < i ==> d@[k] == data@[offset + k],
            decreases 20 - i,
        {
            d[i] = data[offset + i];
            i += 1;
        }
        assert(d@ =~= data@.subrange(offset as int, offset + 20));
        d
    }

    /// Reads the fields that follow the version from the 124 bytes of a
    /// header, checks the sizes and computes the number of hunks.
    ///
    /// `length` must have been read already. On an error the fields are
    /// left partly read.
    pub fn read_header_v5(&mut self, data: &[u8]) -> (r: Result<(), ChdError>)
        requires
            data@.len() == 124,
        ensures
            final(self).length == old(self).length,
            final(self).version == old(self).version,
            match v5_fault(old(self).length, data@) {
                Some(e) => r == Err::<(), ChdError>(e),
                None => r is Ok && final(self).holds_v5(data@),
            },
    {
        if self.length != 124 {
            return Err(ChdError::InvalidHeaderLength(self.length));
        }
        self.compressors[0] = read_be32(&data[16..20]);
        self.compressors[1] = read_be32(&data[20..24]);
        self.compressors[2] = read_be32(&data[24..28]);
        self.compressors[3] = read_be32(&data[28..32]);
        self.size = read_be64(&data[32..40]);
        self.mapoffset = read_be64(&data[40..48]);
        self.metaoffset = read_be64(&data[48..56]);
        self.hunkbytes = read_be32(&data[56..60]);
        self.unitbytes = read_be32(&data[60..64]);
        self.rawsha1 = Self::digest_at(data, 64);
        self.sha1 = Self::digest_at(data, 84);
        self.parentsha1 = Self::digest_at(data, 104);

        // sanity checks
        if self.hunkbytes < 1 || self.hunkbytes > MAX_HUNK_BYTES {
            return Err(ChdError::InvalidHunkSize(self.hunkbytes));
        }
        if self.unitbytes < 1 || self.hunkbytes < self.unitbytes || self.hunkbytes
            % self.unitbytes > 0 {
            return Err(
                ChdError::InvalidUnitSize { unit: self.unitbytes, hunk: self.hunkbytes },
            );
        }
        let hunkbytes = self.hunkbytes as u64;
        let whole = self.size / hunkbytes;
        proof {
            let size = self.size;
            vstd::arithmetic::div_mod::lemma_fundamental_div_mod(size as int, hunkbytes as int);
            assert(size % hunkbytes > 0 ==> whole < u64::MAX) by (nonlinear_arith)
                requires
                    size == hunkbytes * whole + size % hunkbytes,
                    hunkbytes >= 1,
                    size <= u64::MAX,
            ;
        }
        let hunkcount = if self.size % hunkbytes > 0 {
            whole + 1
        } else {
            whole
        };
        assert(hunkcount == hunk_count_of(self.size as nat, hunkbytes as nat)) by {
            lemma_hunk_count(self.size as nat, hunkbytes as nat);
        }
        if hunkcount > u32::MAX as u64 {
            return Err(ChdError::HunkCountTooBig { count: hunkcount, size: self.size });
        }
        self.hunkcount = hunkcount as u32;
        Ok(())
    }

    /// Parses the 124 bytes at the start of an image.
    pub fn parse(data: &[u8]) -> (r: Result<Header, ChdError>)
        requires
            data@.len() == 124,
        ensures
            match header_fault(data@) {
                Some(e) => r == Err::<Header, ChdError>(e),
                None => r matches Ok(h) && h.holds(data@) && h.wf(),
            },
    {
        let magic_bytes: [u8; 8] = [0x4d, 0x43, 0x6f, 0x6d, 0x70, 0x72, 0x48, 0x44];
        let mut i: usize = 0;
        while i < 8
            invariant
                i <= 8,
                data@.len() == 124,
                magic_bytes@ == magic(),
                forall|k: int| 0 <= k < i ==> data@[k] == magic()[k],
            decreases 8 - i,
        {
            if data[i] != magic_bytes[i] {
                assert(data@.subrange(0, 8)[i as int] != magic()[i as int]);
                return Err(ChdError::InvalidMagic);
            }
            i += 1;
        }
        assert(data@.subrange(0, 8) =~= magic());
        let mut header = Header::empty();
        header.length = read_be32(&data[8..12]);
        header.version = read_be32(&data[12..16]);
        if header.version != V5 {
            return Err(ChdError::UnsupportedVersion(header.version));
        }
        match header.read_header_v5(data) {
            Err(e) => Err(e),
            Ok(()) => Ok(header),
        }
    }
}

/// Rounding a quotient up is adding one where a remainder is left.
pub proof fn lemma_hunk_count(size: nat, hunkbytes: nat)
    requires
        hunkbytes > 0,
    ensures
        hunk_count_of(size, hunkbytes) == size / hunkbytes + if size % hunkbytes > 0 {
            1nat
        } else {
            0nat
        },
        hunk_count_of(size, hunkbytes) * hunkbytes >= size,
        size > 0 ==> (hunk_count_of(size, hunkbytes) - 1) * hunkbytes < size,
        size == 0 ==> hunk_count_of(size, hunkbytes) == 0,
{
    let q = size / hunkbytes;
    let r = size % hunkbytes;
    assert(size == q * hunkbytes + r) by {
        vstd::arithmetic::div_mod::lemma_fundamental_div_mod(size as int, hunkbytes as int);
        assert(hunkbytes * q == q * hunkbytes) by (nonlinear_arith);
    }
    if r > 0 {
        assert((q * hunkbytes + r + hunkbytes - 1) / (hunkbytes as int) == q + 1) by {
            assert((q + 1) * hunkbytes == q * hunkbytes + hunkbytes) by (nonlinear_arith);
            assert(hunkbytes * (q + 1) == (q + 1) * hunkbytes) by (nonlinear_arith);
            vstd::arithmetic::div_mod::lemma_fundamental_div_mod_converse(
                q * hunkbytes + r + hunkbytes - 1,
                hunkbytes as int,
                (q + 1) as int,
                r - 1,
            );
            assert((q + 1) * hunkbytes == q * hunkbytes + hunkbytes) by (nonlinear_arith);
        }
        assert((q + 1) * hunkbytes == q * hunkbytes + hunkbytes) by (nonlinear_arith);
    } else {
        assert((q * hunkbytes + hunkbytes - 1) / (hunkbytes as int) == q) by {
            assert(hunkbytes * q == q * hunkbytes) by (nonlinear_arith);
            vstd::arithmetic::div_mod::lemma_fundamental_div_mod_converse(
                q * hunkbytes + hunkbytes - 1,
                hunkbytes as int,
                q as int,
                hunkbytes - 1,
            );
        }
        if size > 0 {
            assert(q > 0) by (nonlinear_arith)
                requires
                    size == q * hunkbytes,
                    size > 0,
            ;
            assert((q - 1) * hunkbytes == q * hunkbytes - hunkbytes) by (nonlinear_arith);
        } else {
            assert(q == 0) by (nonlinear_arith)
                requires
                    0 == q * hunkbytes,
                    hunkbytes > 0,
            ;
        }
    }
}

} // verus!
