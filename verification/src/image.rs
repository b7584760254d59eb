//! What an image holds: the logical data that its header, its map and its
//! stored bytes stand for, on its own or on top of a parent image.

use vstd::prelude::*;
use crate::decompress::{codec_output, kind_of_tag};
use crate::error::ChdError;
use crate::header::Header;
use crate::map::{HunkMap, MapHunk};
use crate::utils::image_range;

verus! {

/// Where a seek starts from.
#[derive(Debug, Clone, Copy, PartialEq, Eq, Structural)]
pub enum SeekFrom {
    /// From the start of the logical data.
    Start(u64),
    /// From the end of the logical data.
    End(i64),
    /// From the current position.
    Current(i64),
}

/// Where a seek leads from position `pos` in `size` bytes of logical data.
///
/// A relative seek whose target does not fit in a signed 64-bit number
/// overflows; any target before the start or past the end is invalid. The
/// end itself is a valid target.
pub open spec fn seek_target(pos: u64, size: u64, sf: SeekFrom) -> Result<u64, ChdError> {
    let target: int = match sf {
        SeekFrom::Start(x) => x as int,
        SeekFrom::Current(x) => pos + x,
        SeekFrom::End(x) => size + x,
    };
    if !(sf is Start) && target > i64::MAX {
        Err(ChdError::SeekOverflow)
    } else if target < 0 || target > size {
        Err(ChdError::InvalidSeek)
    } else {
        Ok(target as u64)
    }
}

/// `n` zero bytes.
pub open spec fn zeros(n: nat) -> Seq<u8> {
    Seq::new(n, |i: int| 0u8)
}

/// An image as a value: its header, its bytes, its map, and its parent if
/// one is attached.
pub ghost struct Image {
    pub header: Header,
    pub io: Seq<u8>,
    pub map: HunkMap,
    pub parent: Option<Box<Image>>,
}

impl Image {
    /// The number of hunks.
    pub open spec fn count(self) -> nat {
        self.header.hunkcount as nat
    }

    /// The hunk size.
    pub open spec fn hunkbytes(self) -> nat {
        self.header.hunkbytes as nat
    }

    /// The hunk in which a chain of references to other hunks of this image
    /// ends, when it starts at `hunknum` and has at most `fuel` links.
    pub open spec fn resolve(self, hunknum: nat, fuel: nat) -> Result<nat, ChdError>
        decreases fuel,
    {
        if hunknum >= self.count() {
            Err(ChdError::InvalidHunk { number: hunknum as u64, total: self.header.hunkcount })
        } else if self.map.entry(hunknum as int).0 != 5 {
            Ok(hunknum)
        } else if fuel == 0 {
            Err(ChdError::SelfReferenceLoop { hunk: hunknum as u32 })
        } else {
            self.resolve(self.map.entry(hunknum as int).1 as nat, (fuel - 1) as nat)
        }
    }

    /// The bytes of a hunk that the map locates at `at` and that is no
    /// reference to another hunk of this image.
    ///
    /// - type 4: the bytes of the image at the offset;
    /// - type 6: the logical data of the parent from the offset, counted in
    ///   units of the parent, followed by zeros where the parent ends early;
    /// - types 0 to 3: what the codec of that slot makes of the stored bytes.
    pub open spec fn stored(self, at: MapHunk) -> Result<Seq<u8>, ChdError>
        decreases self, 0nat,
    {
        let (compression, offset, length) = at;
        if compression == 4 {
            match image_range(self.io, offset as nat, self.hunkbytes()) {
                Some(s) => Ok(s),
                None => Err(ChdError::ShortRead),
            }
        } else if compression == 6 {
            match self.parent {
                None => Err(ChdError::RequiresParent { offset }),
                Some(p) => p.window(offset as nat * p.header.unitbytes as nat, self.hunkbytes()),
            }
        } else if compression <= 3 {
            match kind_of_tag(self.header.compressors[compression as int], self.header.hunkbytes) {
                None => Err(ChdError::NoDecompressor { offset, slot: compression }),
                Some(kind) => match image_range(self.io, offset as nat, length as nat) {
                    None => Err(ChdError::ShortRead),
                    Some(src) => codec_output(kind, src, self.hunkbytes()),
                },
            }
        } else {
            Err(ChdError::UnsupportedCompression { offset, kind: compression })
        }
    }

    /// The bytes of hunk `hunknum`. A chain of references within the image
    /// may be as long as the image has hunks; a longer one runs in a circle.
    pub open spec fn hunk(self, hunknum: nat) -> Result<Seq<u8>, ChdError>
        decreases self, 1nat,
    {
        match self.resolve(hunknum, self.count()) {
            Err(e) => Err(e),
            Ok(target) => self.stored(self.map.entry(target as int)),
        }
    }

    /// The byte at position `at` of the logical data: byte `at % hunkbytes`
    /// of hunk `at / hunkbytes`.
    pub open spec fn byte_at(self, at: nat) -> Result<u8, ChdError>
        decreases self, 2nat,
    {
        match self.hunk(at / self.hunkbytes()) {
            Err(e) => Err(e),
            Ok(h) => Ok(h[(at % self.hunkbytes()) as int]),
        }
    }

    /// The `n` bytes of logical data from `start` on. The first byte whose
    /// hunk cannot be read gives the error.
    pub open spec fn logical(self, start: nat, n: nat) -> Result<Seq<u8>, ChdError>
        decreases self, n + 3,
    {
        if n == 0 {
            Ok(Seq::empty())
        } else {
            match self.logical(start, (n - 1) as nat) {
                Err(e) => Err(e),
                Ok(s) => match self.byte_at((start + n - 1) as nat) {
                    Err(e) => Err(e),
                    Ok(b) => Ok(s.push(b)),
                },
            }
        }
    }

    /// What a child sees of this image in `len` bytes from `start` on: the
    /// logical data as far as it goes, and zeros after its end.
    pub open spec fn window(self, start: nat, len: nat) -> Result<Seq<u8>, ChdError>
        decreases self, len + 4,
    {
        let n = if self.header.size - start < len {
            (self.header.size - start) as nat
        } else {
            len
        };
        if start > u64::MAX {
            Err(ChdError::SeekOverflow)
        } else if start > self.header.size {
            Err(ChdError::InvalidSeek)
        } else {
            match self.logical(start, n) {
                Err(e) => Err(e),
                Ok(s) => Ok(s + zeros((len - n) as nat)),
            }
        }
    }

    /// What checking hunk `hunknum` against the map gives: the hunk at the
    /// end of its chain of references must not lie in the parent, must be
    /// readable, and must have the checksum of its map entry.
    pub open spec fn checked(self, hunknum: nat) -> Result<(), ChdError> {
        match self.resolve(hunknum, self.count()) {
            Err(e) => Err(e),
            Ok(target) => if self.map.entry(target as int).0 == 6 {
                Err(ChdError::ParentNoChecksum { hunk: target as u32 })
            } else {
                match self.stored(self.map.entry(target as int)) {
                    Err(e) => Err(e),
                    Ok(bytes) => self.map.check(target as int, bytes),
                }
            },
        }
    }

    /// The first error among the checks of the first `n` hunks.
    pub open spec fn first_fault(self, n: nat) -> Result<(), ChdError>
        decreases n,
    {
        if n == 0 {
            Ok(())
        } else {
            match self.first_fault((n - 1) as nat) {
                Err(e) => Err(e),
                Ok(()) => self.checked((n - 1) as nat),
            }
        }
    }
}

/// A check that has failed at one hunk has failed for every longer run of hunks.
pub proof fn lemma_first_fault(img: Image, k: nat, n: nat)
    requires
        k <= n,
        img.first_fault(k) is Err,
    ensures
        img.first_fault(n) == img.first_fault(k),
    decreases n - k,
{
    if k < n {
        lemma_first_fault(img, k, (n - 1) as nat);
    }
}

/// What was read of the logical data has the length asked for.
pub proof fn lemma_logical_len(img: Image, start: nat, n: nat)
    ensures
        img.logical(start, n) matches Ok(s) ==> s.len() == n,
    decreases n,
{
    if n > 0 {
        lemma_logical_len(img, start, (n - 1) as nat);
    }
}

/// Reading on within one hunk appends a slice of that hunk.
pub proof fn lemma_logical_extend(img: Image, start: nat, k: nat, len: nat, h: Seq<u8>)
    requires
        img.hunkbytes() > 0,
        img.logical(start, k) is Ok,
        img.hunk((start + k) / img.hunkbytes()) == Ok::<Seq<u8>, ChdError>(h),
        h.len() == img.hunkbytes(),
        (start + k) % img.hunkbytes() + len <= img.hunkbytes(),
    ensures
        img.logical(start, k + len) == Ok::<Seq<u8>, ChdError>(
            img.logical(start, k)->Ok_0 + h.subrange(
                ((start + k) % img.hunkbytes()) as int,
                ((start + k) % img.hunkbytes() + len) as int,
            ),
        ),
    decreases len,
{
    let hb = img.hunkbytes();
    let off = (start + k) % hb;
    let prev = img.logical(start, k)->Ok_0;
    if len == 0 {
        assert(prev + h.subrange(off as int, off as int) =~= prev);
    } else {
        lemma_logical_extend(img, start, k, (len - 1) as nat, h);
        let at = (start + k + len - 1) as nat;
        lemma_same_hunk((start + k) as nat, (len - 1) as nat, hb);
        assert(img.byte_at(at) == Ok::<u8, ChdError>(h[off + len - 1]));
        assert(img.logical(start, k + len) == Ok::<Seq<u8>, ChdError>(
            (prev + h.subrange(off as int, off + len - 1)).push(h[off + len - 1]),
        ));
        assert((prev + h.subrange(off as int, off + len - 1)).push(h[off + len - 1]) =~= prev
            + h.subrange(off as int, (off + len) as int));
    }
}

/// A position that lies `j` bytes after `x`, where `j` bytes still fit in
/// the hunk of `x`, lies in the same hunk, `j` bytes further in.
pub proof fn lemma_same_hunk(x: nat, j: nat, hb: nat)
    requires
        hb > 0,
        x % hb + j < hb,
    ensures
        (x + j) / hb == x / hb,
        (x + j) % hb == x % hb + j,
{
    vstd::arithmetic::div_mod::lemma_fundamental_div_mod(x as int, hb as int);
    assert(hb * (x / hb) == (x / hb) * hb) by (nonlinear_arith);
    vstd::arithmetic::div_mod::lemma_fundamental_div_mod_converse(
        (x + j) as int,
        hb as int,
        (x / hb) as int,
        (x % hb + j) as int,
    );
}

/// Once a hunk cannot be read, no read that reaches it succeeds.
pub proof fn lemma_logical_fails(img: Image, start: nat, k: nat, n: nat, e: ChdError)
    requires
        img.hunkbytes() > 0,
        k < n,
        img.logical(start, k) is Ok,
        img.hunk((start + k) / img.hunkbytes()) == Err::<Seq<u8>, ChdError>(e),
    ensures
        img.logical(start, n) == Err::<Seq<u8>, ChdError>(e),
    decreases n - k,
{
    if n == k + 1 {
        assert(img.byte_at(start + k) == Err::<u8, ChdError>(e));
    } else {
        lemma_logical_fails(img, start, k, (n - 1) as nat, e);
    }
}

/// A seek from the start to a place in the logical data, its end included,
/// leads there, and a seek by nothing from there stays; a seek from the
/// start past the end fails. A seek to the end leads to the size, a seek
/// back from the end by the size leads to the start, and a seek back from
/// the start fails.
pub proof fn lemma_seek_laws(pos: u64, size: u64, s: u64)
    requires
        size <= i64::MAX,
    ensures
        s <= size ==> seek_target(pos, size, SeekFrom::Start(s)) == Ok::<u64, ChdError>(s)
            && seek_target(s, size, SeekFrom::Current(0)) == Ok::<u64, ChdError>(s),
        s > size ==> seek_target(pos, size, SeekFrom::Start(s)) is Err,
        seek_target(pos, size, SeekFrom::End(0)) == Ok::<u64, ChdError>(size),
        seek_target(size, size, SeekFrom::Current((-size) as i64)) == Ok::<u64, ChdError>(0),
        seek_target(0, size, SeekFrom::Current((-size - 1) as i64)) is Err,
{
}

/// The hunks of an image without compression are the bytes of the image at
/// the places that its map names: hunk `i` lies at the hunk size times the
/// number in the map.
pub proof fn lemma_uncompressed_hunk(img: Image, i: nat)
    requires
        img.map is Uncompressed,
        img.map.wf(),
        img.map.count() == img.count(),
        img.map->Uncompressed_0.hunkbytes == img.hunkbytes(),
        i < img.count(),
    ensures
        img.hunk(i) == match image_range(
            img.io,
            crate::utils::be_value(img.map->Uncompressed_0.map@.subrange(4 * i as int, 4 * i as int + 4))
                * img.hunkbytes(),
            img.hunkbytes(),
        ) {
            Some(s) => Ok::<Seq<u8>, ChdError>(s),
            None => Err::<Seq<u8>, ChdError>(ChdError::ShortRead),
        },
{
    let m = img.map->Uncompressed_0;
    let raw = crate::utils::be_value(m.map@.subrange(4 * i as int, 4 * i as int + 4));
    crate::utils::lemma_be_value_bound(m.map@.subrange(4 * i as int, 4 * i as int + 4));
    assert(crate::utils::pow256(4) == 0x1_0000_0000) by {
        reveal_with_fuel(crate::utils::pow256, 5);
    }
    assert(raw * m.hunkbytes <= 0xffff_ffff * 524288) by (nonlinear_arith)
        requires
            raw <= 0xffff_ffff,
            m.hunkbytes <= 524288,
    ;
}

/// A hunk that passes its check can be read, and the CRC-16 of its bytes is
/// the checksum in the map entry at the end of its chain of references.
pub proof fn lemma_checked_hunk(img: Image, i: nat)
    requires
        img.checked(i) is Ok,
    ensures
        img.map is Compressed,
        img.hunk(i) is Ok,
        img.resolve(i, img.count()) is Ok,
        crate::utils::crc16_ccitt_false(img.hunk(i)->Ok_0) == img.map->Compressed_0.map@[img.resolve(
            i,
            img.count(),
        )->Ok_0 as int].crc16,
{
}

/// What a read gives is what decoding every hunk that it touches in full
/// and cutting out the range gives: byte `k` of the result is the byte at
/// position `start + k`, which is byte `(start + k) % hunkbytes` of hunk
/// `(start + k) / hunkbytes`. The read fails with the error of the first
/// byte whose hunk cannot be decoded.
pub proof fn lemma_logical_slices(img: Image, start: nat, n: nat)
    ensures
        match img.logical(start, n) {
            Ok(s) => {
                &&& s.len() == n
                &&& forall|k: nat| k < n ==> #[trigger] img.byte_at(start + k) == Ok::<u8, ChdError>(s[k as int])
            },
            Err(e) => exists|k: nat|
                k < n && #[trigger] img.byte_at(start + k) == Err::<u8, ChdError>(e) && img.logical(
                    start,
                    k,
                ) is Ok,
        },
    decreases n,
{
    if n > 0 {
        let m = (n - 1) as nat;
        lemma_logical_slices(img, start, m);
        match img.logical(start, m) {
            Ok(prev) => {
                match img.byte_at(start + m) {
                    Ok(b) => {
                        let s = img.logical(start, n)->Ok_0;
                        assert(s == prev.push(b));
                        assert forall|k: nat| k < n implies #[trigger] img.byte_at(start + k)
                            == Ok::<u8, ChdError>(s[k as int]) by {
                            if k < m {
                                assert(s[k as int] == prev[k as int]);
                            }
                        }
                    },
                    Err(e) => {
                        assert(m < n && img.byte_at(start + m) == Err::<u8, ChdError>(e)
                            && img.logical(start, m) is Ok);
                    },
                }
            },
            Err(e) => {
                let k = choose|k: nat|
                    k < m && #[trigger] img.byte_at(start + k) == Err::<u8, ChdError>(e)
                        && img.logical(start, k) is Ok;
                assert(k < n);
            },
        }
    }
}

/// The check of a whole image passes if and only if the check of every
/// hunk passes.
pub proof fn lemma_first_fault_all(img: Image, n: nat)
    ensures
        img.first_fault(n) is Ok <==> forall|i: nat| i < n ==> (#[trigger] img.checked(i)) is Ok,
    decreases n,
{
    if n > 0 {
        lemma_first_fault_all(img, (n - 1) as nat);
        if img.first_fault(n) is Ok {
            assert forall|i: nat| i < n implies (#[trigger] img.checked(i)) is Ok by {
                if i < n - 1 {
                }
            }
        } else {
            if img.first_fault((n - 1) as nat) is Ok {
                assert(!(img.checked((n - 1) as nat) is Ok));
            }
        }
    }
}

/// The hunk that a chain of references reaches after `k` links from `hunknum`.
pub open spec fn chain(img: Image, hunknum: nat, k: nat) -> nat
    decreases k,
{
    if k == 0 {
        hunknum
    } else {
        img.map.entry(chain(img, hunknum, (k - 1) as nat) as int).1 as nat
    }
}

/// Whether the first `k + 1` hunks of a chain all lie in the image and all
/// are references to other hunks.
pub open spec fn chain_goes_on(img: Image, hunknum: nat, k: nat) -> bool {
    forall|i: nat|
        i <= k ==> (#[trigger] chain(img, hunknum, i)) < img.count() && img.map.entry(
            chain(img, hunknum, i) as int,
        ).0 == 5
}

/// The chain from the second hunk on is the chain from the first, one link on.
pub proof fn lemma_chain_shift(img: Image, hunknum: nat, k: nat)
    ensures
        chain(img, img.map.entry(hunknum as int).1 as nat, k) == chain(img, hunknum, k + 1),
    decreases k,
{
    if k > 0 {
        lemma_chain_shift(img, hunknum, (k - 1) as nat);
        assert(chain(img, hunknum, k + 1) == img.map.entry(chain(img, hunknum, k) as int).1);
    } else {
        assert(chain(img, hunknum, 0) == hunknum);
        assert(chain(img, hunknum, 1) == img.map.entry(chain(img, hunknum, 0) as int).1);
    }
}

/// Following a chain runs out of links exactly where the chain goes on for
/// as long as there are links.
pub proof fn lemma_resolve_chain(img: Image, hunknum: nat, fuel: nat)
    ensures
        img.resolve(hunknum, fuel) matches Err(ChdError::SelfReferenceLoop { .. }) <==> chain_goes_on(
            img,
            hunknum,
            fuel,
        ),
        chain_goes_on(img, hunknum, fuel) ==> img.resolve(hunknum, fuel) is Err,
    decreases fuel,
{
    let next = img.map.entry(hunknum as int).1 as nat;
    assert(chain(img, hunknum, 0) == hunknum);
    if hunknum < img.count() && img.map.entry(hunknum as int).0 == 5 {
        if fuel > 0 {
            let less = (fuel - 1) as nat;
            lemma_resolve_chain(img, next, less);
            if chain_goes_on(img, next, less) {
                assert forall|i: nat| i <= fuel implies (#[trigger] chain(img, hunknum, i))
                    < img.count() && img.map.entry(chain(img, hunknum, i) as int).0 == 5 by {
                    if i > 0 {
                        lemma_chain_shift(img, hunknum, (i - 1) as nat);
                        assert(chain(img, next, (i - 1) as nat) == chain(img, hunknum, i));
                    }
                }
            }
            if chain_goes_on(img, hunknum, fuel) {
                assert forall|i: nat| i <= less implies (#[trigger] chain(img, next, i))
                    < img.count() && img.map.entry(chain(img, next, i) as int).0 == 5 by {
                    lemma_chain_shift(img, hunknum, i);
                    assert(chain(img, hunknum, i + 1) == chain(img, next, i));
                }
            }
        }
    }
}

/// A chain that comes back to a hunk repeats from there on.
pub proof fn lemma_chain_repeats(img: Image, hunknum: nat, i: nat, j: nat, k: nat)
    requires
        chain(img, hunknum, i) == chain(img, hunknum, j),
    ensures
        chain(img, hunknum, i + k) == chain(img, hunknum, j + k),
    decreases k,
{
    if k > 0 {
        lemma_chain_repeats(img, hunknum, i, j, (k - 1) as nat);
    }
}

/// A chain that comes back to a hunk holds no hunk that it did not hold before.
pub proof fn lemma_chain_stays(img: Image, hunknum: nat, i: nat, j: nat, m: nat)
    requires
        i < j,
        chain(img, hunknum, i) == chain(img, hunknum, j),
        chain_goes_on(img, hunknum, j),
    ensures
        chain(img, hunknum, m) < img.count() && img.map.entry(chain(img, hunknum, m) as int).0 == 5,
    decreases m,
{
    if m > j {
        let back = (m - (j - i)) as nat;
        lemma_chain_repeats(img, hunknum, i, j, (m - j) as nat);
        assert(chain(img, hunknum, back) == chain(img, hunknum, m));
        lemma_chain_stays(img, hunknum, i, j, back);
    }
}

/// Among more hunks than the image holds, two are the same.
pub proof fn lemma_chain_meets(img: Image, hunknum: nat, k: nat) -> (r: (nat, nat))
    requires
        k >= img.count(),
        chain_goes_on(img, hunknum, k),
    ensures
        r.0 < r.1 <= k,
        chain(img, hunknum, r.0) == chain(img, hunknum, r.1),
{
    let s = Seq::new(k + 1, |i: int| chain(img, hunknum, i as nat));
    assert forall|i: int| 0 <= i < s.len() implies #[trigger] s[i] < img.count() by {
        assert(chain(img, hunknum, i as nat) < img.count());
    }
    let (a, b) = lemma_pigeonhole(s, img.count());
    (a as nat, b as nat)
}

/// Where more numbers are given than `bound` and each is below `bound`, two
/// of them are the same.
pub proof fn lemma_pigeonhole(s: Seq<nat>, bound: nat) -> (r: (int, int))
    requires
        s.len() > bound,
        forall|i: int| 0 <= i < s.len() ==> #[trigger] s[i] < bound,
    ensures
        0 <= r.0 < r.1 < s.len(),
        s[r.0] == s[r.1],
    decreases bound,
{
    if bound == 0 {
        assert(s[0] < 0);
        (0, 0)
    } else {
        let top = (bound - 1) as nat;
        if exists|a: int, b: int| 0 <= a < b < s.len() && #[trigger] s[a] == top && #[trigger] s[b] == top {
            let (a, b) = choose|a: int, b: int|
                0 <= a < b < s.len() && #[trigger] s[a] == top && #[trigger] s[b] == top;
            (a, b)
        } else {
            // at most one place holds the greatest number: leave that place out
            let skip = if exists|a: int| 0 <= a < s.len() && #[trigger] s[a] == top {
                choose|a: int| 0 <= a < s.len() && #[trigger] s[a] == top
            } else {
                s.len() - 1
            };
            let t = s.remove(skip);
            assert forall|i: int| 0 <= i < t.len() implies #[trigger] t[i] < top by {
                let at = if i < skip {
                    i
                } else {
                    i + 1
                };
                assert(t[i] == s[at]);
                assert(s[at] < bound);
                if s[at] == top {
                    if at < skip {
                        assert(0 <= at < skip < s.len() && s[at] == top && s[skip] == top);
                    } else {
                        assert(0 <= skip < at < s.len() && s[skip] == top && s[at] == top);
                    }
                }
            }
            let (a, b) = lemma_pigeonhole(t, top);
            let a2 = if a < skip {
                a
            } else {
                a + 1
            };
            let b2 = if b < skip {
                b
            } else {
                b + 1
            };
            assert(t[a] == s[a2]);
            assert(t[b] == s[b2]);
            (a2, b2)
        }
    }
}

/// The bound on the length of a chain of references turns away no chain
/// that ends: where as many links as the image has hunks do not lead to
/// an end, no number of links does.
pub proof fn lemma_loop_never_ends(img: Image, hunknum: nat, fuel: nat)
    requires
        img.resolve(hunknum, img.count()) matches Err(ChdError::SelfReferenceLoop { .. }),
    ensures
        img.resolve(hunknum, fuel) is Err,
{
    lemma_resolve_chain(img, hunknum, img.count());
    let (i, j) = lemma_chain_meets(img, hunknum, img.count());
    assert(chain_goes_on(img, hunknum, j));
    assert forall|m: nat| m <= fuel implies (#[trigger] chain(img, hunknum, m)) < img.count()
        && img.map.entry(chain(img, hunknum, m) as int).0 == 5 by {
        lemma_chain_stays(img, hunknum, i, j, m);
    }
    lemma_resolve_chain(img, hunknum, fuel);
}

} // verus!
