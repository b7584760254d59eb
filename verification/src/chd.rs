//! The reader: an opened image with a position in its logical data.

use vstd::prelude::*;
use crate::decompress::{
    Decompress, DecompressType, codec_output, codecs_fault, init, kind_of_tag, slots_ok,
};
use crate::error::ChdError;
use crate::header::{Header, header_fault};
use crate::image::{
    Image, SeekFrom, lemma_first_fault, lemma_logical_extend, lemma_logical_fails,
    lemma_logical_len, lemma_same_hunk, seek_target, zeros,
};
use crate::map::{COMPRESSION_NONE, COMPRESSION_PARENT, COMPRESSION_SELF, HunkMap, MapHunk};
use crate::tags::{tag_string, tag_text};
use crate::utils::{be_value, image_range, push_char, put_at, read_at};

verus! {

/// The parent of a reader, if one is attached.
pub type ParentType = Option<Box<Chd>>;

/// An opened image.
pub struct Chd {
    pub header: Header,
    pub filesize: u64,
    pub pos: u64,
    pub io: Vec<u8>,
    pub map: HunkMap,
    pub decompress: Vec<DecompressType>,
    /// The hunk that was decoded last for a read that did not cover it whole.
    pub cache: Vec<u8>,
    /// The index of the hunk in the cache; `usize::MAX` while it holds none.
    pub cachehunk: usize,
    pub parent: ParentType,
}

/// What an attached parent holds.
pub open spec fn parent_image(parent: ParentType) -> Option<Box<Image>>
    decreases parent,
{
    match parent {
        None => None,
        Some(p) => Some(Box::new(p.image())),
    }
}

/// How many images lie under this one.
pub open spec fn parent_depth(parent: ParentType) -> nat
    decreases parent,
{
    match parent {
        None => 0,
        Some(p) => 1 + parent_depth(p.parent),
    }
}

/// The parent, if there is one, is a reader in good order whose SHA-1 is
/// the one that the child's header names.
pub open spec fn parent_wf(parent: ParentType, header: Header) -> bool
    decreases parent,
{
    match parent {
        None => true,
        Some(p) => p.wf() && p.header.sha1@ == header.parentsha1@,
    }
}

/// The image that the parts of a reader stand for.
pub open spec fn image_of(header: Header, io: Seq<u8>, map: HunkMap, parent: ParentType) -> Image {
    Image { header, io, map, parent: parent_image(parent) }
}

/// Decodes the stored bytes of a hunk with the codec of slot `dindex`.
fn decompress_hunk(
    io: &[u8],
    header: &Header,
    maphunk: MapHunk,
    dindex: usize,
    decompress: &mut Vec<DecompressType>,
    buf: &mut [u8],
) -> (r: Result<(), ChdError>)
    requires
        dindex < 4,
        slots_ok(old(decompress)@, *header),
    ensures
        slots_ok(final(decompress)@, *header),
        final(buf)@.len() == old(buf)@.len(),
        match kind_of_tag(header.compressors[dindex as int], header.hunkbytes) {
            None => r == Err::<(), ChdError>(
                ChdError::NoDecompressor { offset: maphunk.1, slot: dindex as u8 },
            ),
            Some(kind) => match image_range(io@, maphunk.1 as nat, maphunk.2 as nat) {
                None => r == Err::<(), ChdError>(ChdError::ShortRead),
                Some(src) => match codec_output(kind, src, old(buf)@.len()) {
                    Ok(out) => r is Ok && final(buf)@ == out,
                    Err(e) => r == Err::<(), ChdError>(e),
                },
            },
        },
{
    let (compression, offset, length) = maphunk;
    let total = io.len() as u64;
    match &mut decompress[dindex] {
        None => Err(ChdError::NoDecompressor { offset, slot: dindex as u8 }),
        Some(d) => {
            if offset > total || length as u64 > total - offset {
                return Err(ChdError::ShortRead);
            }
            let start = offset as usize;
            let compbuf = &io[start..start + length as usize];
            d.decompress(compbuf, buf)
        },
    }
}

/// Reads a hunk's worth of the parent's logical data from `offset` on,
/// counted in units of the parent. Where the parent ends early, zeros follow.
fn read_parent(parent: &mut ParentType, header: &Header, offset: u64, buf: &mut [u8]) -> (r:
    Result<(), ChdError>)
    requires
        parent_wf(*old(parent), *header),
    ensures
        parent_wf(*final(parent), *header),
        parent_image(*final(parent)) == parent_image(*old(parent)),
        parent_depth(*final(parent)) == parent_depth(*old(parent)),
        final(buf)@.len() == old(buf)@.len(),
        match parent_image(*old(parent)) {
            None => r == Err::<(), ChdError>(ChdError::RequiresParent { offset }),
            Some(p) => match p.window(
                offset as nat * p.header.unitbytes as nat,
                old(buf)@.len(),
            ) {
                Ok(s) => r is Ok && final(buf)@ == s,
                Err(e) => r == Err::<(), ChdError>(e),
            },
        },
    decreases parent_depth(*old(parent)), 0nat,
{
    match parent {
        None => Err(ChdError::RequiresParent { offset }),
        Some(boxed) => (&mut **boxed).read_window(offset, buf),
    }
}

/// Reads a hunk that the map locates at `maphunk` and that is no reference
/// to another hunk of the same image.
fn read_hunk_at(
    io: &[u8],
    map: &HunkMap,
    header: &Header,
    decompress: &mut Vec<DecompressType>,
    parent: &mut ParentType,
    maphunk: MapHunk,
    buf: &mut [u8],
) -> (r: Result<(), ChdError>)
    requires
        header.wf(),
        slots_ok(old(decompress)@, *header),
        parent_wf(*old(parent), *header),
        old(buf)@.len() == header.hunkbytes,
    ensures
        slots_ok(final(decompress)@, *header),
        parent_wf(*final(parent), *header),
        parent_image(*final(parent)) == parent_image(*old(parent)),
        parent_depth(*final(parent)) == parent_depth(*old(parent)),
        final(buf)@.len() == old(buf)@.len(),
        match image_of(*header, io@, *map, *old(parent)).stored(maphunk) {
            Ok(s) => r is Ok && final(buf)@ == s,
            Err(e) => r == Err::<(), ChdError>(e),
        },
    decreases parent_depth(*old(parent)), 1nat,
{
    let (compression, offset, _) = maphunk;
    if compression == COMPRESSION_NONE {
        read_at(io, offset, buf)
    } else if compression == COMPRESSION_PARENT {
        read_parent(parent, header, offset, buf)
    } else if compression <= 3 {
        decompress_hunk(io, header, maphunk, compression as usize, decompress, buf)
    } else {
        Err(ChdError::UnsupportedCompression { offset, kind: compression })
    }
}

/// Reads hunk `hunknum` into `buf`, which holds one hunk.
///
/// References to other hunks of the same image are followed first, at
/// most as many as the image has hunks.
fn read_hunk(
    io: &[u8],
    map: &HunkMap,
    header: &Header,
    decompress: &mut Vec<DecompressType>,
    parent: &mut ParentType,
    hunknum: usize,
    buf: &mut [u8],
) -> (r: Result<(), ChdError>)
    requires
        header.wf(),
        map.wf(),
        map.count() == header.hunkcount,
        slots_ok(old(decompress)@, *header),
        parent_wf(*old(parent), *header),
        old(buf)@.len() == header.hunkbytes,
    ensures
        slots_ok(final(decompress)@, *header),
        parent_wf(*final(parent), *header),
        parent_image(*final(parent)) == parent_image(*old(parent)),
        parent_depth(*final(parent)) == parent_depth(*old(parent)),
        final(buf)@.len() == old(buf)@.len(),
        match image_of(*header, io@, *map, *old(parent)).hunk(hunknum as nat) {
            Ok(s) => r is Ok && final(buf)@ == s,
            Err(e) => r == Err::<(), ChdError>(e),
        },
    decreases parent_depth(*old(parent)), 2nat,
{
    let ghost img = image_of(*header, io@, *map, *old(parent));
    match resolve_hunk(map, header, hunknum, Ghost(img)) {
        Err(e) => Err(e),
        Ok((_, maphunk)) => read_hunk_at(io, map, header, decompress, parent, maphunk, buf),
    }
}

/// Follows the references to other hunks of the same image that start at
/// `hunknum`, and tells where the hunk at their end lies.
fn resolve_hunk(map: &HunkMap, header: &Header, hunknum: usize, Ghost(img): Ghost<Image>) -> (r:
    Result<(usize, MapHunk), ChdError>)
    requires
        map.wf(),
        map.count() == header.hunkcount,
        img.map == *map,
        img.header == *header,
    ensures
        match img.resolve(hunknum as nat, header.hunkcount as nat) {
            Ok(target) => r == Ok::<(usize, MapHunk), ChdError>(
                (target as usize, map.entry(target as int)),
            ) && target < header.hunkcount,
            Err(e) => r == Err::<(usize, MapHunk), ChdError>(e),
        },
{
    let count = header.hunkcount as usize;
    let mut target: u64 = hunknum as u64;
    let mut fuel: usize = count;
    loop
        invariant
            count == header.hunkcount,
            map.wf(),
            map.count() == header.hunkcount,
            img.map == *map,
            img.header == *header,
            img.resolve(hunknum as nat, count as nat) == img.resolve(target as nat, fuel as nat),
        decreases fuel,
    {
        if target >= count as u64 {
            return Err(ChdError::InvalidHunk { number: target, total: header.hunkcount });
        }
        let maphunk = map.locate(target as usize);
        if maphunk.0 != COMPRESSION_SELF {
            return Ok((target as usize, maphunk));
        }
        if fuel == 0 {
            return Err(ChdError::SelfReferenceLoop { hunk: target as u32 });
        }
        fuel -= 1;
        target = maphunk.1;
    }
}

/// The names of the first `n` codecs, a space before each.
pub open spec fn codec_names(compressors: Seq<u32>, n: nat) -> Seq<char>
    decreases n,
{
    if n == 0 {
        Seq::empty()
    } else {
        codec_names(compressors, (n - 1) as nat) + seq![' '] + tag_text(compressors[n - 1])
    }
}

/// The number of codec slots before the first empty one among the first `n`.
pub open spec fn codecs_used(compressors: Seq<u32>, n: nat) -> nat
    decreases n,
{
    if n == 0 {
        0
    } else if codecs_used(compressors, (n - 1) as nat) == n - 1 && compressors[n - 1] != 0 {
        n
    } else {
        codecs_used(compressors, (n - 1) as nat)
    }
}

/// The codecs of an image as text: the names of the slots before the first
/// empty one, or ` none` where the first slot is empty.
pub open spec fn compression_text(compressors: Seq<u32>) -> Seq<char> {
    if compressors[0] == 0 {
        seq![' ', 'n', 'o', 'n', 'e']
    } else {
        codec_names(compressors, codecs_used(compressors, 4))
    }
}

/// Where the first `i` slots hold codecs and the next one, if there is one,
/// is empty, `i` slots are used.
pub proof fn lemma_codec_names_end(compressors: Seq<u32>, i: nat)
    requires
        i <= 4,
        forall|k: int| 0 <= k < i ==> compressors[k] != 0,
        i < 4 ==> compressors[i as int] == 0,
    ensures
        codecs_used(compressors, 4) == i,
{
    reveal_with_fuel(codecs_used, 5);
}

/// One step of a read: what the cache names after the bytes up to the end of
/// the hunk that the read has reached, or up to the end of the read.
pub proof fn lemma_cached_after_step(cachehunk: usize, pos: nat, done: nat, n: nat, hb: nat)
    requires
        hb > 0,
        done < n,
        done == 0 || (pos + done) % hb == 0,
    ensures
        ({
            let at = pos + done;
            let length = if hb - at % hb < n - done {
                hb - at % hb
            } else {
                n - done
            };
            let before = Chd::cached_after(cachehunk, pos, done, hb);
            &&& Chd::cached_after(cachehunk, pos, (done + length) as nat, hb) == if at % hb == 0
                && length == hb {
                before
            } else {
                (at / hb) as usize
            }
            &&& done + length < n ==> (pos + done + length) % (hb as int) == 0
        }),
{
    let at = pos + done;
    let st = at % hb;
    let length = if hb - st < n - done {
        (hb - st) as nat
    } else {
        (n - done) as nat
    };
    vstd::arithmetic::div_mod::lemma_fundamental_div_mod(at as int, hb as int);
    assert(hb * (at / hb) == (at / hb) * hb) by (nonlinear_arith);
    if length == hb - st {
        // the chunk ends where the hunk ends
        assert((at / hb + 1) * hb == (at / hb) * hb + hb) by (nonlinear_arith);
        vstd::arithmetic::div_mod::lemma_fundamental_div_mod_converse(
            (at + length) as int,
            hb as int,
            (at / hb + 1) as int,
            0,
        );
        if done > 0 {
            // every chunk but the first starts a hunk: the first one ended its hunk
            if pos % hb != 0 {
            }
        }
    } else {
        // the read ends inside the hunk
        lemma_same_hunk(at, length, hb);
        lemma_same_hunk(at, (length - 1) as nat, hb);
    }
}

impl Chd {
    /// What the reader holds.
    pub open spec fn image(&self) -> Image
        decreases self,
    {
        Image {
            header: self.header,
            io: self.io@,
            map: self.map,
            parent: parent_image(self.parent),
        }
    }

    /// The reader is in good order: header and map agree, the codec slots
    /// hold what the header names, the position lies in the logical data,
    /// and the cache, where it claims a hunk, holds the bytes of that hunk.
    pub open spec fn wf(&self) -> bool
        decreases self,
    {
        &&& self.header.wf()
        &&& self.map.wf()
        &&& self.map.count() == self.header.hunkcount
        &&& self.filesize == self.io@.len()
        &&& self.pos <= self.header.size
        &&& slots_ok(self.decompress@, self.header)
        &&& self.cache@.len() == self.header.hunkbytes
        &&& (self.cachehunk != usize::MAX ==> self.cachehunk < self.header.hunkcount
            && self.image().hunk(self.cachehunk as nat) == Ok::<Seq<u8>, ChdError>(self.cache@))
        &&& parent_wf(self.parent, self.header)
    }

    /// Nothing but the position differs from `other`.
    pub open spec fn same_but_pos(&self, other: &Chd) -> bool {
        &&& self.header == other.header
        &&& self.filesize == other.filesize
        &&& self.io == other.io
        &&& self.map == other.map
        &&& self.decompress == other.decompress
        &&& self.cache == other.cache
        &&& self.cachehunk == other.cachehunk
        &&& self.parent == other.parent
    }

    /// The hunk that the cache names after a read of `n` bytes from `pos`,
    /// where it named `cachehunk` before: the last hunk of the range if the
    /// read ends inside it; else the first hunk if the read starts inside
    /// it; else the hunk that it named before.
    pub open spec fn cached_after(cachehunk: usize, pos: nat, n: nat, hunkbytes: nat) -> usize {
        if n == 0 {
            cachehunk
        } else if (pos + n) % hunkbytes != 0 {
            ((pos + n - 1) / (hunkbytes as int)) as usize
        } else if pos % hunkbytes != 0 {
            (pos / hunkbytes) as usize
        } else {
            cachehunk
        }
    }

    /// The first fault of an image, if it has one.
    pub open spec fn open_fault(io: Seq<u8>) -> Option<ChdError> {
        let data = io.subrange(0, 124);
        let tags = Seq::new(4, |k: int| be_value(data.subrange(16 + 4 * k, 20 + 4 * k)) as u32);
        let hunkbytes = be_value(data.subrange(56, 60));
        let size = be_value(data.subrange(32, 40));
        if io.len() < 124 {
            Some(ChdError::ShortRead)
        } else {
            match header_fault(data) {
                Some(e) => Some(e),
                None => match HunkMap::fault(
                    io,
                    tags[0],
                    be_value(data.subrange(40, 48)),
                    crate::header::hunk_count_of(size, hunkbytes),
                    hunkbytes,
                    be_value(data.subrange(60, 64)),
                ) {
                    Some(e) => Some(e),
                    None => codecs_fault(tags, hunkbytes as u32),
                },
            }
        }
    }

    /// Opens an image that is held in memory: reads the header, then the
    /// map, and makes the codecs.
    pub fn open(io: Vec<u8>) -> (r: Result<Chd, ChdError>)
        ensures
            match Self::open_fault(io@) {
                Some(e) => r == Err::<Chd, ChdError>(e),
                None => r matches Ok(chd) && chd.wf() && chd.io@ == io@ && chd.header.holds(
                    io@.subrange(0, 124),
                ) && chd.map.matches(io@, chd.header) && chd.pos == 0 && chd.parent is None
                    && chd.cachehunk == usize::MAX && chd.cache@ == zeros(
                    chd.header.hunkbytes as nat,
                ),
            },
    {
        if io.len() < 124 {
            return Err(ChdError::ShortRead);
        }
        let header = match Header::parse(&io[0..124]) {
            Err(e) => {
                return Err(e);
            },
            Ok(h) => h,
        };
        let map = match HunkMap::read(io.as_slice(), &header) {
            Err(e) => {
                return Err(e);
            },
            Ok(m) => m,
        };
        assert(header.compressors@ =~= Seq::new(
            4,
            |k: int| be_value(io@.subrange(0, 124).subrange(16 + 4 * k, 20 + 4 * k)) as u32,
        ));
        let decompress = match init(&header) {
            Err(e) => {
                return Err(e);
            },
            Ok(d) => d,
        };
        let filesize = io.len() as u64;
        let hunksize = header.hunkbytes as usize;
        let cache = vec![0u8; hunksize];
        assert(cache@ =~= zeros(hunksize as nat));
        let chd = Chd {
            header,
            filesize,
            pos: 0,
            io,
            map,
            decompress,
            cache,
            cachehunk: usize::MAX,  // definitely out of any hunk index value
            parent: None,
        };
        Ok(chd)
    }

    /// Whether two digests are the same.
    fn same_digest(a: &[u8; 20], b: &[u8; 20]) -> (r: bool)
        ensures
            r == (a@ == b@),
    {
        let mut i: usize = 0;
        while i < 20
            invariant
                i <= 20,
                forall|k: int| 0 <= k < i ==> a@[k] == b@[k],
            decreases 20 - i,
        {
            if a[i] != b[i] {
                return false;
            }
            i += 1;
        }
        assert(a@ =~= b@);
        true
    }

    /// Attaches `parent`, whose SHA-1 must be the one that this image names
    /// as its parent's. The cache is emptied.
    pub fn set_parent(&mut self, parent: Chd) -> (r: Result<(), ChdError>)
        requires
            old(self).wf(),
            parent.wf(),
        ensures
            final(self).wf(),
            if parent.header.sha1@ == old(self).header.parentsha1@ {
                &&& r is Ok
                &&& final(self).parent == Some(Box::new(parent))
                &&& final(self).cachehunk == usize::MAX
                &&& final(self).header == old(self).header
                &&& final(self).filesize == old(self).filesize
                &&& final(self).pos == old(self).pos
                &&& final(self).io == old(self).io
                &&& final(self).map == old(self).map
                &&& final(self).decompress == old(self).decompress
                &&& final(self).cache == old(self).cache
            } else {
                r == Err::<(), ChdError>(ChdError::WrongParent) && *final(self) == *old(self)
            },
    {
        if !Self::same_digest(&parent.header.sha1, &self.header.parentsha1) {
            return Err(ChdError::WrongParent);
        }
        self.cachehunk = usize::MAX;
        self.parent = Some(Box::new(parent));
        Ok(())
    }

    /// The size of the image in bytes.
    pub fn file_size(&self) -> (r: u64)
        ensures
            r == self.filesize,
    {
        self.filesize
    }

    /// The version of the format, 5.
    pub fn version(&self) -> (r: u32)
        ensures
            r == self.header.version,
    {
        self.header.version
    }

    /// The size of the logical data in bytes.
    pub fn size(&self) -> (r: u64)
        ensures
            r == self.header.size,
    {
        self.header.size
    }

    /// The size of a hunk in bytes.
    pub fn hunk_size(&self) -> (r: usize)
        ensures
            r == self.header.hunkbytes,
    {
        self.header.hunkbytes as usize
    }

    /// The size of a hunk in bytes.
    pub fn hunk_size_u32(&self) -> (r: u32)
        ensures
            r == self.header.hunkbytes,
    {
        self.header.hunkbytes
    }

    /// The number of hunks: the logical size divided by the hunk size, rounded up.
    pub fn hunk_count(&self) -> (r: usize)
        ensures
            r == self.header.hunkcount,
            self.wf() ==> r == crate::header::hunk_count_of(
                self.header.size as nat,
                self.header.hunkbytes as nat,
            ),
    {
        self.header.hunkcount as usize
    }

    /// The number of hunks: the logical size divided by the hunk size, rounded up.
    pub fn hunk_count_u32(&self) -> (r: u32)
        ensures
            r == self.header.hunkcount,
            self.wf() ==> r == crate::header::hunk_count_of(
                self.header.size as nat,
                self.header.hunkbytes as nat,
            ),
    {
        self.header.hunkcount
    }

    /// The size of a unit in bytes.
    pub fn unit_size(&self) -> (r: usize)
        ensures
            r == self.header.unitbytes,
    {
        self.header.unitbytes as usize
    }

    /// The size of a unit in bytes.
    pub fn unit_size_u32(&self) -> (r: u32)
        ensures
            r == self.header.unitbytes,
    {
        self.header.unitbytes
    }

    /// The size of a unit in bytes.
    pub fn unit_size_u64(&self) -> (r: u64)
        ensures
            r == self.header.unitbytes,
    {
        self.header.unitbytes as u64
    }

    /// Moves the position in the logical data and returns the new one.
    ///
    /// On an error the position stays.
    pub fn seek(&mut self, sf: SeekFrom) -> (r: Result<u64, ChdError>)
        requires
            old(self).wf(),
        ensures
            final(self).wf(),
            final(self).same_but_pos(old(self)),
            r == seek_target(old(self).pos, old(self).header.size, sf),
            final(self).pos == match r {
                Ok(p) => p,
                Err(_) => old(self).pos,
            },
    {
        proof {
            crate::header::lemma_hunk_count(
                self.header.size as nat,
                self.header.hunkbytes as nat,
            );
            assert(self.header.hunkcount * self.header.hunkbytes <= 0xffff_ffff * 524288)
                by (nonlinear_arith)
                requires
                    self.header.hunkcount <= 0xffff_ffff,
                    self.header.hunkbytes <= 524288,
            ;
        }
        let size = self.header.size as i64;
        let newpos: i64 = match sf {
            SeekFrom::Start(x) => {
                if x > self.header.size {
                    return Err(ChdError::InvalidSeek);
                }
                x as i64
            },
            SeekFrom::Current(x) => {
                match (self.pos as i64).checked_add(x) {
                    Some(xx) => xx,
                    None => {
                        return Err(ChdError::SeekOverflow);
                    },
                }
            },
            SeekFrom::End(x) => {
                match size.checked_add(x) {
                    Some(xx) => xx,
                    None => {
                        return Err(ChdError::SeekOverflow);
                    },
                }
            },
        };
        if newpos < 0 || newpos > size {
            return Err(ChdError::InvalidSeek);
        }
        self.pos = newpos as u64;
        Ok(self.pos)
    }

    /// Reads hunk `hunknum` into `buf`, which holds one hunk.
    pub fn read_hunk(&mut self, hunknum: usize, buf: &mut [u8]) -> (r: Result<(), ChdError>)
        requires
            old(self).wf(),
            old(buf)@.len() == old(self).header.hunkbytes,
        ensures
            final(self).wf(),
            final(self).image() == old(self).image(),
            final(self).pos == old(self).pos,
            final(self).cache == old(self).cache,
            final(self).cachehunk == old(self).cachehunk,
            parent_depth(final(self).parent) == parent_depth(old(self).parent),
            final(buf)@.len() == old(buf)@.len(),
            match old(self).image().hunk(hunknum as nat) {
                Ok(s) => r is Ok && final(buf)@ == s,
                Err(e) => r == Err::<(), ChdError>(e),
            },
        decreases parent_depth(old(self).parent), 3nat,
    {
        read_hunk(
            self.io.as_slice(),
            &self.map,
            &self.header,
            &mut self.decompress,
            &mut self.parent,
            hunknum,
            buf,
        )
    }

    /// Fills `buf` with the logical data from `offset` on, counted in
    /// units, and with zeros where the logical data ends early.
    fn read_window(&mut self, offset: u64, buf: &mut [u8]) -> (r: Result<(), ChdError>)
        requires
            old(self).wf(),
        ensures
            final(self).wf(),
            final(self).image() == old(self).image(),
            parent_depth(final(self).parent) == parent_depth(old(self).parent),
            final(buf)@.len() == old(buf)@.len(),
            match old(self).image().window(
                offset as nat * old(self).header.unitbytes as nat,
                old(buf)@.len(),
            ) {
                Ok(s) => r is Ok && final(buf)@ == s,
                Err(e) => r == Err::<(), ChdError>(e),
            },
        decreases parent_depth(old(self).parent), 6nat,
    {
        let ghost img = self.image();
        let start = match offset.checked_mul(self.unit_size_u64()) {
            None => {
                return Err(ChdError::SeekOverflow);
            },
            Some(x) => x,
        };
        // partial read is OK, last hunk in parent could be shorter than hunksize
        match self.seek(SeekFrom::Start(start)) {
            Err(e) => {
                return Err(e);
            },
            Ok(_) => {},
        }
        let got = match self.read(buf) {
            Err(e) => {
                return Err(e);
            },
            Ok(n) => n,
        };
        let total = buf.len();
        let ghost filled = buf@;
        proof {
            lemma_logical_len(img, start as nat, got as nat);
        }
        let mut i: usize = got;
        while i < total
            invariant
                got <= i <= total,
                total == buf@.len(),
                total == filled.len(),
                forall|k: int| 0 <= k < got ==> buf@[k] == filled[k],
                forall|k: int| got <= k < i ==> buf@[k] == 0,
            decreases total - i,
        {
            buf[i] = 0;
            i += 1;
        }
        assert(buf@ =~= filled.subrange(0, got as int) + zeros((total - got) as nat));
        assert(filled.subrange(0, got as int) =~= img.logical(start as nat, got as nat)->Ok_0);
        Ok(())
    }

    /// Decodes hunk `curhunk` straight into `buf`, from `done` on.
    fn fill_direct(&mut self, curhunk: usize, buf: &mut [u8], done: usize) -> (r: Result<
        (),
        ChdError,
    >)
        requires
            old(self).wf(),
            done + old(self).header.hunkbytes <= old(buf)@.len(),
        ensures
            final(self).wf(),
            final(self).image() == old(self).image(),
            final(self).pos == old(self).pos,
            final(self).cachehunk == old(self).cachehunk,
            parent_depth(final(self).parent) == parent_depth(old(self).parent),
            final(buf)@.len() == old(buf)@.len(),
            final(buf)@.subrange(done + old(self).header.hunkbytes, old(buf)@.len() as int) == old(
                buf,
            )@.subrange(done + old(self).header.hunkbytes, old(buf)@.len() as int),
            match old(self).image().hunk(curhunk as nat) {
                Ok(h) => r is Ok && h.len() == old(self).header.hunkbytes && final(buf)@ == old(
                    buf,
                )@.subrange(0, done as int) + h + old(buf)@.subrange(
                    done + old(self).header.hunkbytes,
                    old(buf)@.len() as int,
                ),
                Err(e) => r == Err::<(), ChdError>(e),
            },
        decreases parent_depth(old(self).parent), 3nat,
    {
        let length = self.header.hunkbytes as usize;
        let (head, tail) = buf.split_at_mut(done);
        let (window, rest) = tail.split_at_mut(length);
        let step = read_hunk(
            self.io.as_slice(),
            &self.map,
            &self.header,
            &mut self.decompress,
            &mut self.parent,
            curhunk,
            window,
        );
        proof {
            assert(buf@ =~= old(buf)@.subrange(0, done as int) + window@ + old(buf)@.subrange(
                done + length,
                old(buf)@.len() as int,
            ));
            assert(buf@.subrange(done + length, old(buf)@.len() as int) =~= old(buf)@.subrange(
                done + length,
                old(buf)@.len() as int,
            ));
        }
        step
    }

    /// Makes hunk `curhunk` the hunk in the cache.
    fn fill_cache(&mut self, curhunk: usize) -> (r: Result<(), ChdError>)
        requires
            old(self).wf(),
            curhunk < old(self).header.hunkcount,
        ensures
            final(self).wf(),
            final(self).image() == old(self).image(),
            final(self).pos == old(self).pos,
            parent_depth(final(self).parent) == parent_depth(old(self).parent),
            match old(self).image().hunk(curhunk as nat) {
                Ok(h) => r is Ok && h.len() == old(self).header.hunkbytes && final(self).cache@
                    == h && final(self).cachehunk == curhunk,
                Err(e) => r == Err::<(), ChdError>(e),
            },
        decreases parent_depth(old(self).parent), 3nat,
    {
        if curhunk != self.cachehunk {
            self.cachehunk = usize::MAX;
            let step = read_hunk(
                self.io.as_slice(),
                &self.map,
                &self.header,
                &mut self.decompress,
                &mut self.parent,
                curhunk,
                self.cache.as_mut_slice(),
            );
            match step {
                Err(e) => {
                    return Err(e);
                },
                Ok(()) => {},
            }
            self.cachehunk = curhunk;
        }
        Ok(())
    }

    /// Reads on from `done` bytes into a read of `n` bytes: the rest of the
    /// hunk that the read has reached, or as much of it as the read still
    /// wants. Returns the number of bytes added.
    fn read_chunk(&mut self, buf: &mut [u8], done: usize, n: usize) -> (r: Result<
        usize,
        ChdError,
    >)
        requires
            old(self).wf(),
            done < n <= old(buf)@.len(),
            old(self).pos + n <= old(self).header.size,
            old(self).image().logical(old(self).pos as nat, done as nat) == Ok::<
                Seq<u8>,
                ChdError,
            >(old(buf)@.subrange(0, done as int)),
        ensures
            final(self).wf(),
            final(self).image() == old(self).image(),
            final(self).pos == old(self).pos,
            parent_depth(final(self).parent) == parent_depth(old(self).parent),
            final(buf)@.len() == old(buf)@.len(),
            match r {
                Ok(length) => {
                    &&& 0 < length <= n - done
                    &&& length == if old(self).header.hunkbytes - (old(self).pos + done) % (old(
                        self,
                    ).header.hunkbytes as int) < n - done {
                        old(self).header.hunkbytes - (old(self).pos + done) % (old(
                            self,
                        ).header.hunkbytes as int)
                    } else {
                        n - done
                    }
                    &&& final(self).cachehunk == if (old(self).pos + done) % (old(
                        self,
                    ).header.hunkbytes as int) == 0 && length == old(self).header.hunkbytes {
                        old(self).cachehunk
                    } else {
                        ((old(self).pos + done) / (old(self).header.hunkbytes as int)) as usize
                    }
                    &&& old(self).image().logical(old(self).pos as nat, (done + length) as nat)
                        == Ok::<Seq<u8>, ChdError>(final(buf)@.subrange(0, done + length))
                    &&& final(buf)@.subrange(done + length, old(buf)@.len() as int) == old(
                        buf,
                    )@.subrange(done + length, old(buf)@.len() as int)
                },
                Err(e) => old(self).image().logical(old(self).pos as nat, n as nat) == Err::<
                    Seq<u8>,
                    ChdError,
                >(e) && final(buf)@.subrange(n as int, old(buf)@.len() as int) == old(
                    buf,
                )@.subrange(n as int, old(buf)@.len() as int),
            },
        decreases parent_depth(old(self).parent), 4nat,
    {
        let ghost img = self.image();
        let want = buf.len();
        let hunkbytes = self.header.hunkbytes as usize;
        let pos = self.pos;
        proof {
            crate::header::lemma_hunk_count(
                self.header.size as nat,
                self.header.hunkbytes as nat,
            );
            assert(self.header.hunkcount * self.header.hunkbytes <= 0xffff_ffff * 524288)
                by (nonlinear_arith)
                requires
                    self.header.hunkcount <= 0xffff_ffff,
                    self.header.hunkbytes <= 524288,
            ;
        }
        let at = pos + done as u64;
        let hunk64 = at / hunkbytes as u64;
        proof {
            let count = self.header.hunkcount;
            let hb = self.header.hunkbytes;
            assert(hunk64 < count) by (nonlinear_arith)
                requires
                    at < count * hb,
                    hunk64 == at / (hb as u64),
                    hb > 0,
            ;
        }
        let curhunk = hunk64 as usize;
        let startoffs = (at % hunkbytes as u64) as usize;
        let length = if hunkbytes - startoffs < n - done {
            hunkbytes - startoffs
        } else {
            n - done
        };
        if startoffs == 0 && length == hunkbytes && curhunk != self.cachehunk {
            // if it's a full hunk, just read directly from disk unless it's the cached hunk
            match self.fill_direct(curhunk, buf, done) {
                Err(e) => {
                    proof {
                        lemma_logical_fails(img, pos as nat, done as nat, n as nat, e);
                        assert(buf@.subrange(n as int, want as int) =~= buf@.subrange(
                            done + length,
                            want as int,
                        ).subrange(n - done - length, want - done - length));
                        assert(old(buf)@.subrange(n as int, want as int) =~= old(buf)@.subrange(
                            done + length,
                            want as int,
                        ).subrange(n - done - length, want - done - length));
                    }
                    return Err(e);
                },
                Ok(()) => {
                    proof {
                        let h = img.hunk(curhunk as nat)->Ok_0;
                        lemma_logical_extend(img, pos as nat, done as nat, length as nat, h);
                        assert(h.subrange(0, length as int) =~= h);
                        assert(buf@.subrange(0, done + length) =~= old(buf)@.subrange(
                            0,
                            done as int,
                        ) + h);
                    }
                },
            }
        } else {
            // otherwise, read from the cache
            match self.fill_cache(curhunk) {
                Err(e) => {
                    proof {
                        lemma_logical_fails(img, pos as nat, done as nat, n as nat, e);
                    }
                    return Err(e);
                },
                Ok(()) => {},
            }
            proof {
                lemma_logical_extend(img, pos as nat, done as nat, length as nat, self.cache@);
            }
            put_at(buf, done, &self.cache[startoffs..startoffs + length]);
            proof {
                assert(buf@.subrange(0, done + length) =~= old(buf)@.subrange(0, done as int)
                    + self.cache@.subrange(startoffs as int, startoffs + length));
            }
        }
        assert(buf@.subrange(done + length, want as int) =~= old(buf)@.subrange(
            done + length,
            want as int,
        ));
        Ok(length)
    }

    /// Reads from the position on, as much as `buf` holds and the logical
    /// data still has, and moves the position by the number of bytes read,
    /// which is returned.
    ///
    /// A hunk that the read covers whole is decoded straight into `buf`,
    /// unless it is the hunk in the cache; any other hunk goes through the
    /// cache. On an error the position stays, and the bytes that the read
    /// would have filled hold nothing in particular.
    pub fn read(&mut self, buf: &mut [u8]) -> (r: Result<usize, ChdError>)
        requires
            old(self).wf(),
        ensures
            final(self).wf(),
            final(self).image() == old(self).image(),
            parent_depth(final(self).parent) == parent_depth(old(self).parent),
            final(buf)@.len() == old(buf)@.len(),
            ({
                let left = old(self).header.size - old(self).pos;
                let n = if left < old(buf)@.len() {
                    left as nat
                } else {
                    old(buf)@.len()
                };
                match old(self).image().logical(old(self).pos as nat, n) {
                    Ok(s) => r == Ok::<usize, ChdError>(n as usize) && final(buf)@ == s + old(
                        buf,
                    )@.subrange(n as int, old(buf)@.len() as int) && final(self).pos == old(
                        self,
                    ).pos + n && final(self).cachehunk == Self::cached_after(
                        old(self).cachehunk,
                        old(self).pos as nat,
                        n,
                        old(self).header.hunkbytes as nat,
                    ),
                    Err(e) => r == Err::<usize, ChdError>(e) && final(self).pos == old(self).pos
                        && final(buf)@.subrange(n as int, old(buf)@.len() as int) == old(
                        buf,
                    )@.subrange(n as int, old(buf)@.len() as int),
                }
            }),
        decreases parent_depth(old(self).parent), 5nat,
    {
        let ghost img = self.image();
        let hasbytes = self.header.size - self.pos;
        let want = buf.len();
        let n: usize = if hasbytes < want as u64 {
            hasbytes as usize
        } else {
            want
        };
        let pos = self.pos;
        assert(buf@.subrange(0, 0) =~= Seq::<u8>::empty());
        let mut done: usize = 0;
        while done < n
            invariant
                done <= n,
                n <= want,
                want == buf@.len(),
                want == old(buf)@.len(),
                pos + n <= self.header.size,
                n == if self.header.size - pos < want {
                    self.header.size - pos
                } else {
                    want as int
                },
                self.wf(),
                self.pos == pos,
                pos == old(self).pos,
                self.image() == img,
                img == old(self).image(),
                parent_depth(self.parent) == parent_depth(old(self).parent),
                img.logical(pos as nat, done as nat) == Ok::<Seq<u8>, ChdError>(
                    buf@.subrange(0, done as int),
                ),
                buf@.subrange(done as int, want as int) == old(buf)@.subrange(
                    done as int,
                    want as int,
                ),
                self.cachehunk == Self::cached_after(
                    old(self).cachehunk,
                    pos as nat,
                    done as nat,
                    self.header.hunkbytes as nat,
                ),
                done < n ==> done == 0 || (pos + done) % (self.header.hunkbytes as int) == 0,
            decreases n - done,
        {
            let ghost before = buf@;
            match self.read_chunk(buf, done, n) {
                Err(e) => {
                    proof {
                        assert(before.subrange(n as int, want as int) =~= before.subrange(
                            done as int,
                            want as int,
                        ).subrange(n - done, want - done));
                        assert(old(buf)@.subrange(n as int, want as int) =~= old(buf)@.subrange(
                            done as int,
                            want as int,
                        ).subrange(n - done, want - done));
                    }
                    return Err(e);
                },
                Ok(length) => {
                    proof {
                        lemma_cached_after_step(
                            old(self).cachehunk,
                            pos as nat,
                            done as nat,
                            n as nat,
                            self.header.hunkbytes as nat,
                        );
                        assert(before.subrange(done + length, want as int) =~= before.subrange(
                            done as int,
                            want as int,
                        ).subrange(length as int, want - done));
                        assert(old(buf)@.subrange(done + length, want as int) =~= old(
                            buf,
                        )@.subrange(done as int, want as int).subrange(
                            length as int,
                            want - done,
                        ));
                    }
                    done += length;
                },
            }
        }
        self.pos = pos + n as u64;
        assert(buf@ =~= buf@.subrange(0, n as int) + old(buf)@.subrange(n as int, want as int));
        Ok(n)
    }

    /// Checks hunk `hunknum` against its checksum in the map.
    ///
    /// References to other hunks of the image are followed to their end. A
    /// hunk that lies in the parent cannot be checked here.
    pub fn validate_hunk(&mut self, hunknum: usize) -> (r: Result<(), ChdError>)
        requires
            old(self).wf(),
        ensures
            final(self).wf(),
            final(self).image() == old(self).image(),
            final(self).pos == old(self).pos,
            final(self).cache == old(self).cache,
            final(self).cachehunk == old(self).cachehunk,
            r == old(self).image().checked(hunknum as nat),
    {
        let ghost img = self.image();
        let (target, maphunk) = match resolve_hunk(&self.map, &self.header, hunknum, Ghost(img)) {
            Err(e) => {
                return Err(e);
            },
            Ok(found) => found,
        };
        if maphunk.0 == COMPRESSION_PARENT {
            return Err(ChdError::ParentNoChecksum { hunk: target as u32 });
        }
        let mut buf: Vec<u8> = vec![0u8; self.hunk_size()];
        match read_hunk_at(
            self.io.as_slice(),
            &self.map,
            &self.header,
            &mut self.decompress,
            &mut self.parent,
            maphunk,
            buf.as_mut_slice(),
        ) {
            Err(e) => {
                return Err(e);
            },
            Ok(()) => {},
        }
        self.map.validate(target, buf.as_slice())
    }

    /// Checks every hunk against its checksum and stops at the first error.
    pub fn validate(&mut self) -> (r: Result<(), ChdError>)
        requires
            old(self).wf(),
        ensures
            final(self).wf(),
            final(self).image() == old(self).image(),
            final(self).pos == old(self).pos,
            final(self).cache == old(self).cache,
            final(self).cachehunk == old(self).cachehunk,
            r == old(self).image().first_fault(old(self).header.hunkcount as nat),
    {
        let ghost img = self.image();
        let count = self.hunk_count();
        let mut i: usize = 0;
        while i < count
            invariant
                i <= count,
                count == self.header.hunkcount,
                self.wf(),
                self.image() == img,
                img == old(self).image(),
                self.pos == old(self).pos,
                self.cache == old(self).cache,
                self.cachehunk == old(self).cachehunk,
                img.first_fault(i as nat) is Ok,
            decreases count - i,
        {
            match self.validate_hunk(i) {
                Err(e) => {
                    proof {
                        lemma_first_fault(img, (i + 1) as nat, count as nat);
                    }
                    return Err(e);
                },
                Ok(()) => {},
            }
            i += 1;
        }
        Ok(())
    }

    /// Whether the header names a parent: any byte of the parent's SHA-1 is set.
    pub fn has_parent_digest(&self) -> (r: bool)
        ensures
            r == exists|k: int| 0 <= k < 20 && self.header.parentsha1[k] > 0,
    {
        let mut i: usize = 0;
        while i < 20
            invariant
                i <= 20,
                forall|k: int| 0 <= k < i ==> self.header.parentsha1[k] == 0,
            decreases 20 - i,
        {
            if self.header.parentsha1[i] > 0 {
                return true;
            }
            i += 1;
        }
        false
    }

    /// The codecs of the image as text: a space and the tag as text for each
    /// slot up to the first empty one, or ` none` where the first slot is empty.
    pub fn compression_summary(&self) -> (r: String)
        ensures
            r@ == compression_text(self.header.compressors@),
    {
        let mut text = String::new();
        let mut i: usize = 0;
        while i < 4 && self.header.compressors[i] != 0
            invariant
                i <= 4,
                forall|k: int| 0 <= k < i ==> self.header.compressors[k] != 0,
                text@ == codec_names(self.header.compressors@, i as nat),
            decreases 4 - i,
        {
            push_char(&mut text, ' ');
            let name = tag_string(self.header.compressors[i]);
            text.append(name.as_str());
            i += 1;
        }
        if i == 0 {
            proof {
                reveal_strlit(" none");
            }
            text.append(" none");
            assert(text@ =~= seq![' ', 'n', 'o', 'n', 'e']);
        } else {
            proof {
                lemma_codec_names_end(self.header.compressors@, i as nat);
            }
        }
        text
    }
}

} // verus!
