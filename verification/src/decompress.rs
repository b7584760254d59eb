//! The codecs that turn the stored bytes of a hunk into the hunk.

use vstd::prelude::*;
use crate::bitstream::{BitReader, BitState};
use crate::error::ChdError;
use crate::header::Header;
use crate::huffman::{Huffman as HuffmanDecoder, decode_at, huffman_import};
use crate::tags::{
    CHD_CODEC_CD_FLAC, CHD_CODEC_CD_LZMA, CHD_CODEC_CD_ZLIB, CHD_CODEC_FLAC, CHD_CODEC_HUFF,
    CHD_CODEC_LZMA, CHD_CODEC_ZLIB,
};
use crate::utils::le_bytes;

pub mod cdrom;
pub mod flac;

pub use self::cdrom::{CdDecompress, CdFlac};
pub use self::flac::{Flac, FlacBlock};

verus! {

/// The greatest number of stored bytes that a map entry can name for a hunk:
/// its length has 24 bits.
pub const MAX_COMPRESSED_BYTES: usize = 0xFF_FFFF;

/// Which codec a value is, as far as its output depends on it.
pub ghost enum CodecKind {
    /// Huffman coded bytes.
    Huffman,
    /// Raw DEFLATE.
    Zlib,
    /// LZMA without a header, for images of the given hunk size.
    Lzma(nat),
    /// One FLAC frame of 16-bit stereo samples.
    Flac,
    /// CD frames whose sectors are FLAC frames and whose subcode is raw DEFLATE.
    CdFlac,
    /// CD frames whose sectors go through the first codec and whose subcode
    /// goes through the second.
    Cd(Box<CodecKind>, Box<CodecKind>),
    /// A codec that this library does not know, with its tag.
    Unknown(u32),
}

/// What the outside DEFLATE decoder makes of a raw stream: the inflated
/// bytes, or nothing where it rejects the stream.
pub uninterp spec fn inflated(src: Seq<u8>) -> Option<Seq<u8>>;

/// What the outside LZMA decoder makes of a stream that starts with the
/// property byte and the dictionary size, when told to unpack `size` bytes:
/// the bytes, or nothing where it rejects the stream.
pub uninterp spec fn lzma_unpacked(stream: Seq<u8>, size: u64) -> Option<Seq<u8>>;

/// The symbols that the next codes decode to, as bytes, and where the
/// stream stands after them.
pub open spec fn symbols(lengths: Seq<u8>, max_bits: nat, data: Seq<u8>, st: BitState, n: nat) -> (
    Seq<u8>,
    BitState,
)
    decreases n,
{
    if n == 0 {
        (Seq::empty(), st)
    } else {
        let prev = symbols(lengths, max_bits, data, st, (n - 1) as nat);
        let d = decode_at(lengths, max_bits, data, prev.1);
        (prev.0.push(d.0 as u8), d.1)
    }
}

/// The bytes of a Huffman coded hunk: the stream holds the code lengths of
/// 256 symbols of at most 16 bits, themselves Huffman coded, and then one
/// code for each byte. Running out of bits is an error.
pub open spec fn huffman_output(src: Seq<u8>, len: nat) -> Result<Seq<u8>, ChdError> {
    let tree = huffman_import(src, BitState { pos: 0, overflow: false }, 256, 16);
    match tree.0 {
        Err(e) => Err(e),
        Ok(lengths) => {
            let out = symbols(lengths, 16, src, tree.1, len);
            if out.1.overflow {
                Err(ChdError::HuffmanTooShort)
            } else {
                Ok(out.0)
            }
        },
    }
}

/// The bytes of a DEFLATE coded hunk: what the stream inflates to, which
/// must be as long as the hunk.
pub open spec fn zlib_output(src: Seq<u8>, len: nat) -> Result<Seq<u8>, ChdError> {
    match inflated(src) {
        None => Err(ChdError::InflateFailed),
        Some(out) => if out.len() == len {
            Ok(out)
        } else {
            Err(ChdError::InflateSize)
        },
    }
}

/// The dictionary size that goes with a hunk size: the smallest of the
/// sizes 2^12, 3 * 2^11, 2^13, 3 * 2^12, ... that holds a hunk, and 2^26
/// for a hunk of 2^26 bytes or more.
pub open spec fn lzma_dict_size(hunkbytes: nat) -> nat {
    lzma_dict_from(hunkbytes, 11)
}

/// The same, trying the sizes from 2 * 2^i on.
pub open spec fn lzma_dict_from(hunkbytes: nat, i: nat) -> nat
    decreases 26 - i,
{
    if i >= 25 || hunkbytes >= 0x400_0000 {
        0x400_0000
    } else if hunkbytes <= 2 * vstd::arithmetic::power2::pow2(i) {
        2 * vstd::arithmetic::power2::pow2(i)
    } else if hunkbytes <= 3 * vstd::arithmetic::power2::pow2(i) {
        3 * vstd::arithmetic::power2::pow2(i)
    } else {
        lzma_dict_from(hunkbytes, i + 1)
    }
}

/// The five bytes that an LZMA stream of this format leaves out: the
/// property byte 0x5D (3 literal context bits, no literal position bits, 2
/// position bits) and the dictionary size, least significant byte first.
pub open spec fn lzma_header(hunkbytes: nat) -> Seq<u8> {
    seq![0x5Du8] + le_bytes(lzma_dict_size(hunkbytes), 4)
}

/// The bytes of an LZMA coded hunk: what the stream unpacks to, which must
/// be as long as the hunk.
pub open spec fn lzma_output(hunkbytes: nat, src: Seq<u8>, len: nat) -> Result<Seq<u8>, ChdError> {
    if len > u64::MAX {
        Err(ChdError::LzmaFailed)
    } else {
        match lzma_unpacked(lzma_header(hunkbytes) + src, len as u64) {
            None => Err(ChdError::LzmaFailed),
            Some(out) => if out.len() == len {
                Ok(out)
            } else {
                Err(ChdError::LzmaFailed)
            },
        }
    }
}

/// What a codec of the given kind writes for `src` into a destination of
/// `len` bytes, or the error it gives.
#[verifier::opaque]
pub open spec fn codec_output(kind: CodecKind, src: Seq<u8>, len: nat) -> Result<Seq<u8>, ChdError>
    decreases kind,
{
    match kind {
        CodecKind::Huffman => huffman_output(src, len),
        CodecKind::Zlib => zlib_output(src, len),
        CodecKind::Lzma(hunkbytes) => lzma_output(hunkbytes, src, len),
        CodecKind::Flac => flac::flac_output(src, len),
        CodecKind::CdFlac => cdrom::cd_flac_output(src, len),
        CodecKind::Cd(base, subcode) => match cdrom::cd_split(src, len) {
            Err(e) => Err(e),
            Ok(parts) => match codec_output(*base, parts.1, cdrom::cd_frames_of(len) * 2352) {
                Err(e) => Err(e),
                Ok(sectors) => match codec_output(*subcode, parts.2, cdrom::cd_frames_of(len) * 96) {
                    Err(e) => Err(e),
                    Ok(sub) => Ok(
                        cdrom::cd_frames(sectors, sub, parts.0, cdrom::cd_frames_of(len)),
                    ),
                },
            },
        },
        CodecKind::Unknown(tag) => Err(ChdError::CodecNotImplemented(tag)),
    }
}

/// A codec for single hunks.
pub trait Decompress {
    /// Which codec this is.
    spec fn kind(&self) -> CodecKind;

    /// The codec is in a state in which it can decode.
    spec fn wf(&self) -> bool;

    /// Decodes `src` into `dest`, all of it.
    ///
    /// On an error `dest` holds no particular bytes.
    fn decompress(&mut self, src: &[u8], dest: &mut [u8]) -> (r: Result<(), ChdError>)
        requires
            old(self).wf(),
        ensures
            final(self).wf(),
            final(self).kind() == old(self).kind(),
            final(dest)@.len() == old(dest)@.len(),
            match codec_output(old(self).kind(), src@, old(dest)@.len()) {
                Ok(out) => r is Ok && final(dest)@ == out,
                Err(e) => r == Err::<(), ChdError>(e),
            },
    ;
}

/// The codec that a tag names for images of the given hunk size; nothing
/// for the tag 0, which marks an empty slot.
#[verifier::opaque]
pub open spec fn kind_of_tag(tag: u32, hunkbytes: u32) -> Option<CodecKind> {
    if tag == 0 {
        None
    } else if tag == CHD_CODEC_HUFF {
        Some(CodecKind::Huffman)
    } else if tag == CHD_CODEC_FLAC {
        Some(CodecKind::Flac)
    } else if tag == CHD_CODEC_LZMA {
        Some(CodecKind::Lzma(hunkbytes as nat))
    } else if tag == CHD_CODEC_ZLIB {
        Some(CodecKind::Zlib)
    } else if tag == CHD_CODEC_CD_FLAC {
        Some(CodecKind::CdFlac)
    } else if tag == CHD_CODEC_CD_LZMA {
        Some(
            CodecKind::Cd(
                Box::new(CodecKind::Lzma(hunkbytes as nat)),
                Box::new(CodecKind::Zlib),
            ),
        )
    } else if tag == CHD_CODEC_CD_ZLIB {
        Some(CodecKind::Cd(Box::new(CodecKind::Zlib), Box::new(CodecKind::Zlib)))
    } else {
        Some(CodecKind::Unknown(tag))
    }
}

/// Whether no codec can be made for a tag: the codec for CD frames with
/// FLAC wants hunks of whole frames.
pub open spec fn tag_fault(tag: u32, hunkbytes: u32) -> bool {
    tag == CHD_CODEC_CD_FLAC && hunkbytes % 2448 != 0
}

/// The first of the four tags for which no codec can be made.
pub open spec fn codecs_fault(compressors: Seq<u32>, hunkbytes: u32) -> Option<ChdError> {
    if tag_fault(compressors[0], hunkbytes) || tag_fault(compressors[1], hunkbytes) || tag_fault(
        compressors[2],
        hunkbytes,
    ) || tag_fault(compressors[3], hunkbytes) {
        Some(ChdError::InvalidHunkSize(hunkbytes))
    } else {
        None
    }
}

/// Any of the codecs.
pub enum Codec {
    Huffman(Huffman),
    Flac(Flac),
    Lzma(Lzma),
    Zlib(Inflate),
    CdFlac(CdFlac),
    CdLzma(CdDecompress<Lzma, Inflate>),
    CdZlib(CdDecompress<Inflate, Inflate>),
    Unknown(Unknown),
}

/// What a codec slot holds.
pub type DecompressType = Option<Codec>;

impl Decompress for Codec {
    open spec fn kind(&self) -> CodecKind {
        match self {
            Codec::Huffman(c) => c.kind(),
            Codec::Flac(c) => c.kind(),
            Codec::Lzma(c) => c.kind(),
            Codec::Zlib(c) => c.kind(),
            Codec::CdFlac(c) => c.kind(),
            Codec::CdLzma(c) => c.kind(),
            Codec::CdZlib(c) => c.kind(),
            Codec::Unknown(c) => c.kind(),
        }
    }

    open spec fn wf(&self) -> bool {
        match self {
            Codec::Huffman(c) => c.wf(),
            Codec::Flac(c) => c.wf(),
            Codec::Lzma(c) => c.wf(),
            Codec::Zlib(c) => c.wf(),
            Codec::CdFlac(c) => c.wf(),
            Codec::CdLzma(c) => c.wf(),
            Codec::CdZlib(c) => c.wf(),
            Codec::Unknown(c) => c.wf(),
        }
    }

    fn decompress(&mut self, src: &[u8], dest: &mut [u8]) -> (r: Result<(), ChdError>) {
        proof {
            reveal_with_fuel(codec_output, 1);
        }
        match self {
            Codec::Huffman(c) => c.decompress(src, dest),
            Codec::Flac(c) => c.decompress(src, dest),
            Codec::Lzma(c) => c.decompress(src, dest),
            Codec::Zlib(c) => c.decompress(src, dest),
            Codec::CdFlac(c) => c.decompress(src, dest),
            Codec::CdLzma(c) => c.decompress(src, dest),
            Codec::CdZlib(c) => c.decompress(src, dest),
            Codec::Unknown(c) => c.decompress(src, dest),
        }
    }
}

/// Which codec a slot holds, if any.
pub open spec fn slot_kind(slot: DecompressType) -> Option<CodecKind> {
    match slot {
        None => None,
        Some(c) => Some(c.kind()),
    }
}

/// The slot is empty or its codec can decode.
pub open spec fn slot_wf(slot: DecompressType) -> bool {
    match slot {
        None => true,
        Some(c) => c.wf(),
    }
}

/// The slots hold the codecs that the header names.
pub open spec fn slots_ok(slots: Seq<DecompressType>, header: Header) -> bool {
    &&& slots.len() == 4
    &&& forall|k: int|
        0 <= k < 4 ==> slot_wf(#[trigger] slots[k]) && slot_kind(slots[k]) == kind_of_tag(
            header.compressors[k],
            header.hunkbytes,
        )
}

/// Makes the codec for one slot.
pub fn create(header: &Header, tag: u32) -> (r: Result<DecompressType, ChdError>)
    ensures
        if tag_fault(tag, header.hunkbytes) {
            r == Err::<DecompressType, ChdError>(ChdError::InvalidHunkSize(header.hunkbytes))
        } else {
            r matches Ok(slot) && slot_wf(slot) && slot_kind(slot) == kind_of_tag(
                tag,
                header.hunkbytes,
            )
        },
{
    proof {
        reveal(kind_of_tag);
    }
    if tag == 0 {
        Ok(None)
    } else if tag == CHD_CODEC_HUFF {
        Ok(Some(Codec::Huffman(Huffman::new())))
    } else if tag == CHD_CODEC_FLAC {
        Ok(Some(Codec::Flac(Flac::new())))
    } else if tag == CHD_CODEC_LZMA {
        Ok(Some(Codec::Lzma(Lzma::new(header.hunkbytes).unwrap())))
    } else if tag == CHD_CODEC_ZLIB {
        Ok(Some(Codec::Zlib(Inflate::new())))
    } else if tag == CHD_CODEC_CD_FLAC {
        if header.hunkbytes % 2448 != 0 {
            Err(ChdError::InvalidHunkSize(header.hunkbytes))
        } else {
            Ok(Some(Codec::CdFlac(CdFlac::new(header.hunkbytes))))
        }
    } else if tag == CHD_CODEC_CD_LZMA {
        Ok(
            Some(
                Codec::CdLzma(
                    CdDecompress::construct(
                        Lzma::new(header.hunkbytes).unwrap(),
                        Inflate::new(),
                        header.hunkbytes,
                    ),
                ),
            ),
        )
    } else if tag == CHD_CODEC_CD_ZLIB {
        Ok(
            Some(
                Codec::CdZlib(
                    CdDecompress::construct(Inflate::new(), Inflate::new(), header.hunkbytes),
                ),
            ),
        )
    } else {
        Ok(Some(Codec::Unknown(Unknown::new(tag))))
    }
}

/// Makes the codecs for the four slots of a header.
pub fn init(header: &Header) -> (r: Result<Vec<DecompressType>, ChdError>)
    ensures
        match codecs_fault(header.compressors@, header.hunkbytes) {
            Some(e) => r == Err::<Vec<DecompressType>, ChdError>(e),
            None => r matches Ok(slots) && slots_ok(slots@, *header),
        },
{
    let mut slots: Vec<DecompressType> = Vec::new();
    let mut k: usize = 0;
    while k < 4
        invariant
            k <= 4,
            slots@.len() == k,
            forall|j: int| 0 <= j < k ==> !tag_fault(header.compressors[j], header.hunkbytes),
            forall|j: int|
                0 <= j < k ==> slot_wf(#[trigger] slots@[j]) && slot_kind(slots@[j]) == kind_of_tag(
                    header.compressors[j],
                    header.hunkbytes,
                ),
        decreases 4 - k,
    {
        match create(header, header.compressors[k]) {
            Err(e) => {
                return Err(e);
            },
            Ok(slot) => {
                slots.push(slot);
            },
        }
        k += 1;
    }
    Ok(slots)
}

/// Stands in a slot whose tag names no codec of this library; it cannot decode.
pub struct Unknown {
    pub tag: u32,
}

impl Unknown {
    /// A stand-in for the codec that `tag` names.
    pub fn new(tag: u32) -> (r: Self)
        ensures
            r.tag == tag,
            r.kind() == CodecKind::Unknown(tag),
    {
        Self { tag }
    }
}

impl Decompress for Unknown {
    open spec fn kind(&self) -> CodecKind {
        CodecKind::Unknown(self.tag)
    }

    open spec fn wf(&self) -> bool {
        true
    }

    fn decompress(&mut self, src: &[u8], dest: &mut [u8]) -> (r: Result<(), ChdError>) {
        proof {
            reveal_with_fuel(codec_output, 1);
        }
        Err(ChdError::CodecNotImplemented(self.tag))
    }
}

/// The Huffman codec.
pub struct Huffman {
    inner: HuffmanDecoder,
}

impl Huffman {
    /// A codec for Huffman coded hunks.
    pub fn new() -> (r: Self)
        ensures
            r.wf(),
            r.kind() == CodecKind::Huffman,
    {
        Self { inner: HuffmanDecoder::new(256, 16) }
    }
}

impl Decompress for Huffman {
    open spec fn kind(&self) -> CodecKind {
        CodecKind::Huffman
    }

    closed spec fn wf(&self) -> bool {
        &&& self.inner.wf()
        &&& self.inner.num_codes() == 256
        &&& self.inner.max_bits() == 16
    }

    fn decompress(&mut self, src: &[u8], dest: &mut [u8]) -> (r: Result<(), ChdError>) {
        proof {
            reveal_with_fuel(codec_output, 1);
        }
        let mut stream = BitReader::new(src);
        match self.inner.import_tree_huffman(&mut stream) {
            Err(e) => {
                return Err(e);
            },
            Ok(()) => {},
        }
        let ghost lengths = self.inner.lengths();
        let ghost start = stream.state();
        let n = dest.len();
        let mut i: usize = 0;
        while i < n
            invariant
                i <= n,
                n == dest@.len(),
                n == old(dest)@.len(),
                self.inner.wf(),
                self.inner.num_codes() == 256,
                self.inner.max_bits() == 16,
                self.inner.lengths() == lengths,
                stream.wf(),
                stream.data() == src@,
                symbols(lengths, 16, src@, start, i as nat) == (
                    dest@.subrange(0, i as int),
                    stream.state(),
                ),
            decreases n - i,
        {
            let byte = self.inner.decode_one(&mut stream) as u8;
            dest[i] = byte;
            assert(dest@.subrange(0, i + 1) =~= old(dest)@.subrange(0, 0) + dest@.subrange(
                0,
                i as int,
            ).push(byte));
            i += 1;
        }
        assert(dest@.subrange(0, n as int) =~= dest@);
        if stream.overflow() {
            Err(ChdError::HuffmanTooShort)
        } else {
            Ok(())
        }
    }
}

/// `inflate::inflate_bytes`: the result is Ok with the bytes that the raw
/// DEFLATE stream inflates to, or an error where the stream is rejected.
#[verifier::external_body]
fn inflate_bytes(src: &[u8]) -> (r: Result<Vec<u8>, String>)
    ensures
        match r {
            Ok(out) => inflated(src@) == Some(out@),
            Err(_) => inflated(src@) is None,
        },
{
    inflate::inflate_bytes(src)
}

/// Puts the inflated bytes, if there are any and they are as many as the
/// destination holds, into the destination, which else stays as it was.
pub fn store_inflated(result: Result<Vec<u8>, String>, dest: &mut [u8]) -> (r: Result<
    (),
    ChdError,
>)
    ensures
        final(dest)@.len() == old(dest)@.len(),
        match result {
            Err(_) => r == Err::<(), ChdError>(ChdError::InflateFailed),
            Ok(out) => if out@.len() == old(dest)@.len() {
                r is Ok && final(dest)@ == out@
            } else {
                r == Err::<(), ChdError>(ChdError::InflateSize)
            },
        },
        r is Err ==> final(dest)@ == old(dest)@,
{
    match result {
        Err(_) => Err(ChdError::InflateFailed),
        Ok(out) => {
            if out.len() != dest.len() {
                Err(ChdError::InflateSize)
            } else {
                fill_from(dest, &out);
                Ok(())
            }
        },
    }
}

/// Overwrites `dest` with the bytes of `from`, which is as long.
pub(crate) fn fill_from(dest: &mut [u8], from: &Vec<u8>)
    requires
        old(dest)@.len() == from@.len(),
    ensures
        final(dest)@ == from@,
{
    let n = dest.len();
    let mut i: usize = 0;
    while i < n
        invariant
            i <= n,
            n == dest@.len(),
            n == from@.len(),
            forall|k: int| 0 <= k < i ==> dest@[k] == from@[k],
        decreases n - i,
    {
        dest[i] = from[i];
        i += 1;
    }
    assert(dest@ =~= from@);
}

/// The raw DEFLATE codec.
pub struct Inflate {}

impl Inflate {
    /// A codec for hunks stored as raw DEFLATE.
    pub fn new() -> (r: Self)
        ensures
            r.wf(),
            r.kind() == CodecKind::Zlib,
    {
        Self {  }
    }
}

impl Decompress for Inflate {
    open spec fn kind(&self) -> CodecKind {
        CodecKind::Zlib
    }

    open spec fn wf(&self) -> bool {
        true
    }

    fn decompress(&mut self, src: &[u8], dest: &mut [u8]) -> (r: Result<(), ChdError>) {
        proof {
            reveal_with_fuel(codec_output, 1);
        }
        store_inflated(inflate_bytes(src), dest)
    }
}

/// `lzma_rs::lzma_decompress_with_options`, reading from `stream`, writing
/// to a fresh vector, with the option that the header holds no unpacked size
/// and `size` bytes are to be unpacked: Ok with what was written, or the
/// decoder's error.
#[verifier::external_body]
fn lzma_decompress(stream: &[u8], size: u64) -> (r: Result<Vec<u8>, lzma_rs::error::Error>)
    ensures
        match r {
            Ok(out) => lzma_unpacked(stream@, size) == Some(out@),
            Err(_) => lzma_unpacked(stream@, size) is None,
        },
{
    let mut input = std::io::Cursor::new(stream);
    let mut out: Vec<u8> = Vec::new();
    let options = lzma_rs::decompress::Options {
        unpacked_size: lzma_rs::decompress::UnpackedSize::UseProvided(Some(size)),
        memlimit: None,
        allow_incomplete: false,
    };
    match lzma_rs::lzma_decompress_with_options(&mut input, &mut out, &options) {
        Ok(()) => Ok(out),
        Err(e) => Err(e),
    }
}

/// The error of the outside LZMA decoder.
#[verifier::external_type_specification]
#[verifier::external_body]
pub struct ExLzmaError(lzma_rs::error::Error);

/// Puts the unpacked bytes, if there are any and they are as many as the
/// destination holds, into the destination, which else stays as it was.
pub fn store_unpacked(result: Result<Vec<u8>, lzma_rs::error::Error>, dest: &mut [u8]) -> (r:
    Result<(), ChdError>)
    ensures
        final(dest)@.len() == old(dest)@.len(),
        match result {
            Err(_) => r == Err::<(), ChdError>(ChdError::LzmaFailed),
            Ok(out) => if out@.len() == old(dest)@.len() {
                r is Ok && final(dest)@ == out@
            } else {
                r == Err::<(), ChdError>(ChdError::LzmaFailed)
            },
        },
        r is Err ==> final(dest)@ == old(dest)@,
{
    match result {
        Err(_) => Err(ChdError::LzmaFailed),
        Ok(out) => {
            if out.len() != dest.len() {
                Err(ChdError::LzmaFailed)
            } else {
                fill_from(dest, &out);
                Ok(())
            }
        },
    }
}

/// The LZMA codec.
pub struct Lzma {
    pub hunkbytes: u32,
}

impl Lzma {
    /// A codec for LZMA coded hunks of images with the given hunk size.
    pub fn new(hunkbytes: u32) -> (r: Result<Self, ChdError>)
        ensures
            r matches Ok(c) && c.hunkbytes == hunkbytes && c.kind() == CodecKind::Lzma(
                hunkbytes as nat,
            ),
    {
        Ok(Self { hunkbytes })
    }

    /// The five bytes that go in front of the stored stream.
    pub fn header(hunkbytes: u32) -> (r: Vec<u8>)
        ensures
            r@ == lzma_header(hunkbytes as nat),
    {
        let dict = Self::dict_size(hunkbytes);
        let mut stream: Vec<u8> = Vec::new();
        stream.push(0x5D);
        stream.push((dict % 256) as u8);
        stream.push((dict / 0x100 % 256) as u8);
        stream.push((dict / 0x1_0000 % 256) as u8);
        stream.push((dict / 0x100_0000 % 256) as u8);
        proof {
            reveal_with_fuel(le_bytes, 5);
            assert(stream@ =~= lzma_header(hunkbytes as nat));
        }
        stream
    }

    /// The dictionary size for a hunk size.
    pub fn dict_size(hunkbytes: u32) -> (d: u32)
        ensures
            d == lzma_dict_size(hunkbytes as nat),
            hunkbytes <= d || d == 0x400_0000,
    {
        let mut i: u32 = 11;
        proof {
            vstd::arithmetic::power2::lemma2_to64();
        }
        let mut p: u32 = 0x800;
        while i < 25
            invariant
                11 <= i <= 25,
                p == vstd::arithmetic::power2::pow2(i as nat),
                p <= 0x200_0000,
                lzma_dict_size(hunkbytes as nat) == lzma_dict_from(hunkbytes as nat, i as nat),
            decreases 25 - i,
        {
            if hunkbytes >= 0x400_0000 {
                return 0x400_0000;
            }
            if hunkbytes <= 2 * p {
                return 2 * p;
            }
            if hunkbytes <= 3 * p {
                return 3 * p;
            }
            proof {
                vstd::arithmetic::power2::lemma_pow2_unfold((i + 1) as nat);
                vstd::arithmetic::power2::lemma2_to64();
                if i + 1 < 25 {
                    vstd::arithmetic::power2::lemma_pow2_strictly_increases((i + 1) as nat, 25);
                }
            }
            p = 2 * p;
            i += 1;
        }
        0x400_0000
    }
}

impl Decompress for Lzma {
    open spec fn kind(&self) -> CodecKind {
        CodecKind::Lzma(self.hunkbytes as nat)
    }

    open spec fn wf(&self) -> bool {
        true
    }

    fn decompress(&mut self, src: &[u8], dest: &mut [u8]) -> (r: Result<(), ChdError>) {
        proof {
            reveal_with_fuel(codec_output, 1);
        }
        let mut stream = Self::header(self.hunkbytes);
        stream.extend_from_slice(src);
        let size = dest.len() as u64;
        assert(stream@ == lzma_header(self.hunkbytes as nat) + src@);
        let unpacked = lzma_decompress(stream.as_slice(), size);
        store_unpacked(unpacked, dest)
    }
}

} // verus!
