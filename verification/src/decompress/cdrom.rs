//! The codecs for hunks of CD frames: a sector of 2352 bytes and 96 bytes
//! of subcode for each frame.

use vstd::prelude::*;
use crate::cd::{FRAME_SIZE, MAX_SECTOR_DATA, MAX_SUBCODE_DATA, SYNC_HEADER, sync_header};
use crate::decompress::flac::{
    FlacBlock, FlacFrame, flac_frame, lemma_stereo_bytes_len, read_frame, sample_bytes,
    stereo_bytes,
};
use crate::decompress::{
    CodecKind, Decompress, Inflate, MAX_COMPRESSED_BYTES, codec_output, zlib_output,
};
use crate::ecc::{generate, generated, lemma_generated_len};
use crate::error::ChdError;
use crate::utils::{be_bytes, be_value, put_at, read_be16, read_be24};

verus! {

/// The number of whole frames in `len` bytes.
pub open spec fn cd_frames_of(len: nat) -> nat {
    len / 2448
}

/// Whether frame `i` is flagged: bit `i % 8` of byte `i / 8`, counted from
/// the least significant bit.
pub open spec fn cd_flag(flags: Seq<u8>, i: int) -> bool {
    i / 8 < flags.len() && (flags[i / 8] >> ((i % 8) as u8)) & 1 != 0
}

/// The sector of a frame. For a flagged frame the first 12 bytes become the
/// sync pattern and the error detection and correction codes are rebuilt.
pub open spec fn cd_sector(data: Seq<u8>, regenerate: bool) -> Seq<u8> {
    if regenerate {
        generated(sync_header() + data.subrange(12, 2352))
    } else {
        data
    }
}

/// The first `frames` frames: each takes its 2352 bytes from `sectors` and
/// its 96 bytes from `sub`, which both hold frame after frame.
pub open spec fn cd_frames(sectors: Seq<u8>, sub: Seq<u8>, flags: Seq<u8>, frames: nat) -> Seq<u8>
    decreases frames,
{
    if frames == 0 {
        Seq::empty()
    } else {
        let i = frames - 1;
        cd_frames(sectors, sub, flags, i as nat) + cd_sector(
            sectors.subrange(i * 2352, i * 2352 + 2352),
            cd_flag(flags, i),
        ) + sub.subrange(i * 96, i * 96 + 96)
    }
}

/// The three parts of a compressed hunk of CD frames for a destination of
/// `len` bytes: one flag bit for each frame, rounded up to whole bytes; then
/// the length of the compressed sectors, in 2 big-endian bytes where `len`
/// is at most 65535 and in 3 otherwise; the compressed sectors; and the
/// compressed subcode in what is left.
pub open spec fn cd_split(src: Seq<u8>, len: nat) -> Result<(Seq<u8>, Seq<u8>, Seq<u8>), ChdError> {
    let frames = len / 2448;
    let ecc_bytes = (frames + 7) / 8;
    let start = ecc_bytes + if len <= 65535 {
        2nat
    } else {
        3nat
    };
    let compr_len = be_value(src.subrange(ecc_bytes as int, start as int));
    if len % 2448 != 0 {
        Err(ChdError::InvalidDestination)
    } else if src.len() < start {
        Err(ChdError::TruncatedInput)
    } else if start + compr_len > src.len() {
        Err(ChdError::TruncatedInput)
    } else {
        Ok(
            (
                src.subrange(0, ecc_bytes as int),
                src.subrange(start as int, (start + compr_len) as int),
                src.subrange((start + compr_len) as int, src.len() as int),
            ),
        )
    }
}

/// Frames that are put together take 2448 bytes each.
pub proof fn lemma_cd_frames_len(sectors: Seq<u8>, sub: Seq<u8>, flags: Seq<u8>, frames: nat)
    requires
        sectors.len() >= frames * 2352,
        sub.len() >= frames * 96,
    ensures
        cd_frames(sectors, sub, flags, frames).len() == frames * 2448,
    decreases frames,
{
    if frames > 0 {
        let i = frames - 1;
        lemma_cd_frames_len(sectors, sub, flags, i as nat);
        lemma_generated_len(sync_header() + sectors.subrange(i * 2352, i * 2352 + 2352).subrange(12, 2352));
    }
}

/// Whether frame `i` is flagged.
fn flagged(flags: &[u8], i: usize) -> (r: bool)
    ensures
        r == cd_flag(flags@, i as int),
{
    i / 8 < flags.len() && (flags[i / 8] >> ((i % 8) as u8)) & 1 != 0
}

/// Puts the frames together in the destination.
pub fn assemble(sectors: &[u8], sub: &[u8], flags: &[u8], frames: usize, dest: &mut [u8])
    requires
        sectors@.len() == frames * 2352,
        sub@.len() == frames * 96,
        old(dest)@.len() == frames * 2448,
    ensures
        final(dest)@ == cd_frames(sectors@, sub@, flags@, frames as nat),
{
    let total = dest.len();
    let mut i: usize = 0;
    while i < frames
        invariant
            i <= frames,
            total == dest@.len(),
            total == frames * 2448,
            sectors@.len() == frames * 2352,
            sub@.len() == frames * 96,
            dest@.subrange(0, i * 2448) == cd_frames(sectors@, sub@, flags@, i as nat),
        decreases frames - i,
    {
        let ghost before = dest@;
        let mut sector = vstd::slice::slice_to_vec(
            &sectors[i * MAX_SECTOR_DATA..i * MAX_SECTOR_DATA + MAX_SECTOR_DATA],
        );
        if flagged(flags, i) {
            let ghost data = sector@;
            let mut k: usize = 0;
            while k < 12
                invariant
                    k <= 12,
                    sector@.len() == 2352,
                    SYNC_HEADER@ == sync_header(),
                    forall|j: int| 0 <= j < k ==> sector@[j] == sync_header()[j],
                    forall|j: int| k <= j < 2352 ==> sector@[j] == data[j],
                decreases 12 - k,
            {
                sector[k] = SYNC_HEADER[k];
                k += 1;
            }
            assert(sector@ =~= sync_header() + data.subrange(12, 2352));
            proof {
                lemma_generated_len(sector@);
            }
            generate(sector.as_mut_slice());
        }
        put_at(dest, i * FRAME_SIZE, sector.as_slice());
        put_at(
            dest,
            i * FRAME_SIZE + MAX_SECTOR_DATA,
            &sub[i * MAX_SUBCODE_DATA..i * MAX_SUBCODE_DATA + MAX_SUBCODE_DATA],
        );
        assert(dest@.subrange(0, (i + 1) * 2448) =~= before.subrange(0, i * 2448) + sector@
            + sub@.subrange(i * 96, i * 96 + 96));
        i += 1;
    }
    assert(dest@.subrange(0, frames * 2448) =~= dest@);
}

/// A codec for CD frames that is made of a codec for the sectors and one
/// for the subcode.
pub struct CdDecompress<B: Decompress, S: Decompress> {
    pub base: B,
    pub subcode: S,
}

impl<B: Decompress, S: Decompress> CdDecompress<B, S> {
    /// A codec for hunks of CD frames out of a codec for the sectors and one
    /// for the subcode.
    pub fn construct(base: B, subcode: S, hunkbytes: u32) -> (r: Self)
        requires
            base.wf(),
            subcode.wf(),
        ensures
            r.base == base,
            r.subcode == subcode,
            r.wf(),
    {
        Self { base, subcode }
    }
}

impl<B: Decompress, S: Decompress> Decompress for CdDecompress<B, S> {
    open spec fn kind(&self) -> CodecKind {
        CodecKind::Cd(Box::new(self.base.kind()), Box::new(self.subcode.kind()))
    }

    open spec fn wf(&self) -> bool {
        self.base.wf() && self.subcode.wf()
    }

    fn decompress(&mut self, src: &[u8], dest: &mut [u8]) -> (r: Result<(), ChdError>) {
        proof {
            reveal_with_fuel(codec_output, 1);
        }
        let len = dest.len();
        if len % FRAME_SIZE != 0 {
            return Err(ChdError::InvalidDestination);
        }
        let frames = len / FRAME_SIZE;
        let ecc_bytes = (frames + 7) / 8;
        let start = if len <= 65535 {
            ecc_bytes + 2
        } else {
            ecc_bytes + 3
        };
        if src.len() < start {
            return Err(ChdError::TruncatedInput);
        }
        let compr_len = if len <= 65535 {
            read_be16(&src[ecc_bytes..start]) as usize
        } else {
            read_be24(&src[ecc_bytes..start]) as usize
        };
        if compr_len > src.len() - start {
            return Err(ChdError::TruncatedInput);
        }
        let compr_end = start + compr_len;
        let mut sectors: Vec<u8> = vec![0u8; frames * MAX_SECTOR_DATA];
        let mut sub: Vec<u8> = vec![0u8; frames * MAX_SUBCODE_DATA];
        match self.base.decompress(&src[start..compr_end], sectors.as_mut_slice()) {
            Err(e) => {
                return Err(e);
            },
            Ok(()) => {},
        }
        match self.subcode.decompress(&src[compr_end..src.len()], sub.as_mut_slice()) {
            Err(e) => {
                return Err(e);
            },
            Ok(()) => {},
        }
        // the sectors of all frames came first, then their subcode: put the frames together
        assemble(sectors.as_slice(), sub.as_slice(), &src[0..ecc_bytes], frames, dest);
        proof {
            lemma_cd_frames_len(sectors@, sub@, src@.subrange(0, ecc_bytes as int), frames as nat);
        }
        Ok(())
    }
}

/// The bytes that one decoded frame adds to the sectors of a hunk of which
/// `remaining` sample pairs are still missing; `avail` is the number of
/// input bytes that the frame was read from.
pub open spec fn audio_block(block: FlacFrame, avail: nat, remaining: nat) -> Result<
    Seq<u8>,
    ChdError,
> {
    if block.channels != 2 {
        Err(ChdError::FlacNotStereo(block.channels as u32))
    } else if block.samples.len() < 2 * block.duration {
        Err(ChdError::FlacFailed)
    } else if block.duration == 0 || block.duration > remaining {
        Err(ChdError::FlacDuration { decoded: block.duration as u32, expected: remaining as u64 })
    } else if block.consumed > avail {
        Err(ChdError::TruncatedInput)
    } else {
        Ok(stereo_bytes(block.samples, block.duration, true, block.duration))
    }
}

/// The sectors of a hunk as FLAC frames give them, and the input that is
/// left after them: frame after frame is decoded until `remaining` sample
/// pairs are there, each pair as four bytes with the high byte first. Input
/// of more bytes than a map entry can name is turned away.
pub open spec fn cd_flac_audio(src: Seq<u8>, remaining: nat, acc: Seq<u8>) -> Result<
    (Seq<u8>, Seq<u8>),
    ChdError,
>
    decreases remaining,
{
    if src.len() > MAX_COMPRESSED_BYTES {
        Err(ChdError::InputTooLong)
    } else if remaining == 0 {
        Ok((acc, src))
    } else {
        match flac_frame(src) {
            None => Err(ChdError::FlacFailed),
            Some(None) => Err(ChdError::FlacTooShort),
            Some(Some(block)) => match audio_block(block, src.len(), remaining) {
                Err(e) => Err(e),
                Ok(bytes) => cd_flac_audio(
                    src.skip(block.consumed as int),
                    (remaining - block.duration) as nat,
                    acc + bytes,
                ),
            },
        }
    }
}

/// The bytes of a hunk of CD frames whose sectors are FLAC coded, 588
/// sample pairs to a sector, and whose subcode is raw DEFLATE.
pub open spec fn cd_flac_output(src: Seq<u8>, len: nat) -> Result<Seq<u8>, ChdError> {
    let frames = len / 2448;
    if len % 2448 != 0 {
        Err(ChdError::InvalidDestination)
    } else {
        match cd_flac_audio(src, frames * 588, Seq::empty()) {
            Err(e) => Err(e),
            Ok(parts) => match zlib_output(parts.1, frames * 96) {
                Err(e) => Err(e),
                Ok(sub) => Ok(cd_frames(parts.0, sub, Seq::empty(), frames)),
            },
        }
    }
}

/// Appends the high and the low byte of a sample.
fn push_sample(audio: &mut Vec<u8>, s: i32)
    ensures
        final(audio)@ == old(audio)@ + sample_bytes(s, true),
{
    let v: i64 = (s as i64 + 0x8000_0000) % 0x1_0000;
    audio.push((v / 256) as u8);
    audio.push((v % 256) as u8);
    proof {
        reveal_with_fuel(be_bytes, 3);
        assert(audio@ =~= old(audio)@ + sample_bytes(s, true));
    }
}

/// The codec for CD frames with FLAC coded sectors.
pub struct CdFlac {
    inflate: Inflate,
}

impl CdFlac {
    /// Sample pairs in one sector.
    pub const SAMPLE_PER_FRAME: usize = 588;

    /// A codec for hunks of CD frames with FLAC coded sectors. The hunks must
    /// be whole frames.
    pub fn new(hunkbytes32: u32) -> (r: Self)
        requires
            hunkbytes32 % 2448 == 0,
        ensures
            r.wf(),
            r.kind() == CodecKind::CdFlac,
    {
        Self { inflate: Inflate::new() }
    }

    /// Takes the outcome of reading one frame: appends its sample pairs to
    /// `audio` and tells their number and the number of input bytes used.
    pub fn append_frame(
        frame: Result<Option<FlacBlock>, claxon::Error>,
        avail: usize,
        remaining: usize,
        audio: &mut Vec<u8>,
    ) -> (r: Result<(usize, usize), ChdError>)
        ensures
            match frame {
                Err(_) => r == Err::<(usize, usize), ChdError>(ChdError::FlacFailed),
                Ok(None) => r == Err::<(usize, usize), ChdError>(ChdError::FlacTooShort),
                Ok(Some(block)) => match audio_block(block@, avail as nat, remaining as nat) {
                    Err(e) => r == Err::<(usize, usize), ChdError>(e),
                    Ok(bytes) => r == Ok::<(usize, usize), ChdError>(
                        (block.duration as usize, block.consumed as usize),
                    ) && final(audio)@ == old(audio)@ + bytes,
                },
            },
            r is Err ==> final(audio)@ == old(audio)@,
    {
        let block = match frame {
            Err(_) => {
                return Err(ChdError::FlacFailed);
            },
            Ok(None) => {
                return Err(ChdError::FlacTooShort);
            },
            Ok(Some(block)) => block,
        };
        if block.channels != 2 {
            return Err(ChdError::FlacNotStereo(block.channels));
        }
        if (block.samples.len() as u64) < 2 * (block.duration as u64) {
            return Err(ChdError::FlacFailed);
        }
        if block.duration == 0 || block.duration as u64 > remaining as u64 {
            return Err(
                ChdError::FlacDuration { decoded: block.duration, expected: remaining as u64 },
            );
        }
        if block.consumed > avail as u64 {
            return Err(ChdError::TruncatedInput);
        }
        let duration = block.duration as usize;
        let count = block.samples.len();
        let mut i: usize = 0;
        while i < duration
            invariant
                i <= duration,
                duration == block.duration,
                count == block.samples@.len(),
                count >= 2 * duration,
                audio@ == old(audio)@ + stereo_bytes(
                    block.samples@,
                    duration as nat,
                    true,
                    i as nat,
                ),
            decreases duration - i,
        {
            let ghost before = audio@;
            let sl = block.samples[i];
            let sr = block.samples[duration + i];
            push_sample(audio, sl);
            push_sample(audio, sr);
            assert(audio@ =~= old(audio)@ + stereo_bytes(
                block.samples@,
                duration as nat,
                true,
                (i + 1) as nat,
            ));
            i += 1;
        }
        Ok((duration, block.consumed as usize))
    }
}

impl Decompress for CdFlac {
    open spec fn kind(&self) -> CodecKind {
        CodecKind::CdFlac
    }

    open spec fn wf(&self) -> bool {
        true
    }

    fn decompress(&mut self, src: &[u8], dest: &mut [u8]) -> (r: Result<(), ChdError>) {
        proof {
            reveal_with_fuel(codec_output, 1);
        }
        let len = dest.len();
        if len % FRAME_SIZE != 0 {
            return Err(ChdError::InvalidDestination);
        }
        let frames = len / FRAME_SIZE;
        let total = src.len();
        if total > MAX_COMPRESSED_BYTES {
            return Err(ChdError::InputTooLong);
        }
        // first decompress flac data until all compressed samples are consumed
        let mut remaining = frames * Self::SAMPLE_PER_FRAME;
        let mut audio: Vec<u8> = Vec::new();
        let mut pos: usize = 0;
        assert(src@.skip(0) =~= src@);
        while remaining > 0
            invariant
                pos <= total,
                total == src@.len(),
                total <= MAX_COMPRESSED_BYTES,
                frames * 2448 == len,
                len == old(dest)@.len(),
                dest@.len() == len,
                audio@.len() + 4 * remaining == frames * 2352,
                cd_flac_audio(src@, (frames * 588) as nat, Seq::empty()) == cd_flac_audio(
                    src@.skip(pos as int),
                    remaining as nat,
                    audio@,
                ),
            decreases remaining,
        {
            let rest = &src[pos..total];
            assert(rest@ =~= src@.skip(pos as int));
            let step = Self::append_frame(read_frame(rest), total - pos, remaining, &mut audio);
            match step {
                Err(e) => {
                    proof {
                        reveal_with_fuel(codec_output, 1);
                    }
                    return Err(e);
                },
                Ok((decoded, consumed)) => {
                    proof {
                        let block = flac_frame(rest@).unwrap().unwrap();
                        lemma_stereo_bytes_len(block.samples, block.duration, true, block.duration);
                        assert(src@.skip(pos as int).skip(consumed as int) =~= src@.skip(
                            pos + consumed,
                        ));
                    }
                    remaining -= decoded;
                    pos += consumed;
                },
            }
        }
        // then decompress subcode data
        let mut sub: Vec<u8> = vec![0u8; frames * MAX_SUBCODE_DATA];
        let rest = &src[pos..total];
        assert(rest@ =~= src@.skip(pos as int));
        match self.inflate.decompress(rest, sub.as_mut_slice()) {
            Err(e) => {
                return Err(e);
            },
            Ok(()) => {},
        }
        assemble(audio.as_slice(), sub.as_slice(), &src[0..0], frames, dest);
        proof {
            assert(src@.subrange(0, 0) =~= Seq::<u8>::empty());
            lemma_cd_frames_len(audio@, sub@, Seq::empty(), frames as nat);
        }
        Ok(())
    }
}

} // verus!
