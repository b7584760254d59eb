//! The FLAC codec: one frame of 16-bit stereo samples for each hunk.

use vstd::prelude::*;
use crate::decompress::{CodecKind, Decompress, MAX_COMPRESSED_BYTES, codec_output};
use crate::error::ChdError;
use crate::utils::{be_bytes, le_bytes};

verus! {

/// One decoded FLAC frame.
pub struct FlacBlock {
    /// The number of channels.
    pub channels: u32,
    /// The number of samples of each channel.
    pub duration: u32,
    /// The number of bytes of the input up to the end of the frame.
    pub consumed: u64,
    /// The samples, one channel after the other.
    pub samples: Vec<i32>,
}

/// What a decoded frame holds.
pub ghost struct FlacFrame {
    pub channels: nat,
    pub duration: nat,
    pub consumed: nat,
    pub samples: Seq<i32>,
}

impl View for FlacBlock {
    type V = FlacFrame;

    open spec fn view(&self) -> FlacFrame {
        FlacFrame {
            channels: self.channels as nat,
            duration: self.duration as nat,
            consumed: self.consumed as nat,
            samples: self.samples@,
        }
    }
}

/// What the outside FLAC decoder makes of bytes that start with a frame:
/// nothing where it rejects them, no frame where the bytes end before a
/// frame starts, and else the first frame.
pub uninterp spec fn flac_frame(src: Seq<u8>) -> Option<Option<FlacFrame>>;

/// The error of the outside FLAC decoder.
#[verifier::external_type_specification]
#[verifier::external_body]
pub struct ExFlacError(claxon::Error);

/// `claxon::frame::FrameReader::read_next_or_eof` on a reader over `src`:
/// the decoder's error, or no frame at the end of the input, or the frame
/// with its channel count, its duration, its samples and the position that
/// the reader has reached.
///
/// The decoder counts runs of zero bits in 32 bits and would run over on
/// a run of 2^32 bits; the input is kept far below that length.
#[verifier::external_body]
pub(crate) fn read_frame(src: &[u8]) -> (r: Result<Option<FlacBlock>, claxon::Error>)
    requires
        src@.len() <= MAX_COMPRESSED_BYTES,
    ensures
        match r {
            Ok(Some(block)) => flac_frame(src@) == Some(Some(block@)),
            Ok(None) => flac_frame(src@) == Some(None::<FlacFrame>),
            Err(_) => flac_frame(src@) is None,
        },
{
    let mut reader = claxon::frame::FrameReader::new(std::io::Cursor::new(src));
    match reader.read_next_or_eof(Vec::new()) {
        Err(e) => Err(e),
        Ok(None) => Ok(None),
        Ok(Some(block)) => {
            let consumed = reader.into_inner().position();
            let channels = block.channels();
            let duration = block.duration();
            Ok(Some(FlacBlock { channels, duration, consumed, samples: block.into_buffer() }))
        },
    }
}

/// The low 16 bits of a sample in two's complement.
pub open spec fn sample16(s: i32) -> nat {
    ((s + 0x8000_0000) % 0x1_0000) as nat
}

/// The two bytes of a sample in the given byte order.
pub open spec fn sample_bytes(s: i32, big_endian: bool) -> Seq<u8> {
    if big_endian {
        be_bytes(sample16(s), 2)
    } else {
        le_bytes(sample16(s), 2)
    }
}

/// The first `n` samples of both channels, left and right in turn, two
/// bytes each. The right channel starts `duration` samples into `samples`.
pub open spec fn stereo_bytes(samples: Seq<i32>, duration: nat, big_endian: bool, n: nat) -> Seq<u8>
    decreases n,
{
    if n == 0 {
        Seq::empty()
    } else {
        stereo_bytes(samples, duration, big_endian, (n - 1) as nat) + sample_bytes(
            samples[n - 1],
            big_endian,
        ) + sample_bytes(samples[duration + n - 1], big_endian)
    }
}

/// Each sample pair takes four bytes.
pub proof fn lemma_stereo_bytes_len(samples: Seq<i32>, duration: nat, big_endian: bool, n: nat)
    ensures
        stereo_bytes(samples, duration, big_endian, n).len() == 4 * n,
    decreases n,
{
    reveal_with_fuel(be_bytes, 3);
    reveal_with_fuel(le_bytes, 3);
    if n > 0 {
        lemma_stereo_bytes_len(samples, duration, big_endian, (n - 1) as nat);
    }
}

/// The bytes that a frame gives for a destination of `len` bytes, which
/// must be whole sample pairs: the frame must be stereo and hold one sample
/// pair for every four bytes.
pub open spec fn block_output(block: FlacFrame, big_endian: bool, len: nat) -> Result<
    Seq<u8>,
    ChdError,
> {
    if len % 4 != 0 {
        Err(ChdError::InvalidDestination)
    } else if block.channels != 2 {
        Err(ChdError::FlacNotStereo(block.channels as u32))
    } else if block.duration != len / 4 {
        Err(ChdError::FlacDuration { decoded: block.duration as u32, expected: (len / 4) as u64 })
    } else if block.samples.len() < 2 * block.duration {
        Err(ChdError::FlacFailed)
    } else {
        Ok(stereo_bytes(block.samples, block.duration, big_endian, block.duration))
    }
}

/// The bytes of a FLAC coded hunk. The first byte of the input names the
/// byte order of the samples, `L` or `B`; one frame follows. Input of more
/// bytes than a map entry can name is turned away.
pub open spec fn flac_output(src: Seq<u8>, len: nat) -> Result<Seq<u8>, ChdError> {
    if src.len() > MAX_COMPRESSED_BYTES {
        Err(ChdError::InputTooLong)
    } else if len % 4 != 0 {
        Err(ChdError::InvalidDestination)
    } else if src.len() == 0 {
        Err(ChdError::TruncatedInput)
    } else if src[0] != 0x4c && src[0] != 0x42 {
        Err(ChdError::FlacInvalidEndian(src[0]))
    } else {
        match flac_frame(src.skip(1)) {
            None => Err(ChdError::FlacFailed),
            Some(None) => Err(ChdError::FlacTooShort),
            Some(Some(block)) => block_output(block, src[0] == 0x42, len),
        }
    }
}

/// Writes the two bytes of a sample at `offset`.
pub(crate) fn put_sample(dest: &mut [u8], offset: usize, s: i32, big_endian: bool)
    requires
        offset + 2 <= old(dest)@.len(),
    ensures
        final(dest)@ == old(dest)@.subrange(0, offset as int) + sample_bytes(s, big_endian) + old(
            dest,
        )@.subrange(offset + 2, old(dest)@.len() as int),
{
    let v: i64 = (s as i64 + 0x8000_0000) % 0x1_0000;
    let hi = (v / 256) as u8;
    let lo = (v % 256) as u8;
    let total = dest.len();
    if big_endian {
        dest[offset] = hi;
        dest[offset + 1] = lo;
    } else {
        dest[offset] = lo;
        dest[offset + 1] = hi;
    }
    proof {
        reveal_with_fuel(be_bytes, 3);
        reveal_with_fuel(le_bytes, 3);
        assert(dest@ =~= old(dest)@.subrange(0, offset as int) + sample_bytes(s, big_endian) + old(
            dest,
        )@.subrange(offset + 2, old(dest)@.len() as int));
    }
}

/// Fills the destination with the samples of a decoded frame. On an error
/// the destination stays as it was.
pub fn store_block(block: &FlacBlock, big_endian: bool, dest: &mut [u8]) -> (r: Result<
    (),
    ChdError,
>)
    ensures
        final(dest)@.len() == old(dest)@.len(),
        match block_output(block@, big_endian, old(dest)@.len()) {
            Ok(out) => r is Ok && final(dest)@ == out,
            Err(e) => r == Err::<(), ChdError>(e) && final(dest)@ == old(dest)@,
        },
{
    if dest.len() % 4 != 0 {
        return Err(ChdError::InvalidDestination);
    }
    let num_frames = dest.len() / 4;
    if block.channels != 2 {
        return Err(ChdError::FlacNotStereo(block.channels));
    }
    if block.duration as u64 != num_frames as u64 {
        return Err(
            ChdError::FlacDuration { decoded: block.duration, expected: num_frames as u64 },
        );
    }
    if (block.samples.len() as u64) < 2 * (block.duration as u64) {
        return Err(ChdError::FlacFailed);
    }
    let ghost samples = block.samples@;
    let ghost duration = block.duration as nat;
    let count = block.samples.len();
    let total = dest.len();
    let mut i: usize = 0;
    while i < num_frames
        invariant
            i <= num_frames,
            count == samples.len(),
            total == dest@.len(),
            num_frames == duration,
            duration == block.duration,
            samples == block.samples@,
            samples.len() >= 2 * duration,
            dest@.len() == 4 * num_frames,
            dest@.len() == old(dest)@.len(),
            dest@.subrange(0, 4 * i) == stereo_bytes(samples, duration, big_endian, i as nat),
        decreases num_frames - i,
    {
        let ghost before = dest@;
        proof {
            lemma_stereo_bytes_len(samples, duration, big_endian, i as nat);
            reveal_with_fuel(be_bytes, 3);
            reveal_with_fuel(le_bytes, 3);
        }
        let sl = block.samples[i];
        let sr = block.samples[num_frames + i];
        put_sample(dest, 4 * i, sl, big_endian);
        put_sample(dest, 4 * i + 2, sr, big_endian);
        assert(dest@.subrange(0, 4 * (i + 1)) =~= before.subrange(0, 4 * i) + sample_bytes(
            sl,
            big_endian,
        ) + sample_bytes(sr, big_endian));
        i += 1;
    }
    assert(dest@.subrange(0, 4 * num_frames) =~= dest@);
    Ok(())
}

/// The FLAC codec.
pub struct Flac {}

impl Flac {
    /// Bytes of one sample pair: 16 bits for each of two channels.
    pub const SAMPLE_SIZE: usize = 4;

    /// A codec for FLAC coded hunks.
    pub fn new() -> (r: Self)
        ensures
            r.wf(),
            r.kind() == CodecKind::Flac,
    {
        Self {  }
    }

    /// What is made of the outcome of reading one frame.
    pub fn store_frame(
        frame: Result<Option<FlacBlock>, claxon::Error>,
        big_endian: bool,
        dest: &mut [u8],
    ) -> (r: Result<(), ChdError>)
        ensures
            final(dest)@.len() == old(dest)@.len(),
            match frame {
                Err(_) => r == Err::<(), ChdError>(ChdError::FlacFailed),
                Ok(None) => r == Err::<(), ChdError>(ChdError::FlacTooShort),
                Ok(Some(block)) => match block_output(block@, big_endian, old(dest)@.len()) {
                    Ok(out) => r is Ok && final(dest)@ == out,
                    Err(e) => r == Err::<(), ChdError>(e),
                },
            },
            r is Err ==> final(dest)@ == old(dest)@,
    {
        match frame {
            Err(_) => Err(ChdError::FlacFailed),
            Ok(None) => Err(ChdError::FlacTooShort),
            Ok(Some(block)) => store_block(&block, big_endian, dest),
        }
    }
}

impl Decompress for Flac {
    open spec fn kind(&self) -> CodecKind {
        CodecKind::Flac
    }

    open spec fn wf(&self) -> bool {
        true
    }

    fn decompress(&mut self, src: &[u8], dest: &mut [u8]) -> (r: Result<(), ChdError>) {
        proof {
            reveal_with_fuel(codec_output, 1);
        }
        if src.len() > MAX_COMPRESSED_BYTES {
            return Err(ChdError::InputTooLong);
        }
        if dest.len() % 4 != 0 {
            return Err(ChdError::InvalidDestination);
        }
        if src.len() == 0 {
            return Err(ChdError::TruncatedInput);
        }
        let big_endian = if src[0] == 0x4c {
            false
        } else if src[0] == 0x42 {
            true
        } else {
            return Err(ChdError::FlacInvalidEndian(src[0]));
        };
        let rest = &src[1..src.len()];
        assert(rest@ =~= src@.skip(1));
        Flac::store_frame(read_frame(rest), big_endian, dest)
    }
}

} // verus!
