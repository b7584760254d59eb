//! Big-endian integers, byte copies, hexadecimal text and the CRC-16 of the format.

use vstd::prelude::*;
use crate::error::ChdError;

verus! {

/// The number that a byte sequence spells in big-endian order.
pub open spec fn be_value(s: Seq<u8>) -> nat
    decreases s.len(),
{
    if s.len() == 0 {
        0
    } else {
        be_value(s.drop_last()) * 256 + s.last() as nat
    }
}

/// The lowest `n` bytes of `val`, most significant first.
pub open spec fn be_bytes(val: nat, n: nat) -> Seq<u8>
    decreases n,
{
    if n == 0 {
        Seq::empty()
    } else {
        be_bytes(val / 256, (n - 1) as nat).push((val % 256) as u8)
    }
}

/// The lowest `n` bytes of `val`, least significant first.
pub open spec fn le_bytes(val: nat, n: nat) -> Seq<u8>
    decreases n,
{
    if n == 0 {
        Seq::empty()
    } else {
        seq![(val % 256) as u8] + le_bytes(val / 256, (n - 1) as nat)
    }
}

/// 256 to the power `n`.
pub open spec fn pow256(n: nat) -> nat
    decreases n,
{
    if n == 0 {
        1
    } else {
        256 * pow256((n - 1) as nat)
    }
}

/// A number written in `n` big-endian bytes takes `n` bytes.
pub proof fn lemma_be_bytes_len(val: nat, n: nat)
    ensures
        be_bytes(val, n).len() == n,
    decreases n,
{
    if n > 0 {
        lemma_be_bytes_len(val / 256, (n - 1) as nat);
    }
}

/// A number written in `n` little-endian bytes takes `n` bytes.
pub proof fn lemma_le_bytes_len(val: nat, n: nat)
    ensures
        le_bytes(val, n).len() == n,
    decreases n,
{
    if n > 0 {
        lemma_le_bytes_len(val / 256, (n - 1) as nat);
    }
}

/// The number that bytes spell is below 256 to the power of their count.
pub proof fn lemma_be_value_bound(s: Seq<u8>)
    ensures
        be_value(s) < pow256(s.len()),
    decreases s.len(),
{
    if s.len() > 0 {
        lemma_be_value_bound(s.drop_last());
    }
}

/// Reads a 16-bit big-endian number.
pub fn read_be16(data: &[u8]) -> (r: u16)
    requires
        data@.len() == 2,
    ensures
        r == be_value(data@),
{
    proof {
        reveal_with_fuel(be_value, 3);
        assert(data@.drop_last().drop_last().len() == 0);
    }
    (data[0] as u16) * 256 + data[1] as u16
}

/// Reads a 24-bit big-endian number.
pub fn read_be24(data: &[u8]) -> (r: u32)
    requires
        data@.len() == 3,
    ensures
        r == be_value(data@),
{
    proof {
        lemma_be_value_unfold(data@, 3);
    }
    ((data[0] as u32) * 256 + data[1] as u32) * 256 + data[2] as u32
}

/// Reads a 32-bit big-endian number.
pub fn read_be32(data: &[u8]) -> (r: u32)
    requires
        data@.len() == 4,
    ensures
        r == be_value(data@),
{
    proof {
        lemma_be_value_unfold(data@, 4);
    }
    (((data[0] as u32) * 256 + data[1] as u32) * 256 + data[2] as u32) * 256 + data[3] as u32
}

/// Reads a 48-bit big-endian number.
pub fn read_be48(data: &[u8]) -> (r: u64)
    requires
        data@.len() == 6,
    ensures
        r == be_value(data@),
        r < 0x1_0000_0000_0000,
{
    proof {
        lemma_be_value_unfold(data@, 6);
    }
    let hi: u64 = ((data[0] as u64) * 256 + data[1] as u64) * 256 + data[2] as u64;
    let lo: u64 = ((data[3] as u64) * 256 + data[4] as u64) * 256 + data[5] as u64;
    hi * 0x100_0000 + lo
}

/// Reads a 64-bit big-endian number.
pub fn read_be64(data: &[u8]) -> (r: u64)
    requires
        data@.len() == 8,
    ensures
        r == be_value(data@),
{
    proof {
        lemma_be_value_unfold(data@, 8);
    }
    let hi: u64 = (((data[0] as u64) * 256 + data[1] as u64) * 256 + data[2] as u64) * 256
        + data[3] as u64;
    let lo: u64 = (((data[4] as u64) * 256 + data[5] as u64) * 256 + data[6] as u64) * 256
        + data[7] as u64;
    hi * 0x1_0000_0000 + lo
}

/// The big-endian value of up to eight bytes, written out byte by byte.
pub open spec fn be_value_flat(s: Seq<u8>, n: nat) -> nat
    decreases n,
{
    if n == 0 {
        0
    } else {
        be_value_flat(s, (n - 1) as nat) * 256 + s[n - 1] as nat
    }
}

/// The number that the first `n` bytes spell, byte by byte.
pub proof fn lemma_be_value_flat(s: Seq<u8>, n: nat)
    requires
        n <= s.len(),
    ensures
        be_value(s.subrange(0, n as int)) == be_value_flat(s, n),
    decreases n,
{
    let t = s.subrange(0, n as int);
    if n > 0 {
        lemma_be_value_flat(s, (n - 1) as nat);
        assert(t.drop_last() =~= s.subrange(0, n - 1));
    }
}

/// The number that three, four, six or eight bytes spell, written out.
proof fn lemma_be_value_unfold(s: Seq<u8>, n: nat)
    requires
        s.len() == n,
        n <= 8,
    ensures
        be_value(s) == be_value_flat(s, n),
        n == 3 ==> be_value_flat(s, n) == (s[0] * 256 + s[1]) * 256 + s[2],
        n == 4 ==> be_value_flat(s, n) == ((s[0] * 256 + s[1]) * 256 + s[2]) * 256 + s[3],
        n == 6 ==> be_value_flat(s, n) == ((s[0] * 256 + s[1]) * 256 + s[2]) * 0x100_0000 + ((s[3]
            * 256 + s[4]) * 256 + s[5]),
        n == 8 ==> be_value_flat(s, n) == (((s[0] * 256 + s[1]) * 256 + s[2]) * 256 + s[3])
            * 0x1_0000_0000 + (((s[4] * 256 + s[5]) * 256 + s[6]) * 256 + s[7]),
{
    lemma_be_value_flat(s, n);
    assert(s.subrange(0, n as int) =~= s);
    reveal_with_fuel(be_value_flat, 9);
}

/// Writes the low 16 bits of `val`, least significant byte first.
pub fn write_le16(data: &mut [u8], val: u16)
    requires
        old(data)@.len() >= 2,
    ensures
        final(data)@ == le_bytes(val as nat, 2) + old(data)@.subrange(2, old(data)@.len() as int),
{
    data[0] = (val % 256) as u8;
    data[1] = (val / 256) as u8;
    proof {
        reveal_with_fuel(le_bytes, 3);
        assert(data@ =~= le_bytes(val as nat, 2) + old(data)@.subrange(2, old(data)@.len() as int));
    }
}

/// Writes the low 16 bits of `val`, most significant byte first.
pub fn write_be16(data: &mut [u8], val: u16)
    requires
        old(data)@.len() >= 2,
    ensures
        final(data)@ == be_bytes(val as nat, 2) + old(data)@.subrange(2, old(data)@.len() as int),
{
    data[1] = (val % 256) as u8;
    data[0] = (val / 256) as u8;
    proof {
        reveal_with_fuel(be_bytes, 3);
        assert(data@ =~= be_bytes(val as nat, 2) + old(data)@.subrange(2, old(data)@.len() as int));
    }
}

/// Writes the low 24 bits of `val`, most significant byte first.
pub fn write_be24(data: &mut [u8], val: u32)
    requires
        old(data)@.len() >= 3,
    ensures
        final(data)@ == be_bytes(val as nat, 3) + old(data)@.subrange(3, old(data)@.len() as int),
{
    data[2] = (val % 256) as u8;
    data[1] = (val / 256 % 256) as u8;
    data[0] = (val / 65536 % 256) as u8;
    proof {
        reveal_with_fuel(be_bytes, 4);
        assert(data@ =~= be_bytes(val as nat, 3) + old(data)@.subrange(3, old(data)@.len() as int));
    }
}

/// Writes `val` in four bytes, most significant byte first.
pub fn write_be32(data: &mut [u8], val: u32)
    requires
        old(data)@.len() >= 4,
    ensures
        final(data)@ == be_bytes(val as nat, 4) + old(data)@.subrange(4, old(data)@.len() as int),
{
    data[3] = (val % 256) as u8;
    data[2] = (val / 256 % 256) as u8;
    data[1] = (val / 65536 % 256) as u8;
    data[0] = (val / 0x100_0000 % 256) as u8;
    proof {
        reveal_with_fuel(be_bytes, 5);
        assert(data@ =~= be_bytes(val as nat, 4) + old(data)@.subrange(4, old(data)@.len() as int));
    }
}

/// Writes the low 48 bits of `val`, most significant byte first.
pub fn write_be48(data: &mut [u8], val: u64)
    requires
        old(data)@.len() >= 6,
    ensures
        final(data)@ == be_bytes(val as nat, 6) + old(data)@.subrange(6, old(data)@.len() as int),
{
    data[5] = (val % 256) as u8;
    data[4] = (val / 256 % 256) as u8;
    data[3] = (val / 65536 % 256) as u8;
    data[2] = (val / 0x100_0000 % 256) as u8;
    data[1] = (val / 0x1_0000_0000 % 256) as u8;
    data[0] = (val / 0x100_0000_0000 % 256) as u8;
    proof {
        reveal_with_fuel(be_bytes, 7);
        assert(data@ =~= be_bytes(val as nat, 6) + old(data)@.subrange(6, old(data)@.len() as int));
    }
}

/// Counters of the reads made from one source.
#[derive(Debug, Clone, Copy, PartialEq, Eq, Structural)]
pub struct IoStat {
    pub iops: u64,
    pub bytes: u64,
    pub seek: u64,
}

impl Default for IoStat {
    fn default() -> (r: Self)
        ensures
            r == (IoStat { iops: 0, bytes: 0, seek: 0 }),
    {
        IoStat { iops: 0, bytes: 0, seek: 0 }
    }
}

/// Counters of the work done by one codec slot.
#[derive(Debug, Clone, Copy, PartialEq, Eq, Structural)]
pub struct CodecStat {
    pub iops: u64,
    pub compressed: u64,
    pub decompressed: u64,
}

impl Default for CodecStat {
    fn default() -> (r: Self)
        ensures
            r == (CodecStat { iops: 0, compressed: 0, decompressed: 0 }),
    {
        CodecStat { iops: 0, compressed: 0, decompressed: 0 }
    }
}

/// Counters of one reader: the image, the logical data and the four codec slots.
#[derive(Debug, Clone, Copy)]
pub struct Stat {
    pub read: IoStat,
    pub chd: IoStat,
    pub decompress: [CodecStat; 4],
}

impl Default for Stat {
    fn default() -> (r: Self)
        ensures
            r.read == (IoStat { iops: 0, bytes: 0, seek: 0 }),
            r.chd == (IoStat { iops: 0, bytes: 0, seek: 0 }),
            forall|i: int|
                0 <= i < 4 ==> r.decompress[i] == (CodecStat {
                    iops: 0,
                    compressed: 0,
                    decompressed: 0,
                }),
    {
        let z = CodecStat { iops: 0, compressed: 0, decompressed: 0 };
        Stat {
            read: IoStat { iops: 0, bytes: 0, seek: 0 },
            chd: IoStat { iops: 0, bytes: 0, seek: 0 },
            decompress: [z, z, z, z],
        }
    }
}

/// What `copy_from` leaves in the destination: the start of `from`, as far
/// as it fits, in front of the rest of `to`.
pub open spec fn copied(to: Seq<u8>, from: Seq<u8>) -> Seq<u8> {
    let n = if from.len() < to.len() {
        from.len() as int
    } else {
        to.len() as int
    };
    from.subrange(0, n) + to.subrange(n, to.len() as int)
}

/// Copies as many bytes of `from` as fit to the start of `to` and returns their number.
pub fn copy_from(to: &mut [u8], from: &[u8]) -> (n: usize)
    ensures
        n == if from@.len() < old(to)@.len() {
            from@.len()
        } else {
            old(to)@.len()
        },
        final(to)@ == copied(old(to)@, from@),
{
    let n: usize = if from.len() < to.len() {
        from.len()
    } else {
        to.len()
    };
    let mut i: usize = 0;
    while i < n
        invariant
            i <= n,
            n <= from@.len(),
            n <= to@.len(),
            to@.len() == old(to)@.len(),
            forall|k: int| 0 <= k < i ==> to@[k] == from@[k],
            forall|k: int| i <= k < to@.len() ==> to@[k] == old(to)@[k],
        decreases n - i,
    {
        to[i] = from[i];
        i += 1;
    }
    assert(to@ =~= copied(old(to)@, from@));
    n
}

/// Overwrites the bytes of `dest` from `offset` on with those of `from`.
pub fn put_at(dest: &mut [u8], offset: usize, from: &[u8])
    requires
        offset + from@.len() <= old(dest)@.len(),
    ensures
        final(dest)@ == old(dest)@.subrange(0, offset as int) + from@ + old(dest)@.subrange(
            offset + from@.len(),
            old(dest)@.len() as int,
        ),
{
    let n = from.len();
    let total = dest.len();
    let mut i: usize = 0;
    while i < n
        invariant
            i <= n,
            n == from@.len(),
            total == dest@.len(),
            total == old(dest)@.len(),
            offset + n <= total,
            forall|k: int| 0 <= k < offset ==> dest@[k] == old(dest)@[k],
            forall|k: int| 0 <= k < i ==> dest@[offset + k] == from@[k],
            forall|k: int| offset + i <= k < total ==> dest@[k] == old(dest)@[k],
        decreases n - i,
    {
        dest[offset + i] = from[i];
        i += 1;
    }
    assert(dest@ =~= old(dest)@.subrange(0, offset as int) + from@ + old(dest)@.subrange(
        offset + from@.len(),
        old(dest)@.len() as int,
    ));
}

/// The image's bytes from `offset` on that fill a buffer of `len` bytes, if
/// the image holds that many.
pub open spec fn image_range(image: Seq<u8>, offset: nat, len: nat) -> Option<Seq<u8>> {
    if offset + len <= image.len() {
        Some(image.subrange(offset as int, (offset + len) as int))
    } else {
        None
    }
}

/// Fills `data` with the bytes of `image` that start at `offset`.
///
/// Fails with `ShortRead`, and leaves `data` as it was, where the image ends
/// before the buffer is full.
pub fn read_at(image: &[u8], offset: u64, data: &mut [u8]) -> (r: Result<(), ChdError>)
    ensures
        final(data)@.len() == old(data)@.len(),
        match image_range(image@, offset as nat, old(data)@.len()) {
            Some(s) => r is Ok && final(data)@ == s,
            None => r == Err::<(), ChdError>(ChdError::ShortRead) && final(data)@ == old(data)@,
        },
{
    let n = data.len();
    if offset > image.len() as u64 || n > image.len() - offset as usize {
        return Err(ChdError::ShortRead);
    }
    let start = offset as usize;
    let mut i: usize = 0;
    while i < n
        invariant
            i <= n,
            n == data@.len(),
            n == old(data)@.len(),
            start + n <= image@.len(),
            image@.len() <= usize::MAX,
            forall|k: int| 0 <= k < i ==> data@[k] == image@[start + k],
        decreases n - i,
    {
        data[i] = image[start + i];
        i += 1;
    }
    assert(data@ =~= image@.subrange(start as int, start + n));
    Ok(())
}

/// One step of the CRC register for one message bit that was already mixed in.
pub open spec fn crc16_shift(crc: u16) -> u16 {
    if crc & 0x8000 != 0 {
        (crc << 1) ^ 0x1021
    } else {
        crc << 1
    }
}

/// The CRC register after one more message byte.
pub open spec fn crc16_byte(crc: u16, b: u8) -> u16 {
    let c0 = crc ^ ((b as u16) << 8);
    crc16_shift(
        crc16_shift(
            crc16_shift(
                crc16_shift(crc16_shift(crc16_shift(crc16_shift(crc16_shift(c0))))),
            ),
        ),
    )
}

/// The CRC register after the bytes of `data`, starting from `crc`.
pub open spec fn crc16_update(crc: u16, data: Seq<u8>) -> u16
    decreases data.len(),
{
    if data.len() == 0 {
        crc
    } else {
        crc16_byte(crc16_update(crc, data.drop_last()), data.last())
    }
}

/// CRC-16/CCITT-FALSE: polynomial 0x1021, register preset to 0xFFFF, bits
/// taken most significant first, no final inversion.
pub open spec fn crc16_ccitt_false(data: Seq<u8>) -> u16 {
    crc16_update(0xFFFF, data)
}

/// The register after two runs of bytes is the register after their concatenation.
pub proof fn lemma_crc16_concat(crc: u16, a: Seq<u8>, b: Seq<u8>)
    ensures
        crc16_update(crc16_update(crc, a), b) == crc16_update(crc, a + b),
    decreases b.len(),
{
    if b.len() == 0 {
        assert(a + b =~= a);
    } else {
        lemma_crc16_concat(crc, a, b.drop_last());
        assert((a + b).drop_last() =~= a + b.drop_last());
        assert((a + b).last() == b.last());
    }
}

/// Feeds the bytes of `data` to a CRC register.
pub fn crc16_feed(crc: u16, data: &[u8]) -> (r: u16)
    ensures
        r == crc16_update(crc, data@),
{
    let mut c: u16 = crc;
    let mut i: usize = 0;
    while i < data.len()
        invariant
            i <= data@.len(),
            c == crc16_update(crc, data@.subrange(0, i as int)),
        decreases data@.len() - i,
    {
        let b = data[i];
        let mut x: u16 = c ^ ((b as u16) << 8);
        let mut k: u8 = 0;
        while k < 8
            invariant
                k <= 8,
                match k {
                    0 => crc16_byte(c, b) == crc16_shift(
                        crc16_shift(
                            crc16_shift(
                                crc16_shift(
                                    crc16_shift(crc16_shift(crc16_shift(crc16_shift(x)))),
                                ),
                            ),
                        ),
                    ),
                    1 => crc16_byte(c, b) == crc16_shift(
                        crc16_shift(
                            crc16_shift(
                                crc16_shift(crc16_shift(crc16_shift(crc16_shift(x)))),
                            ),
                        ),
                    ),
                    2 => crc16_byte(c, b) == crc16_shift(
                        crc16_shift(crc16_shift(crc16_shift(crc16_shift(crc16_shift(x))))),
                    ),
                    3 => crc16_byte(c, b) == crc16_shift(
                        crc16_shift(crc16_shift(crc16_shift(crc16_shift(x)))),
                    ),
                    4 => crc16_byte(c, b) == crc16_shift(
                        crc16_shift(crc16_shift(crc16_shift(x))),
                    ),
                    5 => crc16_byte(c, b) == crc16_shift(crc16_shift(crc16_shift(x))),
                    6 => crc16_byte(c, b) == crc16_shift(crc16_shift(x)),
                    7 => crc16_byte(c, b) == crc16_shift(x),
                    _ => crc16_byte(c, b) == x,
                },
            decreases 8 - k,
        {
            x = if x & 0x8000 != 0 {
                (x << 1) ^ 0x1021
            } else {
                x << 1
            };
            k += 1;
        }
        proof {
            let s = data@.subrange(0, i + 1);
            assert(s.drop_last() =~= data@.subrange(0, i as int));
            assert(s.last() == b);
        }
        c = x;
        i += 1;
    }
    assert(data@.subrange(0, i as int) =~= data@);
    c
}

/// The CRC-16/CCITT-FALSE checksum of `data`.
pub fn crc16(data: &[u8]) -> (r: u16)
    ensures
        r == crc16_ccitt_false(data@),
{
    crc16_feed(0xFFFF, data)
}

/// The lower-case hexadecimal digit of a number below 16.
pub open spec fn hex_digit(d: nat) -> char {
    if d < 10 {
        (48 + d) as u8 as char
    } else {
        (87 + d) as u8 as char
    }
}

/// Two lower-case hexadecimal digits for each byte, in order.
pub open spec fn hex_chars(data: Seq<u8>) -> Seq<char>
    decreases data.len(),
{
    if data.len() == 0 {
        Seq::empty()
    } else {
        hex_chars(data.drop_last()).push(hex_digit(data.last() as nat / 16)).push(
            hex_digit(data.last() as nat % 16),
        )
    }
}

/// `String::push`: the text grows by the one character.
#[verifier::external_body]
pub(crate) fn push_char(s: &mut String, c: char)
    ensures
        final(s)@ == old(s)@.push(c),
{
    s.push(c)
}

/// The character for a number below 16.
pub fn hex_digit_char(d: u8) -> (c: char)
    requires
        d < 16,
    ensures
        c == hex_digit(d as nat),
{
    if d < 10 {
        (48 + d) as char
    } else {
        (87 + d) as char
    }
}

/// The bytes of `hash` as lower-case hexadecimal text.
pub fn hex_string(hash: &[u8]) -> (s: String)
    ensures
        s@ == hex_chars(hash@),
{
    let mut s = String::new();
    let mut i: usize = 0;
    while i < hash.len()
        invariant
            i <= hash@.len(),
            s@ == hex_chars(hash@.subrange(0, i as int)),
        decreases hash@.len() - i,
    {
        let b = hash[i];
        proof {
            let t = hash@.subrange(0, i + 1);
            assert(t.drop_last() =~= hash@.subrange(0, i as int));
            assert(t.last() == b);
        }
        push_char(&mut s, hex_digit_char(b / 16));
        push_char(&mut s, hex_digit_char(b % 16));
        i += 1;
    }
    assert(hash@.subrange(0, i as int) =~= hash@);
    s
}

} // verus!
