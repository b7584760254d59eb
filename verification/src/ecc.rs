//! The error detection and correction codes of a Mode 1 CD sector.
//!
//! A sector of 2352 bytes holds 12 bytes of sync, 4 of header, 2048 of user
//! data, 4 of error detection code (EDC), 8 of zeros, and 276 of error
//! correction code (ECC): 172 bytes of P parity and 104 of Q parity.

use vstd::prelude::*;
use crate::utils::{le_bytes, lemma_le_bytes_len};

verus! {

/// Offset of the EDC in a sector.
pub const EDC_OFFSET: usize = 2064;

/// Offset of the P parity in a sector.
pub const ECC_P_OFFSET: usize = 2076;

/// Offset of the Q parity in a sector.
pub const ECC_Q_OFFSET: usize = 2248;

/// One step of the EDC register for one message bit that was already mixed in.
pub open spec fn edc_shift(e: u32) -> u32 {
    if e & 1 != 0 {
        (e >> 1) ^ 0xD8018001
    } else {
        e >> 1
    }
}

/// The EDC register after one more byte.
pub open spec fn edc_byte(e: u32, b: u8) -> u32 {
    let e0 = e ^ (b as u32);
    edc_shift(
        edc_shift(edc_shift(edc_shift(edc_shift(edc_shift(edc_shift(edc_shift(e0))))))),
    )
}

/// The EDC register after the bytes of `data`, starting from `e`.
pub open spec fn edc_update(e: u32, data: Seq<u8>) -> u32
    decreases data.len(),
{
    if data.len() == 0 {
        e
    } else {
        edc_byte(edc_update(e, data.drop_last()), data.last())
    }
}

/// The EDC of a run of bytes: a 32-bit CRC with the polynomial
/// (x^16 + x^15 + x^2 + 1)(x^16 + x^2 + x + 1), least significant bit
/// first, register preset to 0.
pub open spec fn edc(data: Seq<u8>) -> u32 {
    edc_update(0, data)
}

/// Twice a number in the field GF(2^8) with the polynomial x^8 + x^4 + x^3 + x^2 + 1.
pub open spec fn gf_double(x: u8) -> u8 {
    if x & 0x80 != 0 {
        (x << 1) ^ 0x1d
    } else {
        x << 1
    }
}

/// Three times a number in that field.
pub open spec fn gf_triple(x: u8) -> u8 {
    gf_double(x) ^ x
}

/// A third of a number in that field: the product with 0xF4, the inverse of 3.
pub open spec fn gf_third(y: u8) -> u8 {
    let d2 = gf_double(gf_double(y));
    let d4 = gf_double(gf_double(d2));
    let d5 = gf_double(d4);
    let d6 = gf_double(d5);
    let d7 = gf_double(d6);
    d2 ^ d4 ^ d5 ^ d6 ^ d7
}

/// The two running sums over a code word's data bytes: the first is doubled
/// after each byte, the second is the plain sum.
pub open spec fn ecc_sums(row: Seq<u8>) -> (u8, u8)
    decreases row.len(),
{
    if row.len() == 0 {
        (0, 0)
    } else {
        let s = ecc_sums(row.drop_last());
        (gf_double(s.0 ^ row.last()), s.1 ^ row.last())
    }
}

/// The two parity bytes of a code word.
pub open spec fn ecc_pair(row: Seq<u8>) -> (u8, u8) {
    let s = ecc_sums(row);
    let first = gf_third(gf_double(s.0) ^ s.1);
    (first, s.1 ^ first)
}

/// With the parity bytes appended, both sums of a code word vanish: the
/// plain sum over all its bytes, and the sum in which every byte is doubled
/// once for each byte that follows it.
pub proof fn lemma_ecc_pair(row: Seq<u8>)
    ensures
        ecc_sums(row.push(ecc_pair(row).0)).0 ^ ecc_pair(row).1 == 0,
        ecc_sums(row.push(ecc_pair(row).0)).1 ^ ecc_pair(row).1 == 0,
{
    let a = ecc_sums(row).0;
    let b = ecc_sums(row).1;
    let longer = row.push(ecc_pair(row).0);
    assert(longer.drop_last() =~= row);
    assert(gf_double(a ^ gf_third(gf_double(a) ^ b)) ^ (b ^ gf_third(gf_double(a) ^ b)) == 0)
        by (bit_vector);
    assert((b ^ gf_third(gf_double(a) ^ b)) ^ (b ^ gf_third(gf_double(a) ^ b)) == 0)
        by (bit_vector);
}

/// The data bytes of one code word: `count` bytes of the sector, taken
/// after the sync from `start` on in steps of `step`, wrapping at `size`.
pub open spec fn ecc_row(sector: Seq<u8>, start: int, step: int, count: nat, size: int) -> Seq<u8> {
    Seq::new(count, |k: int| sector[12 + (start + step * k) % size])
}

/// The data bytes of code word `j` of a block of `major` code words of
/// `minor` bytes each.
pub open spec fn block_row(sector: Seq<u8>, j: int, major: int, minor: int, mult: int, step: int)
    -> Seq<u8> {
    ecc_row(sector, (j / 2) * mult + j % 2, step, minor as nat, major * minor)
}

/// The sector with the parity of one block written at `dest`: the first
/// parity bytes of all code words, then the second ones.
pub open spec fn with_block(
    sector: Seq<u8>,
    major: int,
    minor: int,
    mult: int,
    step: int,
    dest: int,
) -> Seq<u8> {
    Seq::new(
        sector.len(),
        |i: int|
            if dest <= i < dest + major {
                ecc_pair(block_row(sector, i - dest, major, minor, mult, step)).0
            } else if dest + major <= i < dest + 2 * major {
                ecc_pair(block_row(sector, i - dest - major, major, minor, mult, step)).1
            } else {
                sector[i]
            },
    )
}

/// The sector with its EDC written: the code of the first 2064 bytes, least
/// significant byte first.
pub open spec fn with_edc(sector: Seq<u8>) -> Seq<u8> {
    sector.subrange(0, 2064) + le_bytes(edc(sector.subrange(0, 2064)) as nat, 4) + sector.subrange(
        2068,
        sector.len() as int,
    )
}

/// The sector with its P parity written: 86 code words of 24 bytes, one
/// for each column of the 2064 bytes after the sync.
pub open spec fn with_p(sector: Seq<u8>) -> Seq<u8> {
    with_block(sector, 86, 24, 2, 86, 2076)
}

/// The sector with its Q parity written: 52 code words of 43 bytes, one
/// for each diagonal of the 2236 bytes after the sync.
pub open spec fn with_q(sector: Seq<u8>) -> Seq<u8> {
    with_block(sector, 52, 43, 86, 88, 2248)
}

/// The sector with EDC, P parity and Q parity rebuilt, in that order.
pub open spec fn generated(sector: Seq<u8>) -> Seq<u8> {
    with_q(with_p(with_edc(sector)))
}

/// Rebuilding the codes keeps the length of the sector.
pub proof fn lemma_generated_len(sector: Seq<u8>)
    requires
        sector.len() >= 2068,
    ensures
        generated(sector).len() == sector.len(),
{
    lemma_le_bytes_len(edc(sector.subrange(0, 2064)) as nat, 4);
}

/// The EDC register after the first `n` bytes of `data`.
fn edc_of(data: &[u8], n: usize) -> (r: u32)
    requires
        n <= data@.len(),
    ensures
        r == edc(data@.subrange(0, n as int)),
{
    let mut e: u32 = 0;
    let mut i: usize = 0;
    while i < n
        invariant
            i <= n,
            n <= data@.len(),
            e == edc_update(0, data@.subrange(0, i as int)),
        decreases n - i,
    {
        let b = data[i];
        let mut x: u32 = e ^ (b as u32);
        let ghost x0 = x;
        let mut k: u8 = 0;
        while k < 8
            invariant
                k <= 8,
                x == edc_steps(x0, k as nat),
            decreases 8 - k,
        {
            x = if x & 1 != 0 {
                (x >> 1) ^ 0xD8018001
            } else {
                x >> 1
            };
            k += 1;
        }
        proof {
            reveal_with_fuel(edc_steps, 9);
            let s = data@.subrange(0, i + 1);
            assert(s.drop_last() =~= data@.subrange(0, i as int));
            assert(s.last() == b);
        }
        e = x;
        i += 1;
    }
    e
}

/// `k` steps of the EDC register.
pub open spec fn edc_steps(e: u32, k: nat) -> u32
    decreases k,
{
    if k == 0 {
        e
    } else {
        edc_shift(edc_steps(e, (k - 1) as nat))
    }
}

/// Twice a number in the field.
fn double(x: u8) -> (r: u8)
    ensures
        r == gf_double(x),
{
    if x & 0x80 != 0 {
        (x << 1) ^ 0x1d
    } else {
        x << 1
    }
}

/// A third of a number in the field.
fn third(y: u8) -> (r: u8)
    ensures
        r == gf_third(y),
{
    let d2 = double(double(y));
    let d4 = double(double(d2));
    let d5 = double(d4);
    let d6 = double(d5);
    let d7 = double(d6);
    d2 ^ d4 ^ d5 ^ d6 ^ d7
}

/// The parity bytes of one code word.
fn compute_bytes(sector: &[u8], start: usize, step: usize, count: usize, size: usize) -> (r: (
    u8,
    u8,
))
    requires
        start < size,
        step < size,
        12 + size <= sector@.len(),
    ensures
        r == ecc_pair(ecc_row(sector@, start as int, step as int, count as nat, size as int)),
{
    let ghost row = ecc_row(sector@, start as int, step as int, count as nat, size as int);
    let total = sector.len();
    let mut val1: u8 = 0;
    let mut val2: u8 = 0;
    let mut index: usize = start;
    let mut k: usize = 0;
    proof {
        assert(step * 0 == 0) by (nonlinear_arith);
        vstd::arithmetic::div_mod::lemma_small_mod(start as nat, size as nat);
    }
    while k < count
        invariant
            k <= count,
            index < size,
            start < size,
            step < size,
            12 + size <= total,
            total == sector@.len(),
            index == (start + step * k) % (size as int),
            row == ecc_row(sector@, start as int, step as int, count as nat, size as int),
            (val1, val2) == ecc_sums(row.take(k as int)),
        decreases count - k,
    {
        let temp = sector[12 + index];
        proof {
            assert(row.take(k + 1).drop_last() =~= row.take(k as int));
            assert(row.take(k + 1).last() == temp);
            let a = start + step * k;
            assert(step * (k + 1) == step * k + step) by (nonlinear_arith);
            vstd::arithmetic::div_mod::lemma_add_mod_noop(a, step as int, size as int);
            vstd::arithmetic::div_mod::lemma_small_mod(step as nat, size as nat);
            if index + step >= size {
                vstd::arithmetic::div_mod::lemma_mod_sub_multiples_vanish(
                    index + step,
                    size as int,
                );
                vstd::arithmetic::div_mod::lemma_small_mod(
                    (index + step - size) as nat,
                    size as nat,
                );
            } else {
                vstd::arithmetic::div_mod::lemma_small_mod((index + step) as nat, size as nat);
            }
        }
        index = if index >= size - step {
            index - (size - step)
        } else {
            index + step
        };
        val1 = double(val1 ^ temp);
        val2 = val2 ^ temp;
        k += 1;
    }
    assert(row.take(count as int) =~= row);
    let first = third(double(val1) ^ val2);
    (first, val2 ^ first)
}

/// Writes the parity of one block of code words.
fn compute_block(
    sector: &mut [u8],
    major: usize,
    minor: usize,
    mult: usize,
    step: usize,
    dest: usize,
)
    requires
        old(sector)@.len() == 2352,
        (major == 86 && minor == 24 && mult == 2 && step == 86 && dest == 2076) || (major == 52
            && minor == 43 && mult == 86 && step == 88 && dest == 2248),
    ensures
        final(sector)@ == with_block(
            old(sector)@,
            major as int,
            minor as int,
            mult as int,
            step as int,
            dest as int,
        ),
{
    let size = major * minor;
    let mut j: usize = 0;
    while j < major
        invariant
            j <= major,
            sector@.len() == 2352,
            size == major * minor,
            (major == 86 && minor == 24 && mult == 2 && step == 86 && dest == 2076 && size == 2064)
                || (major == 52 && minor == 43 && mult == 86 && step == 88 && dest == 2248 && size
                == 2236),
            forall|i: int|
                0 <= i < 2352 ==> sector@[i] == if dest <= i < dest + j {
                    ecc_pair(
                        block_row(
                            old(sector)@,
                            i - dest,
                            major as int,
                            minor as int,
                            mult as int,
                            step as int,
                        ),
                    ).0
                } else if dest + major <= i < dest + major + j {
                    ecc_pair(
                        block_row(
                            old(sector)@,
                            i - dest - major,
                            major as int,
                            minor as int,
                            mult as int,
                            step as int,
                        ),
                    ).1
                } else {
                    old(sector)@[i]
                },
        decreases major - j,
    {
        let start = (j / 2) * mult + j % 2;
        proof {
            let cur = ecc_row(sector@, start as int, step as int, minor as nat, size as int);
            let orig = block_row(
                old(sector)@,
                j as int,
                major as int,
                minor as int,
                mult as int,
                step as int,
            );
            assert(cur =~= orig);
        }
        let pair = compute_bytes(sector, start, step, minor, size);
        sector[dest + j] = pair.0;
        sector[dest + major + j] = pair.1;
        j += 1;
    }
    assert(sector@ =~= with_block(
        old(sector)@,
        major as int,
        minor as int,
        mult as int,
        step as int,
        dest as int,
    ));
}

/// Rebuilds the EDC and the ECC of a Mode 1 sector from its first 2064 bytes.
pub fn generate(sector: &mut [u8])
    requires
        old(sector)@.len() == 2352,
    ensures
        final(sector)@ == generated(old(sector)@),
{
    let e = edc_of(sector, EDC_OFFSET);
    sector[EDC_OFFSET] = (e % 256) as u8;
    sector[EDC_OFFSET + 1] = (e / 0x100 % 256) as u8;
    sector[EDC_OFFSET + 2] = (e / 0x1_0000 % 256) as u8;
    sector[EDC_OFFSET + 3] = (e / 0x100_0000 % 256) as u8;
    proof {
        reveal_with_fuel(le_bytes, 5);
        lemma_le_bytes_len(e as nat, 4);
        assert(sector@ =~= with_edc(old(sector)@));
    }
    compute_block(sector, 86, 24, 2, 86, ECC_P_OFFSET);
    compute_block(sector, 52, 43, 86, 88, ECC_Q_OFFSET);
}

} // verus!
