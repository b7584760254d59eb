//! A reader of bits, most significant bit of each byte first.

use vstd::prelude::*;
use vstd::arithmetic::power2::{pow2, lemma_pow2_unfold, lemma2_to64};

verus! {

/// Where a reader stands in its bytes.
pub ghost struct BitState {
    /// The number of bits consumed, never more than the bytes hold.
    pub pos: nat,
    /// Whether a read asked for bits past the end.
    pub overflow: bool,
}

/// Bit `i` of the stream: bit `7 - i % 8` of byte `i / 8`, and 0 past the end.
pub open spec fn bit_at(data: Seq<u8>, i: nat) -> nat {
    if i < 8 * data.len() {
        ((data[(i / 8) as int] >> ((7 - i % 8) as u8)) & 1) as nat
    } else {
        0
    }
}

/// The number spelled by the `n` bits from `pos` on, the first bit being the
/// most significant.
pub open spec fn bits_value(data: Seq<u8>, pos: nat, n: nat) -> nat
    decreases n,
{
    if n == 0 {
        0
    } else {
        2 * bits_value(data, pos, (n - 1) as nat) + bit_at(data, (pos + n - 1) as nat)
    }
}

/// The state after `n` more bits were asked for.
pub open spec fn advance(data: Seq<u8>, st: BitState, n: nat) -> BitState {
    if st.pos + n <= 8 * data.len() {
        BitState { pos: st.pos + n, overflow: st.overflow }
    } else {
        BitState { pos: 8 * data.len(), overflow: true }
    }
}

/// A number of `n` bits is below 2 to the power `n`.
pub proof fn lemma_bits_value_bound(data: Seq<u8>, pos: nat, n: nat)
    ensures
        bits_value(data, pos, n) < pow2(n),
    decreases n,
{
    if n == 0 {
        lemma2_to64();
    } else {
        lemma_bits_value_bound(data, pos, (n - 1) as nat);
        lemma_pow2_unfold(n);
        let b = data[((pos + n - 1) / 8) as int];
        let k = (7 - (pos + n - 1) % 8) as u8;
        assert((b >> k) & 1 <= 1) by (bit_vector);
    }
}

/// A cursor over a byte slice that hands out its bits in order.
#[derive(Clone, Copy)]
pub struct BitReader<'a> {
    data: &'a [u8],
    byte: usize,
    bit: u8,
    overflow: bool,
}

impl<'a> BitReader<'a> {
    /// The bytes that are read.
    pub closed spec fn data(&self) -> Seq<u8> {
        self.data@
    }

    /// The position, and whether the end was passed.
    pub closed spec fn state(&self) -> BitState {
        BitState { pos: (8 * self.byte + self.bit) as nat, overflow: self.overflow }
    }

    /// The position never lies past the end of the bytes.
    pub closed spec fn wf(&self) -> bool {
        &&& self.byte <= self.data@.len()
        &&& self.bit < 8
        &&& self.byte == self.data@.len() ==> self.bit == 0
    }

    /// A reader in good order stands at or before the end of its bytes.
    pub proof fn lemma_wf(&self)
        requires
            self.wf(),
        ensures
            self.state().pos <= 8 * self.data().len(),
    {
    }

    /// A reader at the first bit of `data`.
    pub fn new(data: &'a [u8]) -> (r: Self)
        ensures
            r.wf(),
            r.data() == data@,
            r.state() == (BitState { pos: 0, overflow: false }),
    {
        BitReader { data, byte: 0, bit: 0, overflow: false }
    }

    /// Takes one bit.
    fn read_bit(&mut self) -> (r: u32)
        requires
            old(self).wf(),
        ensures
            final(self).wf(),
            final(self).data() == old(self).data(),
            final(self).state() == advance(old(self).data(), old(self).state(), 1),
            r == bit_at(old(self).data(), old(self).state().pos),
            r <= 1,
    {
        if self.byte < self.data.len() {
            let b = self.data[self.byte];
            let k: u8 = 7 - self.bit;
            assert((b >> k) & 1 <= 1) by (bit_vector);
            assert((8 * self.byte + self.bit) / 8 == self.byte as int);
            assert((8 * self.byte + self.bit) % 8 == self.bit as int);
            let r = ((b >> k) & 1) as u32;
            if self.bit == 7 {
                self.bit = 0;
                self.byte = self.byte + 1;
            } else {
                self.bit = self.bit + 1;
            }
            r
        } else {
            self.overflow = true;
            0
        }
    }

    /// Takes the next `n` bits as a number, first bit most significant.
    ///
    /// Bits past the end read as zero, and asking for one sets the overflow
    /// flag for good. `read(0)` is 0 and changes nothing.
    pub fn read(&mut self, n: usize) -> (r: u32)
        requires
            old(self).wf(),
            n <= 32,
        ensures
            final(self).wf(),
            final(self).data() == old(self).data(),
            final(self).state() == advance(old(self).data(), old(self).state(), n as nat),
            r == bits_value(old(self).data(), old(self).state().pos, n as nat),
    {
        let mut val: u32 = 0;
        let mut i: usize = 0;
        let ghost d = self.data();
        let ghost st = self.state();
        proof {
            self.lemma_wf();
        }
        while i < n
            invariant
                i <= n,
                n <= 32,
                self.wf(),
                self.data() == d,
                st.pos <= 8 * d.len(),
                self.state() == advance(d, st, i as nat),
                val == bits_value(d, st.pos, i as nat),
            decreases n - i,
        {
            proof {
                lemma_bits_value_bound(d, st.pos, i as nat);
                lemma_bits_value_bound(d, st.pos, (i + 1) as nat);
                lemma2_to64();
                if i < 31 {
                    vstd::arithmetic::power2::lemma_pow2_strictly_increases(
                        (i + 1) as nat,
                        32,
                    );
                }
                if st.pos + i > 8 * d.len() {
                    assert(bit_at(d, (st.pos + i) as nat) == 0);
                }
            }
            let b = self.read_bit();
            val = val * 2 + b;
            i += 1;
        }
        val
    }

    /// Whether a read has asked for bits past the end.
    pub fn overflow(&self) -> (r: bool)
        ensures
            r == self.state().overflow,
    {
        self.overflow
    }
}

} // verus!
