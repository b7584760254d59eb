//! A decoder of canonical Huffman codes whose code lengths come from the bit stream.

use vstd::prelude::*;
use vstd::arithmetic::power2::{pow2, lemma2_to64};
use crate::bitstream::{BitReader, BitState, advance, bits_value, lemma_bits_value_bound};
use crate::error::ChdError;

verus! {

/// The number of bits that hold any code length up to `max_bits`: the bit
/// length of `max_bits`, which is the ceiling of log2(max_bits + 1).
pub open spec fn field_width(max_bits: nat) -> nat
    decreases max_bits,
{
    if max_bits == 0 {
        0
    } else {
        1 + field_width(max_bits / 2)
    }
}

/// How many of the lengths equal `len`.
pub open spec fn count_len(lengths: Seq<u8>, len: nat) -> nat
    decreases lengths.len(),
{
    if lengths.len() == 0 {
        0
    } else {
        count_len(lengths.drop_last(), len) + if lengths.last() as nat == len {
            1nat
        } else {
            0nat
        }
    }
}

/// The first code of length `len`. Codes of the greatest length start at 0;
/// each shorter length starts where the next longer one ended, one bit dropped.
pub open spec fn code_start(lengths: Seq<u8>, len: nat) -> nat
    decreases 32 - len,
{
    if len >= 32 {
        0
    } else {
        (code_start(lengths, len + 1) + count_len(lengths, len + 1)) / 2
    }
}

/// The code of symbol `sym`: the codes of one length are handed out in
/// symbol order from `code_start` on.
pub open spec fn code_of(lengths: Seq<u8>, sym: int) -> nat {
    code_start(lengths, lengths[sym] as nat) + count_len(lengths.take(sym), lengths[sym] as nat)
}

/// Whether the lengths can be given canonical codes: none exceeds
/// `max_bits`, and at every length but 1 the codes of that length end on an
/// even number, so that they pair up under the next shorter length.
pub open spec fn lengths_ok(lengths: Seq<u8>, max_bits: nat) -> bool {
    &&& forall|i: int| 0 <= i < lengths.len() ==> lengths[i] as nat <= max_bits
    &&& forall|len: nat|
        2 <= len <= 32 ==> (#[trigger] code_start(lengths, len) + count_len(lengths, len)) % 2 == 0
}

/// Whether symbol `sym` has a code and that code starts the `max_bits` bits `peek`.
pub open spec fn code_matches(lengths: Seq<u8>, max_bits: nat, peek: nat, sym: int) -> bool {
    &&& 0 < lengths[sym] as nat <= max_bits
    &&& peek / pow2((max_bits - lengths[sym] as nat) as nat) == code_of(lengths, sym)
}

/// The symbol among the first `k` that `peek` decodes to, with its code
/// length: the last one whose code matches, and (0, 0) if none does.
pub open spec fn lookup_upto(lengths: Seq<u8>, max_bits: nat, peek: nat, k: nat) -> (nat, nat)
    decreases k,
{
    if k == 0 {
        (0, 0)
    } else if code_matches(lengths, max_bits, peek, k - 1) {
        ((k - 1) as nat, lengths[k - 1] as nat)
    } else {
        lookup_upto(lengths, max_bits, peek, (k - 1) as nat)
    }
}

/// The symbol that the next `max_bits` bits decode to, and the state after
/// its code was consumed.
pub open spec fn decode_at(lengths: Seq<u8>, max_bits: nat, data: Seq<u8>, st: BitState) -> (
    nat,
    BitState,
) {
    let peek = bits_value(data, st.pos, max_bits);
    let hit = lookup_upto(lengths, max_bits, peek, lengths.len());
    (hit.0, advance(data, st, hit.1))
}

/// `n` zero lengths.
pub open spec fn zero_run(n: nat) -> Seq<u8> {
    Seq::new(n, |i: int| 0u8)
}

/// Reads a run-length coded list of code lengths, continuing from the
/// lengths `acc` already read.
///
/// Each field is `width` bits. A field other than 1 is a length. The field 1
/// starts a run: the next 3 bits plus 3 is the number of zero lengths that
/// follow. A run that would pass `num_codes` makes the list invalid.
pub open spec fn rle_list(data: Seq<u8>, st: BitState, width: nat, num_codes: nat, acc: Seq<u8>)
    -> (Option<Seq<u8>>, BitState)
    decreases num_codes - acc.len(),
{
    if acc.len() >= num_codes {
        (Some(acc), st)
    } else {
        let v = bits_value(data, st.pos, width);
        let st1 = advance(data, st, width);
        if v != 1 {
            rle_list(data, st1, width, num_codes, acc.push(v as u8))
        } else {
            let run = 3 + bits_value(data, st1.pos, 3);
            let st2 = advance(data, st1, 3);
            if acc.len() + run > num_codes {
                (None, st2)
            } else {
                rle_list(data, st2, width, num_codes, acc + zero_run(run))
            }
        }
    }
}

/// What importing a list of lengths gives once the list was read: the
/// lengths, or the reason to reject them.
pub open spec fn checked_lengths(list: Option<Seq<u8>>, st: BitState, max_bits: nat) -> Result<
    Seq<u8>,
    ChdError,
> {
    match list {
        None => Err(ChdError::HuffmanInvalidData),
        Some(lengths) => if !lengths_ok(lengths, max_bits) {
            Err(ChdError::HuffmanInvalidData)
        } else if st.overflow {
            Err(ChdError::HuffmanTooShort)
        } else {
            Ok(lengths)
        },
    }
}

/// The result of importing a run-length coded list for a decoder of
/// `num_codes` symbols: the lengths or the error, and where the stream stands.
pub open spec fn rle_import(data: Seq<u8>, st: BitState, num_codes: nat, max_bits: nat) -> (
    Result<Seq<u8>, ChdError>,
    BitState,
) {
    let out = rle_list(data, st, field_width(max_bits), num_codes, Seq::empty());
    (checked_lengths(out.0, out.1, max_bits), out.1)
}

/// Reads a list of code lengths that is itself Huffman coded, continuing
/// from the lengths `acc` already read.
///
/// `meta` holds the code lengths of the 24 symbols of the inner code. A
/// decoded symbol below `limit` is the next length; a symbol `s` from
/// `limit` on stands for `s - limit + 1` zero lengths, cut off at `num_codes`.
pub open spec fn coded_list(
    meta: Seq<u8>,
    data: Seq<u8>,
    st: BitState,
    limit: nat,
    num_codes: nat,
    acc: Seq<u8>,
) -> (Seq<u8>, BitState)
    decreases num_codes - acc.len(),
{
    if acc.len() >= num_codes {
        (acc, st)
    } else {
        let d = decode_at(meta, 6, data, st);
        if d.0 < limit {
            coded_list(meta, data, d.1, limit, num_codes, acc.push(d.0 as u8))
        } else {
            let run = (d.0 - limit + 1) as nat;
            let room = (num_codes - acc.len()) as nat;
            coded_list(
                meta,
                data,
                d.1,
                limit,
                num_codes,
                acc + zero_run(
                    if run < room {
                        run
                    } else {
                        room
                    },
                ),
            )
        }
    }
}

/// The result of importing a Huffman coded list for a decoder of
/// `num_codes` symbols: first the inner code's own lengths (24 symbols of at
/// most 6 bits, run-length coded), then the list, then one more inner symbol
/// that ends it.
pub open spec fn huffman_import(data: Seq<u8>, st: BitState, num_codes: nat, max_bits: nat) -> (
    Result<Seq<u8>, ChdError>,
    BitState,
) {
    let inner = rle_import(data, st, 24, 6);
    match inner.0 {
        Err(e) => (Err(e), inner.1),
        Ok(meta) => {
            let out = coded_list(meta, data, inner.1, field_width(max_bits), num_codes, Seq::empty());
            let end = decode_at(meta, 6, data, out.1);
            (checked_lengths(Some(out.0), end.1, max_bits), end.1)
        },
    }
}

/// No more lengths equal `len` than there are lengths.
pub proof fn lemma_count_len_bound(lengths: Seq<u8>, len: nat)
    ensures
        count_len(lengths, len) <= lengths.len(),
    decreases lengths.len(),
{
    if lengths.len() > 0 {
        lemma_count_len_bound(lengths.drop_last(), len);
    }
}

/// One more length adds one to the count of its own value and nothing to the others.
pub proof fn lemma_count_len_take(lengths: Seq<u8>, k: int, len: nat)
    requires
        0 <= k < lengths.len(),
    ensures
        count_len(lengths.take(k + 1), len) == count_len(lengths.take(k), len) + if lengths[k] as nat
            == len {
            1nat
        } else {
            0nat
        },
        count_len(lengths.take(k), len) <= k,
{
    assert(lengths.take(k + 1).drop_last() =~= lengths.take(k));
    lemma_count_len_bound(lengths.take(k), len);
}

/// The codes of a length start no higher than the number of symbols.
pub proof fn lemma_code_start_bound(lengths: Seq<u8>, len: nat)
    ensures
        code_start(lengths, len) <= lengths.len(),
    decreases 32 - len,
{
    if len < 32 {
        lemma_code_start_bound(lengths, len + 1);
        lemma_count_len_bound(lengths, len + 1);
    }
}

/// A length field is at most six bits wide and holds every length up to `max_bits`.
pub proof fn lemma_field_width_bound(max_bits: nat)
    requires
        max_bits <= 32,
    ensures
        field_width(max_bits) <= 6,
        max_bits >= 1 ==> field_width(max_bits) >= 1,
        max_bits < pow2(field_width(max_bits)),
{
    reveal_with_fuel(field_width, 8);
    lemma2_to64();
}

/// A canonical Huffman decoder for `num_codes` symbols with codes of at most
/// `max_bits` bits.
pub struct Huffman {
    num_codes: u32,
    max_bits: u8,
    lengths: Vec<u8>,
    codes: Vec<u64>,
    generation: u64,
}

impl Huffman {
    /// The number of symbols.
    pub closed spec fn num_codes(&self) -> nat {
        self.num_codes as nat
    }

    /// The greatest code length.
    pub closed spec fn max_bits(&self) -> nat {
        self.max_bits as nat
    }

    /// The code length of each symbol; 0 for a symbol without a code.
    pub closed spec fn lengths(&self) -> Seq<u8> {
        self.lengths@
    }

    /// The number of symbols decoded so far, modulo 2 to the power 64.
    pub closed spec fn generation(&self) -> nat {
        self.generation as nat
    }

    /// The decoder holds one length and the canonical code for each symbol.
    pub closed spec fn wf(&self) -> bool {
        &&& 1 <= self.max_bits <= 32
        &&& self.lengths@.len() == self.num_codes
        &&& self.codes@.len() == self.num_codes
        &&& forall|i: int| 0 <= i < self.num_codes ==> self.lengths@[i] <= self.max_bits
        &&& forall|i: int|
            0 <= i < self.num_codes && self.lengths@[i] > 0 ==> #[trigger] self.codes@[i]
                == code_of(self.lengths@, i)
    }

    /// A decoder in which no symbol has a code yet.
    pub fn new(num_codes: u32, max_bits: u8) -> (r: Self)
        requires
            1 <= max_bits <= 32,
        ensures
            r.wf(),
            r.num_codes() == num_codes,
            r.max_bits() == max_bits,
            r.lengths() == zero_run(num_codes as nat),
            r.generation() == 0,
    {
        let mut lengths: Vec<u8> = Vec::new();
        let mut i: u32 = 0;
        while i < num_codes
            invariant
                i <= num_codes,
                lengths@ == zero_run(i as nat),
            decreases num_codes - i,
        {
            lengths.push(0);
            assert(lengths@ =~= zero_run((i + 1) as nat));
            i += 1;
        }
        let codes = Self::assign_codes(&lengths, max_bits);
        Huffman { num_codes, max_bits, lengths, codes: codes.unwrap(), generation: 0 }
    }

    /// The canonical codes for `lengths`, or nothing where `lengths_ok` fails.
    fn assign_codes(lengths: &Vec<u8>, max_bits: u8) -> (r: Option<Vec<u64>>)
        requires
            1 <= max_bits <= 32,
            lengths@.len() <= u32::MAX,
        ensures
            r is Some <==> lengths_ok(lengths@, max_bits as nat),
            r matches Some(codes) ==> {
                &&& codes@.len() == lengths@.len()
                &&& forall|i: int|
                    0 <= i < lengths@.len() && lengths@[i] > 0 ==> #[trigger] codes@[i] == code_of(
                        lengths@,
                        i,
                    )
            },
            lengths@ == zero_run(lengths@.len()) ==> r is Some,
    {
        let n = lengths.len();
        // how many symbols have each length
        let mut histo: Vec<u64> = Vec::new();
        let mut l: usize = 0;
        while l < 33
            invariant
                l <= 33,
                histo@.len() == l,
                forall|k: int| 0 <= k < l ==> histo@[k] == 0,
            decreases 33 - l,
        {
            histo.push(0);
            l += 1;
        }
        let mut i: usize = 0;
        while i < n
            invariant
                i <= n,
                n == lengths@.len(),
                n <= u32::MAX,
                max_bits <= 32,
                histo@.len() == 33,
                forall|k: int| 0 <= k < i ==> lengths@[k] <= max_bits,
                forall|k: int| 0 <= k < 33 ==> histo@[k] == count_len(lengths@.take(i as int), k as nat),
            decreases n - i,
        {
            let len = lengths[i];
            if len > max_bits {
                return None;
            }
            proof {
                assert forall|k: int| 0 <= k < 33 implies (if k == len as int {
                    histo@[k] + 1
                } else {
                    histo@[k] as int
                }) == count_len(lengths@.take(i + 1), k as nat) by {
                    lemma_count_len_take(lengths@, i as int, k as nat);
                }
                lemma_count_len_take(lengths@, i as int, len as nat);
            }
            let h = histo[len as usize];
            histo[len as usize] = h + 1;
            i += 1;
        }
        assert(lengths@.take(n as int) =~= lengths@);
        // where the codes of each length start
        let mut starts: Vec<u64> = Vec::new();
        let mut l: usize = 0;
        while l < 33
            invariant
                l <= 33,
                starts@.len() == l,
            decreases 33 - l,
        {
            starts.push(0);
            l += 1;
        }
        let mut cur: u64 = 0;
        let mut codelen: usize = 32;
        while codelen > 0
            invariant
                codelen <= 32,
                n == lengths@.len(),
                n <= u32::MAX,
                histo@.len() == 33,
                starts@.len() == 33,
                forall|k: int| 0 <= k < 33 ==> histo@[k] == count_len(lengths@, k as nat),
                cur == code_start(lengths@, codelen as nat),
                forall|k: int| codelen < k <= 32 ==> starts@[k] == code_start(lengths@, k as nat),
                forall|k: nat|
                    2 <= k <= 32 && codelen < k ==> (#[trigger] code_start(lengths@, k) + count_len(
                        lengths@,
                        k,
                    )) % 2 == 0,
            decreases codelen,
        {
            proof {
                lemma_code_start_bound(lengths@, codelen as nat);
                lemma_count_len_bound(lengths@, codelen as nat);
            }
            let total = cur + histo[codelen];
            if codelen != 1 && total % 2 != 0 {
                proof {
                    assert(!lengths_ok(lengths@, max_bits as nat));
                    if lengths@ == zero_run(lengths@.len()) {
                        lemma_zero_run_codes(lengths@.len(), codelen as nat);
                    }
                }
                return None;
            }
            starts[codelen] = cur;
            cur = total / 2;
            codelen -= 1;
        }
        // the codes of one length, in symbol order
        let mut codes: Vec<u64> = Vec::new();
        let mut i: usize = 0;
        while i < n
            invariant
                i <= n,
                n == lengths@.len(),
                n <= u32::MAX,
                starts@.len() == 33,
                codes@.len() == i,
                max_bits <= 32,
                forall|k: int| 0 <= k < n ==> lengths@[k] <= max_bits,
                forall|k: int|
                    1 <= k <= 32 ==> starts@[k] == code_start(lengths@, k as nat) + count_len(
                        lengths@.take(i as int),
                        k as nat,
                    ),
                forall|k: int|
                    0 <= k < i && lengths@[k] > 0 ==> #[trigger] codes@[k] == code_of(lengths@, k),
            decreases n - i,
        {
            let len = lengths[i] as usize;
            proof {
                assert forall|k: int| 1 <= k <= 32 implies (if k == len as int {
                    starts@[k] + 1
                } else {
                    starts@[k] as int
                }) == code_start(lengths@, k as nat) + count_len(
                    lengths@.take(i + 1),
                    k as nat,
                ) by {
                    lemma_count_len_take(lengths@, i as int, k as nat);
                }
                lemma_count_len_take(lengths@, i as int, len as nat);
                lemma_code_start_bound(lengths@, len as nat);
            }
            if len > 0 {
                let c = starts[len];
                codes.push(c);
                starts[len] = c + 1;
            } else {
                codes.push(0);
            }
            i += 1;
        }
        Some(codes)
    }

    /// The number of bits of one length field.
    fn width(max_bits: u8) -> (w: u8)
        requires
            max_bits <= 32,
        ensures
            w == field_width(max_bits as nat),
            w <= 6,
    {
        proof {
            lemma_field_width_bound(max_bits as nat);
        }
        let mut w: u8 = 0;
        let mut m: u8 = max_bits;
        while m > 0
            invariant
                m <= max_bits,
                max_bits <= 32,
                w + field_width(m as nat) == field_width(max_bits as nat),
                field_width(max_bits as nat) <= 6,
            decreases m,
        {
            m = m / 2;
            w = w + 1;
        }
        w
    }

    /// Appends `count` zero lengths.
    fn push_zeros(lengths: &mut Vec<u8>, count: usize)
        ensures
            final(lengths)@ == old(lengths)@ + zero_run(count as nat),
    {
        let mut j: usize = 0;
        while j < count
            invariant
                j <= count,
                lengths@ == old(lengths)@ + zero_run(j as nat),
            decreases count - j,
        {
            lengths.push(0);
            assert(lengths@ =~= old(lengths)@ + zero_run((j + 1) as nat));
            j += 1;
        }
    }

    /// Takes the lengths that were read, if they can be given codes and the
    /// stream did not end early.
    fn install(&mut self, lengths: Vec<u8>, overflow: bool) -> (r: Result<(), ChdError>)
        requires
            old(self).wf(),
            lengths@.len() == old(self).num_codes(),
        ensures
            final(self).wf(),
            final(self).num_codes() == old(self).num_codes(),
            final(self).max_bits() == old(self).max_bits(),
            final(self).generation() == old(self).generation(),
            match checked_lengths(
                Some(lengths@),
                BitState { pos: 0, overflow },
                old(self).max_bits(),
            ) {
                Ok(l) => r is Ok && final(self).lengths() == l,
                Err(e) => r == Err::<(), ChdError>(e) && final(self).lengths() == old(
                    self,
                ).lengths(),
            },
    {
        match Self::assign_codes(&lengths, self.max_bits) {
            None => Err(ChdError::HuffmanInvalidData),
            Some(codes) => {
                if overflow {
                    Err(ChdError::HuffmanTooShort)
                } else {
                    self.lengths = lengths;
                    self.codes = codes;
                    Ok(())
                }
            },
        }
    }

    /// Reads the code lengths as a run-length coded list and builds the codes.
    ///
    /// On an error the decoder keeps the codes it had.
    pub fn import_tree_rle(&mut self, bits: &mut BitReader) -> (r: Result<(), ChdError>)
        requires
            old(self).wf(),
            old(bits).wf(),
        ensures
            final(self).wf(),
            final(self).num_codes() == old(self).num_codes(),
            final(self).max_bits() == old(self).max_bits(),
            final(self).generation() == old(self).generation(),
            final(bits).wf(),
            final(bits).data() == old(bits).data(),
            ({
                let out = rle_import(
                    old(bits).data(),
                    old(bits).state(),
                    old(self).num_codes(),
                    old(self).max_bits(),
                );
                &&& final(bits).state() == out.1
                &&& match out.0 {
                    Ok(l) => r is Ok && final(self).lengths() == l,
                    Err(e) => r == Err::<(), ChdError>(e) && final(self).lengths() == old(
                        self,
                    ).lengths(),
                }
            }),
    {
        let width = Self::width(self.max_bits) as usize;
        let n = self.num_codes as usize;
        let mut lengths: Vec<u8> = Vec::new();
        let ghost data = bits.data();
        let ghost st0 = bits.state();
        while lengths.len() < n
            invariant
                bits.wf(),
                bits.data() == data,
                data == old(bits).data(),
                st0 == old(bits).state(),
                self.wf(),
                width == field_width(self.max_bits()),
                width <= 6,
                n == self.num_codes(),
                lengths@.len() <= n,
                *self == *old(self),
                rle_list(data, st0, width as nat, n as nat, Seq::empty()) == rle_list(
                    data,
                    bits.state(),
                    width as nat,
                    n as nat,
                    lengths@,
                ),
            decreases n - lengths@.len(),
        {
            proof {
                lemma_bits_value_bound(data, bits.state().pos, width as nat);
                lemma2_to64();
                if width < 6 {
                    vstd::arithmetic::power2::lemma_pow2_strictly_increases(width as nat, 6);
                }
            }
            let v = bits.read(width);
            if v != 1 {
                lengths.push(v as u8);
            } else {
                proof {
                    lemma_bits_value_bound(data, bits.state().pos, 3);
                }
                let run = 3 + bits.read(3) as usize;
                if run > n - lengths.len() {
                    return Err(ChdError::HuffmanInvalidData);
                }
                Self::push_zeros(&mut lengths, run);
            }
        }
        self.install(lengths, bits.overflow())
    }

    /// Reads the code lengths as a list that is itself Huffman coded, and
    /// builds the codes.
    ///
    /// On an error the decoder keeps the codes it had.
    pub fn import_tree_huffman(&mut self, bits: &mut BitReader) -> (r: Result<(), ChdError>)
        requires
            old(self).wf(),
            old(bits).wf(),
        ensures
            final(self).wf(),
            final(self).num_codes() == old(self).num_codes(),
            final(self).max_bits() == old(self).max_bits(),
            final(self).generation() == old(self).generation(),
            final(bits).wf(),
            final(bits).data() == old(bits).data(),
            ({
                let out = huffman_import(
                    old(bits).data(),
                    old(bits).state(),
                    old(self).num_codes(),
                    old(self).max_bits(),
                );
                &&& final(bits).state() == out.1
                &&& match out.0 {
                    Ok(l) => r is Ok && final(self).lengths() == l,
                    Err(e) => r == Err::<(), ChdError>(e) && final(self).lengths() == old(
                        self,
                    ).lengths(),
                }
            }),
    {
        let mut meta = Huffman::new(24, 6);
        match meta.import_tree_rle(bits) {
            Err(e) => {
                return Err(e);
            },
            Ok(()) => {},
        }
        let limit = Self::width(self.max_bits) as u32;
        let n = self.num_codes as usize;
        let mut lengths: Vec<u8> = Vec::new();
        let ghost data = bits.data();
        let ghost st0 = bits.state();
        let ghost ml = meta.lengths();
        while lengths.len() < n
            invariant
                bits.wf(),
                bits.data() == data,
                data == old(bits).data(),
                self.wf(),
                meta.lengths() == ml,
                meta.wf(),
                meta.num_codes() == 24,
                meta.max_bits() == 6,
                limit == field_width(self.max_bits()),
                limit <= 6,
                n == self.num_codes(),
                lengths@.len() <= n,
                *self == *old(self),
                coded_list(meta.lengths(), data, st0, limit as nat, n as nat, Seq::empty())
                    == coded_list(
                    meta.lengths(),
                    data,
                    bits.state(),
                    limit as nat,
                    n as nat,
                    lengths@,
                ),
            decreases n - lengths@.len(),
        {
            let s = meta.decode_one(bits);
            if s < limit {
                lengths.push(s as u8);
            } else {
                let run = (s - limit + 1) as usize;
                let room = n - lengths.len();
                Self::push_zeros(
                    &mut lengths,
                    if run < room {
                        run
                    } else {
                        room
                    },
                );
            }
        }
        let _ = meta.decode_one(bits);
        self.install(lengths, bits.overflow())
    }

    /// Decodes one symbol and counts it.
    ///
    /// The next `max_bits` bits, zero where the stream has ended, are held
    /// against the codes: the symbol is the last one whose code starts them,
    /// and only that code is consumed. Where no code matches the symbol is 0
    /// and nothing is consumed.
    pub fn decode_one(&mut self, bits: &mut BitReader) -> (r: u32)
        requires
            old(self).wf(),
            old(bits).wf(),
        ensures
            final(self).wf(),
            final(self).num_codes() == old(self).num_codes(),
            final(self).max_bits() == old(self).max_bits(),
            final(self).lengths() == old(self).lengths(),
            final(self).generation() == (old(self).generation() + 1) % 0x1_0000_0000_0000_0000,
            final(bits).wf(),
            final(bits).data() == old(bits).data(),
            (r as nat, final(bits).state()) == decode_at(
                old(self).lengths(),
                old(self).max_bits(),
                old(bits).data(),
                old(bits).state(),
            ),
            r < old(self).num_codes() || r == 0,
    {
        let mut probe: BitReader = *bits;
        let peek = probe.read(self.max_bits as usize);
        let mut k: usize = self.num_codes as usize;
        let mut sym: u32 = 0;
        let mut len: u8 = 0;
        let mut found = false;
        let ghost lengths = self.lengths@;
        let ghost mb = self.max_bits as nat;
        while k > 0 && !found
            invariant
                self.wf(),
                k <= self.num_codes,
                lengths == self.lengths@,
                mb == self.max_bits,
                len <= self.max_bits,
                sym < self.num_codes || sym == 0,
                lookup_upto(lengths, mb, peek as nat, lengths.len()) == if found {
                    (sym as nat, len as nat)
                } else {
                    lookup_upto(lengths, mb, peek as nat, k as nat)
                },
                !found ==> sym == 0 && len == 0,
            decreases k + if found { 0int } else { 1int },
        {
            k -= 1;
            let l = self.lengths[k];
            if l > 0 {
                let shift: u32 = (self.max_bits - l) as u32;
                proof {
                    vstd::bits::lemma_u32_shr_is_div(peek, shift);
                }
                if (peek >> shift) as u64 == self.codes[k] {
                    sym = k as u32;
                    len = l;
                    found = true;
                }
            }
        }
        let _ = bits.read(len as usize);
        self.generation = self.generation.wrapping_add(1);
        sym
    }

    /// The number of symbols decoded so far, modulo 2 to the power 64.
    pub fn generation_count(&self) -> (r: u64)
        ensures
            r == self.generation(),
    {
        self.generation
    }
}

/// Among zero lengths none equals a length above 0.
pub proof fn lemma_zero_run_count(n: nat, len: nat)
    requires
        len > 0,
    ensures
        count_len(zero_run(n), len) == 0,
    decreases n,
{
    if n > 0 {
        assert(zero_run(n).drop_last() =~= zero_run((n - 1) as nat));
        lemma_zero_run_count((n - 1) as nat, len);
    }
}

/// Where no symbol has a code, the codes of every length start at 0.
pub proof fn lemma_zero_run_codes(n: nat, len: nat)
    ensures
        code_start(zero_run(n), len) == 0,
        len > 0 ==> count_len(zero_run(n), len) == 0,
    decreases 32 - len,
{
    if len < 32 {
        lemma_zero_run_codes(n, len + 1);
        lemma_zero_run_count(n, len + 1);
    }
    if len > 0 {
        lemma_zero_run_count(n, len);
    }
}

} // verus!
