//! Reading of the bits of an HEVC unit.
use crate::hevc::bits::{bit_at, bits_from, bits_number};
use vstd::arithmetic::power2::pow2;
use vstd::prelude::*;

verus! {

/// The payload of a unit without the bytes that prevent start codes in it: a 3 behind two
/// zeros is left out.
pub open spec fn unescaped(nal: Seq<u8>) -> Seq<u8>
    decreases nal.len(),
{
    if nal.len() == 0 {
        Seq::empty()
    } else if nal.len() > 2 && nal[0] == 0 && nal[1] == 0 && nal[2] == 3 {
        seq![0u8, 0u8] + unescaped(nal.skip(3))
    } else {
        seq![nal[0]] + unescaped(nal.skip(1))
    }
}

/// The number of bits from `p` on that are not set, counted up to `most`.
pub open spec fn zero_run(bytes: Seq<u8>, p: int, most: nat) -> nat
    decreases most,
{
    if most == 0 || bit_at(bytes, p) {
        0
    } else {
        1 + zero_run(bytes, p + 1, (most - 1) as nat)
    }
}

/// The number that `n` bits from `p` on stand for.
pub open spec fn number_at(bytes: Seq<u8>, p: int, n: nat) -> nat {
    bits_number(bits_from(bytes, p, n))
}

/// `n` bits from `p` on, of which the last 32 count.
pub open spec fn bits_at(bytes: Seq<u8>, p: int, n: nat) -> u32 {
    (number_at(bytes, p, n) % 0x1_0000_0000) as u32
}

/// The number whose Exp-Golomb code stands at `p`. After 32 zeros it is taken for zero.
pub open spec fn ue_at(bytes: Seq<u8>, p: int) -> u32 {
    let z = zero_run(bytes, p, 32);
    if z >= 32 {
        0
    } else {
        (pow2(z) - 1 + number_at(bytes, p + z + 1, z)) as u32
    }
}

/// Where the Exp-Golomb code at `p` ends.
pub open spec fn ue_end(bytes: Seq<u8>, p: int) -> int {
    let z = zero_run(bytes, p, 32);
    if z >= 32 {
        p + 32
    } else {
        p + 2 * z + 1
    }
}

/// The number whose signed Exp-Golomb code stands at `p`.
pub open spec fn se_at(bytes: Seq<u8>, p: int) -> i32 {
    let u = ue_at(bytes, p) as int;
    (if u % 2 == 1 {
        (u + 1) / 2
    } else {
        -((u + 1) / 2)
    }) as i32
}

proof fn lemma_zero_run(bytes: Seq<u8>, p: int, most: nat)
    ensures
        zero_run(bytes, p, most) <= most,
        forall|i: int| p <= i < p + zero_run(bytes, p, most) ==> !#[trigger] bit_at(bytes, i),
        zero_run(bytes, p, most) < most ==> bit_at(bytes, p + zero_run(bytes, p, most)),
    decreases most,
{
    if most > 0 && !bit_at(bytes, p) {
        lemma_zero_run(bytes, p + 1, (most - 1) as nat);
    }
}

/// A run of zeros that a set bit ends has the length up to that bit.
pub proof fn lemma_zero_run_is(bytes: Seq<u8>, p: int, z: nat, most: nat)
    requires
        z <= most,
        forall|i: int| p <= i < p + z ==> !#[trigger] bit_at(bytes, i),
        z < most ==> bit_at(bytes, p + z),
    ensures
        zero_run(bytes, p, most) == z,
    decreases z,
{
    if z > 0 {
        assert(!bit_at(bytes, p));
        lemma_zero_run_is(bytes, p + 1, (z - 1) as nat, (most - 1) as nat);
    }
}

/// A number of `n` bits is below two to the power of `n`.
pub proof fn lemma_number_bound(bits: Seq<bool>)
    ensures
        bits_number(bits) < pow2(bits.len()),
    decreases bits.len(),
{
    vstd::arithmetic::power2::lemma2_to64();
    if bits.len() > 0 {
        lemma_number_bound(bits.drop_last());
        vstd::arithmetic::power2::lemma_pow2_unfold(bits.len());
    }
}

/// An Exp-Golomb code takes between one and 63 bits.
pub proof fn lemma_ue_end(bytes: Seq<u8>, p: int)
    ensures
        p < ue_end(bytes, p) <= p + 63,
{
    lemma_zero_run(bytes, p, 32);
}

/// Reads the payload of a unit bit by bit.
#[derive(Debug)]
pub struct RbspReader {
    bit_pos: u64,
    cleaned: Vec<u8>,
}

/// What is read and where the next bit is.
#[verifier::ext_equal]
pub struct ReaderModel {
    pub bytes: Seq<u8>,
    pub pos: int,
}

impl ReaderModel {
    pub open spec fn at(self, pos: int) -> ReaderModel {
        ReaderModel { bytes: self.bytes, pos }
    }

    /// The beginning of a unit behind its header of two bytes.
    pub open spec fn of_unit(nalu: Seq<u8>) -> ReaderModel {
        ReaderModel { bytes: unescaped(nalu.skip(2)), pos: 0 }
    }

    /// Whether the next bit is set.
    pub open spec fn flag(self) -> bool {
        bit_at(self.bytes, self.pos)
    }

    /// The next `n` bits as a number.
    pub open spec fn bits(self, n: nat) -> u32 {
        bits_at(self.bytes, self.pos, n)
    }

    /// The number whose Exp-Golomb code is next.
    pub open spec fn ue(self) -> u32 {
        ue_at(self.bytes, self.pos)
    }

    /// The signed number whose Exp-Golomb code is next.
    pub open spec fn se(self) -> i32 {
        se_at(self.bytes, self.pos)
    }

    /// Behind `n` bits.
    pub open spec fn skip(self, n: int) -> ReaderModel {
        self.at(self.pos + n)
    }

    /// Behind the next Exp-Golomb code.
    pub open spec fn after_ue(self) -> ReaderModel {
        self.at(ue_end(self.bytes, self.pos))
    }

    /// Behind the next `n` Exp-Golomb codes.
    pub open spec fn after_ues(self, n: nat) -> ReaderModel
        decreases n,
    {
        if n == 0 {
            self
        } else {
            self.after_ues((n - 1) as nat).after_ue()
        }
    }
}

/// Exp-Golomb codes take at most 63 bits each.
pub proof fn lemma_after_ues(c: ReaderModel, n: nat)
    ensures
        c.pos <= c.after_ues(n).pos <= c.pos + 63 * n,
        c.after_ues(n).bytes == c.bytes,
    decreases n,
{
    if n > 0 {
        lemma_after_ues(c, (n - 1) as nat);
        let d = c.after_ues((n - 1) as nat);
        lemma_ue_end(d.bytes, d.pos);
    }
}

/// Code by code is the same as all codes.
pub proof fn lemma_after_few(c: ReaderModel)
    ensures
        c.after_ues(0) == c,
        c.after_ues(1) == c.after_ue(),
        c.after_ues(2) == c.after_ue().after_ue(),
        c.after_ues(3) == c.after_ue().after_ue().after_ue(),
        c.after_ues(4) == c.after_ue().after_ue().after_ue().after_ue(),
        c.after_ues(5) == c.after_ue().after_ue().after_ue().after_ue().after_ue(),
        c.after_ues(6) == c.after_ue().after_ue().after_ue().after_ue().after_ue().after_ue(),
{
    reveal_with_fuel(ReaderModel::after_ues, 7);
}

impl View for RbspReader {
    type V = ReaderModel;

    closed spec fn view(&self) -> ReaderModel {
        ReaderModel { bytes: self.cleaned@, pos: self.bit_pos as int }
    }
}

impl RbspReader {
    /// A reader at the beginning of `nal_data`, a unit without its header.
    pub fn new(nal_data: &[u8]) -> (r: RbspReader)
        ensures
            r@.bytes == unescaped(nal_data@),
            r@.pos == 0,
    {
        let mut cleaned: Vec<u8> = Vec::new();
        let mut i: usize = 0;
        assert(nal_data@.skip(0) =~= nal_data@);
        assert(cleaned@ + unescaped(nal_data@) =~= unescaped(nal_data@));
        while i < nal_data.len()
            invariant
                i <= nal_data@.len(),
                cleaned@ + unescaped(nal_data@.skip(i as int)) == unescaped(nal_data@),
            decreases nal_data@.len() - i,
        {
            let ghost rest = nal_data@.skip(i as int);
            let ghost before = cleaned@;
            if nal_data.len() - i > 2 && nal_data[i] == 0x00 && nal_data[i + 1] == 0x00
                && nal_data[i + 2] == 0x03 {
                cleaned.push(0x00);
                cleaned.push(0x00);
                i = i + 3;
                proof {
                    assert(rest.skip(3) =~= nal_data@.skip(i as int));
                    let tail = unescaped(nal_data@.skip(i as int));
                    assert(cleaned@ + tail =~= before + (seq![0u8, 0u8] + tail));
                }
            } else {
                cleaned.push(nal_data[i]);
                i = i + 1;
                proof {
                    assert(rest.skip(1) =~= nal_data@.skip(i as int));
                    let tail = unescaped(nal_data@.skip(i as int));
                    assert(cleaned@ + tail =~= before + (seq![rest[0]] + tail));
                }
            }
        }
        assert(nal_data@.skip(i as int) =~= Seq::<u8>::empty());
        assert(cleaned@ + Seq::<u8>::empty() =~= cleaned@);
        RbspReader { bit_pos: 0, cleaned }
    }

    /// Reads one bit; behind the end there are zeros.
    pub fn read_bit(&mut self) -> (r: u32)
        requires
            old(self)@.pos < u64::MAX,
        ensures
            final(self)@ == old(self)@.at(old(self)@.pos + 1),
            r == (if bit_at(old(self)@.bytes, old(self)@.pos) {
                1u32
            } else {
                0u32
            }),
    {
        let byte: u64 = self.bit_pos / 8;
        let bit: u8 = (7 - (self.bit_pos % 8)) as u8;
        self.bit_pos = self.bit_pos + 1;
        if byte < self.cleaned.len() as u64 {
            let b: u8 = self.cleaned[byte as usize];
            assert((b >> bit) & 1 == 0 || (b >> bit) & 1 == 1) by (bit_vector);
            ((b >> bit) & 1) as u32
        } else {
            0
        }
    }

    /// Whether the next bit is set.
    pub fn read_flag(&mut self) -> (r: bool)
        requires
            old(self)@.pos < u64::MAX,
        ensures
            final(self)@ == old(self)@.at(old(self)@.pos + 1),
            r == bit_at(old(self)@.bytes, old(self)@.pos),
    {
        self.read_bit() == 1
    }

    /// Reads `n` bits as a number. Of more than 32 bits the last 32 count.
    pub fn read_bits(&mut self, n: usize) -> (r: u32)
        requires
            old(self)@.pos + n <= u64::MAX,
        ensures
            final(self)@ == old(self)@.at(old(self)@.pos + n),
            r == bits_at(old(self)@.bytes, old(self)@.pos, n as nat),
    {
        let ghost start = self@;
        let mut val: u32 = 0;
        let mut i: usize = 0;
        while i < n
            invariant
                i <= n,
                start.pos + n <= u64::MAX,
                self@ == start.at(start.pos + i),
                val == bits_at(start.bytes, start.pos, i as nat),
            decreases n - i,
        {
            let bit: u32 = self.read_bit();
            proof {
                let more = bits_from(start.bytes, start.pos, (i + 1) as nat);
                assert(more.drop_last() =~= bits_from(start.bytes, start.pos, i as nat));
                let m = number_at(start.bytes, start.pos, i as nat);
                assert(number_at(start.bytes, start.pos, (i + 1) as nat) == 2 * m + bit);
                assert(((val << 1) | bit) as u64 == (val as u64 * 2 + bit as u64)
                    % 0x1_0000_0000) by (bit_vector)
                    requires
                        bit <= 1,
                ;
                assert((2 * (m % 0x1_0000_0000) + bit) % 0x1_0000_0000 == (2 * m + bit)
                    % 0x1_0000_0000);
            }
            val = (val << 1) | bit;
            i = i + 1;
        }
        val
    }

    /// Reads an Exp-Golomb code.
    pub fn read_ue(&mut self) -> (r: u32)
        requires
            old(self)@.pos + 63 <= u64::MAX,
        ensures
            final(self)@ == old(self)@.at(ue_end(old(self)@.bytes, old(self)@.pos)),
            r == ue_at(old(self)@.bytes, old(self)@.pos),
            r < u32::MAX,
    {
        let ghost start = self@;
        let ghost b = start.bytes;
        let ghost p = start.pos;
        let mut leading: usize = 0;
        let mut bit: u32 = self.read_bit();
        while bit == 0
            invariant
                leading < 32,
                start == old(self)@,
                b == start.bytes,
                p == start.pos,
                p + 63 <= u64::MAX,
                self@ == start.at(p + leading + 1),
                forall|i: int| p <= i < p + leading ==> !#[trigger] bit_at(b, i),
                (bit == 1) == bit_at(b, p + leading),
                bit <= 1,
            decreases 32 - leading,
        {
            leading = leading + 1;
            if leading > 31 {
                proof {
                    lemma_zero_run_is(b, p, 32, 32);
                }
                return 0;
            }
            bit = self.read_bit();
        }
        proof {
            lemma_zero_run_is(b, p, leading as nat, 32);
            lemma_number_bound(bits_from(b, p + leading + 1, leading as nat));
            vstd::arithmetic::power2::lemma2_to64();
            if leading < 32 {
                vstd::arithmetic::power2::lemma_pow2_strictly_increases(leading as nat, 32);
                vstd::bits::lemma_u32_shl_is_mul(1, leading as u32);
                if leading < 31 {
                    vstd::arithmetic::power2::lemma_pow2_strictly_increases(leading as nat, 31);
                }
            }
        }
        if leading == 0 {
            proof {
                assert(bits_from(b, p + 1, 0) =~= Seq::<bool>::empty());
            }
            return 0;
        }
        let suffix: u32 = self.read_bits(leading);
        ((1u32 << (leading as u32)) - 1) + suffix
    }

    /// Reads `n` Exp-Golomb codes without looking at them.
    pub fn skip_ues(&mut self, n: u32)
        requires
            old(self)@.pos + 63 * n <= u64::MAX,
        ensures
            final(self)@ == old(self)@.after_ues(n as nat),
            final(self)@.pos <= old(self)@.pos + 63 * n,
    {
        let ghost start = self@;
        let mut i: u32 = 0;
        while i < n
            invariant
                i <= n,
                start.pos + 63 * n <= u64::MAX,
                self@ == start.after_ues(i as nat),
            decreases n - i,
        {
            proof {
                lemma_after_ues(start, i as nat);
            }
            let _skipped: u32 = self.read_ue();
            i = i + 1;
        }
        proof {
            lemma_after_ues(start, n as nat);
        }
    }

    /// Reads a signed Exp-Golomb code.
    pub fn read_se(&mut self) -> (r: i32)
        requires
            old(self)@.pos + 63 <= u64::MAX,
        ensures
            final(self)@ == old(self)@.at(ue_end(old(self)@.bytes, old(self)@.pos)),
            r == se_at(old(self)@.bytes, old(self)@.pos),
    {
        let ue: u32 = self.read_ue();
        let abs: i32 = ((ue + 1) / 2) as i32;
        if ue % 2 == 1 {
            abs
        } else {
            -abs
        }
    }

    /// The position of the next bit.
    pub fn current_bit_pos(&self) -> (r: usize)
        requires
            self@.pos <= usize::MAX,
        ensures
            r == self@.pos,
    {
        self.bit_pos as usize
    }
}

} // verus!
