//! Sequences of bits, written and read from the most significant bit of each byte on.
use vstd::prelude::*;

verus! {

/// Bit `i` of a byte, counted from the most significant one.
pub open spec fn byte_bit(b: u8, i: int) -> bool {
    (b >> ((7 - i) as u8)) & 1 == 1
}

/// Bit `i` of `bytes`; none is set behind the end.
pub open spec fn bit_at(bytes: Seq<u8>, i: int) -> bool {
    0 <= i < 8 * bytes.len() && byte_bit(bytes[i / 8], i % 8)
}

/// `n` bits of `bytes` from `from` on.
pub open spec fn bits_from(bytes: Seq<u8>, from: int, n: nat) -> Seq<bool> {
    Seq::new(n, |i: int| bit_at(bytes, from + i))
}

/// The bytes are as many as it takes for the bits, and hold them followed by zeros.
pub open spec fn packs(bytes: Seq<u8>, bits: Seq<bool>) -> bool {
    &&& bytes.len() == (bits.len() + 7) / 8
    &&& forall|i: int| 0 <= i < bits.len() ==> #[trigger] bit_at(bytes, i) == bits[i]
    &&& forall|i: int| bits.len() <= i < 8 * bytes.len() ==> !#[trigger] bit_at(bytes, i)
}

/// The lowest `len` bits of a number, the most significant one first.
pub open spec fn number_bits(value: nat, len: nat) -> Seq<bool>
    decreases len,
{
    if len == 0 {
        Seq::empty()
    } else {
        number_bits(value / 2, (len - 1) as nat).push(value % 2 == 1)
    }
}

/// The number that bits stand for.
pub open spec fn bits_number(bits: Seq<bool>) -> nat
    decreases bits.len(),
{
    if bits.len() == 0 {
        0
    } else {
        2 * bits_number(bits.drop_last()) + if bits.last() {
            1nat
        } else {
            0nat
        }
    }
}

/// How many bits it takes to write a number.
pub open spec fn bit_length(value: nat) -> nat
    decreases value,
{
    if value == 0 {
        0
    } else {
        bit_length(value / 2) + 1
    }
}

/// `n` bits that are not set.
pub open spec fn zeros(n: nat) -> Seq<bool> {
    Seq::new(n, |i: int| false)
}

/// The Exp-Golomb code of a number: the successor in binary, behind as many zeros as it
/// has digits but one.
pub open spec fn ue_bits(value: nat) -> Seq<bool> {
    let n = bit_length(value + 1);
    zeros((n - 1) as nat) + number_bits(value + 1, n)
}

/// The number whose Exp-Golomb code stands for a signed number.
pub open spec fn se_number(value: int) -> nat {
    if value > 0 {
        (2 * value - 1) as nat
    } else {
        (-2 * value) as nat
    }
}

/// The signed Exp-Golomb code of a number.
pub open spec fn se_bits(value: int) -> Seq<bool> {
    ue_bits(se_number(value))
}

/// Packed bytes are determined by the bits.
pub proof fn law_packing_is_unique(a: Seq<u8>, b: Seq<u8>, bits: Seq<bool>)
    requires
        packs(a, bits),
        packs(b, bits),
    ensures
        a == b,
{
    assert forall|k: int| 0 <= k < a.len() implies a[k] == b[k] by {
        let (x, y) = (a[k], b[k]);
        assert forall|j: int| 0 <= j < 8 implies #[trigger] byte_bit(x, j) == byte_bit(y, j) by {
            assert(bit_at(a, 8 * k + j) == byte_bit(x, j));
            assert(bit_at(b, 8 * k + j) == byte_bit(y, j));
        }
        assert(byte_bit(x, 0) == byte_bit(y, 0) && byte_bit(x, 1) == byte_bit(y, 1) && byte_bit(
            x,
            2,
        ) == byte_bit(y, 2) && byte_bit(x, 3) == byte_bit(y, 3) && byte_bit(x, 4) == byte_bit(
            y,
            4,
        ) && byte_bit(x, 5) == byte_bit(y, 5) && byte_bit(x, 6) == byte_bit(y, 6) && byte_bit(
            x,
            7,
        ) == byte_bit(y, 7));
        assert(x == y) by (bit_vector)
            requires
                ((x >> 7u8) & 1 == 1) == ((y >> 7u8) & 1 == 1),
                ((x >> 6u8) & 1 == 1) == ((y >> 6u8) & 1 == 1),
                ((x >> 5u8) & 1 == 1) == ((y >> 5u8) & 1 == 1),
                ((x >> 4u8) & 1 == 1) == ((y >> 4u8) & 1 == 1),
                ((x >> 3u8) & 1 == 1) == ((y >> 3u8) & 1 == 1),
                ((x >> 2u8) & 1 == 1) == ((y >> 2u8) & 1 == 1),
                ((x >> 1u8) & 1 == 1) == ((y >> 1u8) & 1 == 1),
                ((x >> 0u8) & 1 == 1) == ((y >> 0u8) & 1 == 1),
        ;
    }
    assert(a =~= b);
}

/// A bit that is put into a byte leaves the others alone.
proof fn lemma_byte_put(b: u8, at: int, i: int, bit: bool)
    requires
        0 <= at < 8,
        0 <= i < 8,
    ensures
        ({
            let s = (7 - at) as u8;
            let v = if bit {
                1u8
            } else {
                0u8
            };
            byte_bit((b & !(1u8 << s)) | (v << s), i) == if i == at {
                bit
            } else {
                byte_bit(b, i)
            }
        }),
{
    let s = (7 - at) as u8;
    let t = (7 - i) as u8;
    let v = if bit {
        1u8
    } else {
        0u8
    };
    assert(((((b & !(1u8 << s)) | (v << s)) >> t) & 1 == 1) == (if t == s {
        v == 1
    } else {
        (b >> t) & 1 == 1
    })) by (bit_vector)
        requires
            s < 8,
            t < 8,
            v <= 1,
    ;
}

proof fn lemma_byte_set(b: u8, at: int, i: int)
    requires
        0 <= at < 8,
        0 <= i < 8,
    ensures
        byte_bit(b | (1u8 << ((7 - at) as u8)), i) == (byte_bit(b, i) || i == at),
{
    let s = (7 - at) as u8;
    let t = (7 - i) as u8;
    assert((((b | (1u8 << s)) >> t) & 1 == 1) == ((b >> t) & 1 == 1 || t == s)) by (bit_vector)
        requires
            s < 8,
            t < 8,
    ;
}

proof fn lemma_zero_byte(i: int)
    requires
        0 <= i < 8,
    ensures
        !byte_bit(0, i),
{
    let t = (7 - i) as u8;
    assert((0u8 >> t) & 1 == 0) by (bit_vector);
}

/// Numbers are read back from their bits.
pub proof fn law_number_from_bits(value: nat, len: nat)
    requires
        bit_length(value) <= len,
    ensures
        bits_number(number_bits(value, len)) == value,
        number_bits(value, len).len() == len,
    decreases len,
{
    if len > 0 {
        assert(bit_length(value / 2) <= len - 1) by {
            if value == 0 {
                assert(value / 2 == 0);
            }
        }
        law_number_from_bits(value / 2, (len - 1) as nat);
        let bits = number_bits(value, len);
        assert(bits.drop_last() =~= number_bits(value / 2, (len - 1) as nat));
    }
}

/// Bit `j` of the lowest `len` bits of a number.
proof fn lemma_number_bit(value: nat, len: nat, j: int)
    requires
        0 <= j < len,
    ensures
        number_bits(value, len).len() == len,
        number_bits(value, len)[j] == ((value / vstd::arithmetic::power2::pow2(
            (len - 1 - j) as nat,
        )) % 2 == 1),
    decreases len,
{
    lemma_number_len(value, len);
    if j < len - 1 {
        lemma_number_bit(value / 2, (len - 1) as nat, j);
        lemma_number_len(value / 2, (len - 1) as nat);
        let e = (len - 2 - j) as nat;
        vstd::arithmetic::power2::lemma_pow2_unfold((e + 1) as nat);
        vstd::arithmetic::power2::lemma_pow2_pos(e);
        vstd::arithmetic::div_mod::lemma_div_denominator(
            value as int,
            2,
            vstd::arithmetic::power2::pow2(e) as int,
        );
    } else {
        vstd::arithmetic::power2::lemma2_to64();
        assert(value / 1 == value);
    }
}

pub proof fn lemma_number_len(value: nat, len: nat)
    ensures
        number_bits(value, len).len() == len,
    decreases len,
{
    if len > 0 {
        lemma_number_len(value / 2, (len - 1) as nat);
    }
}

/// Writes bits.
#[derive(Debug)]
pub struct BitWriter {
    bytes: Vec<u8>,
    bit_len: usize,
}

impl View for BitWriter {
    type V = Seq<bool>;

    /// The bits that were written.
    closed spec fn view(&self) -> Seq<bool> {
        bits_from(self.bytes@, 0, self.bit_len as nat)
    }
}

impl BitWriter {
    #[verifier::type_invariant]
    spec fn inv(self) -> bool {
        packs(self.bytes@, bits_from(self.bytes@, 0, self.bit_len as nat))
    }

    pub fn new() -> (r: BitWriter)
        ensures
            r@ == Seq::<bool>::empty(),
    {
        let r = BitWriter { bytes: Vec::new(), bit_len: 0 };
        assert(r@ =~= Seq::<bool>::empty());
        r
    }

    /// Appends one bit.
    pub fn write_bit(&mut self, bit: bool)
        requires
            old(self)@.len() < usize::MAX,
        ensures
            final(self)@ == old(self)@.push(bit),
    {
        proof {
            use_type_invariant(&*self);
        }
        let ghost old_bits = self@;
        let mut w = BitWriter::new();
        std::mem::swap(self, &mut w);
        proof {
            use_type_invariant(&w);
        }
        let mut bytes: Vec<u8> = w.bytes;
        let n: usize = w.bit_len;
        let ghost before = bytes@;
        let byte_idx: usize = n / 8;
        let shift: u8 = (7 - (n % 8)) as u8;
        if byte_idx == bytes.len() {
            bytes.push(0);
        }
        let ghost grown = bytes@;
        proof {
            assert forall|i: int| 0 <= i < 8 * grown.len() implies #[trigger] bit_at(grown, i) == (
            i < n && old_bits[i]) by {
                if i < 8 * before.len() {
                    assert(grown[i / 8] == before[i / 8]);
                    assert(bit_at(grown, i) == bit_at(before, i));
                    if i < n {
                        assert(bit_at(before, i) == old_bits[i]);
                    }
                } else {
                    lemma_zero_byte(i % 8);
                }
            }
        }
        if bit {
            let b: u8 = bytes[byte_idx] | (1u8 << shift);
            bytes[byte_idx] = b;
        }
        proof {
            let bits = old_bits.push(bit);
            assert forall|i: int| 0 <= i < 8 * bytes@.len() implies #[trigger] bit_at(bytes@, i) == (
            i < bits.len() && bits[i]) by {
                assert(bit_at(grown, i) == (i < n && old_bits[i]));
                if i / 8 == byte_idx {
                    if bit {
                        lemma_byte_set(grown[byte_idx as int], n as int % 8, i % 8);
                    }
                    assert(i == n <==> i % 8 == n as int % 8);
                } else {
                    assert(bytes@[i / 8] == grown[i / 8]);
                }
            }
            assert(bits_from(bytes@, 0, (n + 1) as nat) =~= bits);
        }
        *self = BitWriter { bytes, bit_len: n + 1 };
    }

    /// Appends the lowest `len` bits of `value`, the most significant one first.
    pub fn write_bits(&mut self, value: u64, len: usize)
        requires
            len <= 64,
            old(self)@.len() + len <= usize::MAX,
        ensures
            final(self)@ == old(self)@ + number_bits(value as nat, len as nat),
    {
        let ghost before = self@;
        let ghost bits = number_bits(value as nat, len as nat);
        let mut i: usize = len;
        proof {
            lemma_number_len(value as nat, len as nat);
            assert(bits.take(0) =~= Seq::<bool>::empty());
            assert(before + Seq::<bool>::empty() =~= before);
        }
        while i > 0
            invariant
                i <= len <= 64,
                bits == number_bits(value as nat, len as nat),
                bits.len() == len,
                before.len() + len <= usize::MAX,
                self@ == before + bits.take(len - i),
            decreases i,
        {
            i = i - 1;
            let bit: u64 = (value >> (i as u64)) & 1;
            proof {
                lemma_number_bit(value as nat, len as nat, len - 1 - i);
                lemma_shifted_bit(value, i as u64);
                assert(bits.take(len - i) =~= bits.take(len - i - 1).push(bits[len - 1 - i]));
            }
            self.write_bit(bit != 0);
            assert(self@ =~= before + bits.take(len - i));
        }
        assert(bits.take(len as int) =~= bits);
    }

    /// Appends the Exp-Golomb code of a number.
    pub fn write_ue(&mut self, value: u32)
        requires
            value < u32::MAX,
            old(self)@.len() + 64 <= usize::MAX,
        ensures
            final(self)@ == old(self)@ + ue_bits(value as nat),
    {
        let ghost before = self@;
        let code_num: u32 = value + 1;
        let num_bits: usize = Self::length(code_num);
        let leading_zeros: usize = num_bits - 1;
        let mut i: usize = 0;
        assert(before + zeros(0) =~= before);
        while i < leading_zeros
            invariant
                i <= leading_zeros <= 31,
                before.len() + 64 <= usize::MAX,
                self@ == before + zeros(i as nat),
            decreases leading_zeros - i,
        {
            self.write_bit(false);
            i = i + 1;
            assert(self@ =~= before + zeros(i as nat));
        }
        let ghost mid = self@;
        self.write_bits(code_num as u64, num_bits);
        assert(self@ =~= before + ue_bits(value as nat));
    }

    /// How many bits it takes to write a number.
    fn length(value: u32) -> (r: usize)
        ensures
            r == bit_length(value as nat),
            r <= 32,
            value > 0 ==> r >= 1,
    {
        let mut v: u32 = value;
        let mut n: usize = 0;
        proof {
            vstd::arithmetic::power2::lemma2_to64();
        }
        while v > 0
            invariant
                n + bit_length(v as nat) == bit_length(value as nat),
                n <= 32,
                v > 0 ==> n < 32,
                (v as nat) * vstd::arithmetic::power2::pow2(n as nat) <= u32::MAX,
            decreases v,
        {
            proof {
                let p = vstd::arithmetic::power2::pow2(n as nat);
                vstd::arithmetic::power2::lemma_pow2_unfold((n + 1) as nat);
                let h = (v / 2) as nat;
                assert(h * (2 * p) <= v as nat * p) by (nonlinear_arith)
                    requires
                        2 * h <= v,
                ;
                vstd::arithmetic::power2::lemma2_to64();
                if n == 31 && v / 2 > 0 {
                    assert(v as nat * p >= 2 * p) by (nonlinear_arith)
                        requires
                            v >= 2,
                    ;
                }
            }
            v = v / 2;
            n = n + 1;
        }
        n
    }

    /// Appends the signed Exp-Golomb code of a number.
    pub fn write_se(&mut self, value: i32)
        requires
            value > i32::MIN,
            old(self)@.len() + 64 <= usize::MAX,
        ensures
            final(self)@ == old(self)@ + se_bits(value as int),
    {
        let ue_val: u32 = if value > 0 {
            (value as u32) * 2 - 1
        } else {
            ((-value) as u32) * 2
        };
        self.write_ue(ue_val);
    }

    /// The number of bits that were written.
    pub fn bit_len(&self) -> (r: usize)
        ensures
            r == self@.len(),
    {
        self.bit_len
    }

    /// The bytes that hold the bits, the last one filled up with zeros.
    pub fn into_bytes(self) -> (r: Vec<u8>)
        ensures
            packs(r@, self@),
    {
        proof {
            use_type_invariant(&self);
        }
        self.bytes
    }
}

impl Default for BitWriter {
    fn default() -> (r: BitWriter)
        ensures
            r@ == Seq::<bool>::empty(),
    {
        BitWriter::new()
    }
}

proof fn lemma_shifted_bit(value: u64, i: u64)
    requires
        i < 64,
    ensures
        ((value >> i) & 1 != 0) == ((value as nat / vstd::arithmetic::power2::pow2(i as nat)) % 2
            == 1),
{
    vstd::bits::lemma_u64_shr_is_div(value, i);
    let v = value >> i;
    assert((v & 1 != 0) == (v % 2 == 1)) by (bit_vector);
}

/// Writing the lowest bits of one number and then those of another is writing those of both,
/// put together.
pub proof fn law_two_writes_are_one(a: u64, m: nat, b: u64, n: u64)
    requires
        m + n <= 64,
        n < 64,
        b < vstd::arithmetic::power2::pow2(n as nat),
    ensures
        number_bits(a as nat, m) + number_bits(b as nat, n as nat) == number_bits(
            ((a << n) | b) as nat,
            m + n as nat,
        ),
{
    let both: u64 = (a << n) | b;
    let len = m + n as nat;
    lemma_number_len(a as nat, m);
    lemma_number_len(b as nat, n as nat);
    lemma_number_len(both as nat, len);
    vstd::bits::lemma_u64_shr_is_div(b, n);
    vstd::arithmetic::div_mod::lemma_basic_div(
        b as int,
        vstd::arithmetic::power2::pow2(n as nat) as int,
    );
    let parts = number_bits(a as nat, m) + number_bits(b as nat, n as nat);
    let whole = number_bits(both as nat, len);
    assert forall|j: int| 0 <= j < len implies parts[j] == whole[j] by {
        let i = (len - 1 - j) as u64;
        lemma_number_bit(both as nat, len, j);
        lemma_shifted_bit(both, i);
        if j < m {
            let t = (m - 1 - j) as u64;
            lemma_number_bit(a as nat, m, j);
            lemma_shifted_bit(a, t);
            assert((((a << n) | b) >> i) & 1 == (a >> t) & 1) by (bit_vector)
                requires
                    b >> n == 0,
                    i == n + t,
                    i < 64,
            ;
        } else {
            lemma_number_bit(b as nat, n as nat, j - m);
            lemma_shifted_bit(b, i);
            assert((((a << n) | b) >> i) & 1 == (b >> i) & 1) by (bit_vector)
                requires
                    i < n,
                    n < 64,
            ;
        }
    }
    assert(parts =~= whole);
}

/// Bit `bit_idx` of `data`, zero behind the end.
pub fn get_bit(data: &[u8], bit_idx: usize) -> (r: u8)
    ensures
        r == (if bit_at(data@, bit_idx as int) {
            1u8
        } else {
            0u8
        }),
{
    let byte: usize = bit_idx / 8;
    if byte >= data.len() {
        return 0;
    }
    let shift: u8 = (7 - (bit_idx % 8)) as u8;
    let b: u8 = data[byte];
    let r: u8 = (b >> shift) & 1;
    assert((b >> shift) & 1 == 0 || (b >> shift) & 1 == 1) by (bit_vector);
    r
}

/// What stands for a set bit.
pub open spec fn set_bits(bits: Seq<u8>) -> Seq<bool> {
    Seq::new(bits.len(), |i: int| bits[i] != 0)
}

/// Packs bits that are given as numbers, zero or not.
pub fn bits_to_bytes(bits: &[u8]) -> (r: Vec<u8>)
    requires
        bits@.len() + 7 <= usize::MAX,
    ensures
        packs(r@, set_bits(bits@)),
{
    let mut out: Vec<u8> = Vec::new();
    let n: usize = (bits.len() + 7) / 8;
    while out.len() < n
        invariant
            out@.len() <= n,
            forall|k: int| 0 <= k < out@.len() ==> #[trigger] out@[k] == 0,
        decreases n - out@.len(),
    {
        out.push(0);
    }
    assert forall|i: int| 0 <= i < 8 * out@.len() implies !#[trigger] bit_at(out@, i) by {
        lemma_zero_byte(i % 8);
    }
    let mut i: usize = 0;
    while i < bits.len()
        invariant
            i <= bits@.len(),
            bits@.len() + 7 <= usize::MAX,
            out@.len() == n,
            n == (bits@.len() + 7) / 8,
            forall|j: int| 0 <= j < i ==> #[trigger] bit_at(out@, j) == (bits@[j] != 0),
            forall|j: int| i <= j < 8 * out@.len() ==> !#[trigger] bit_at(out@, j),
        decreases bits@.len() - i,
    {
        if bits[i] != 0 {
            let byte: usize = i / 8;
            let shift: u8 = (7 - (i % 8)) as u8;
            let ghost before = out@;
            let b: u8 = out[byte] | (1u8 << shift);
            out[byte] = b;
            proof {
                assert forall|j: int| 0 <= j < 8 * out@.len() implies #[trigger] bit_at(out@, j)
                    == (bit_at(before, j) || j == i) by {
                    if j / 8 == byte {
                        lemma_byte_set(before[byte as int], i as int % 8, j % 8);
                        assert(j == i <==> j % 8 == i as int % 8);
                    } else {
                        assert(out@[j / 8] == before[j / 8]);
                    }
                }
            }
        }
        i = i + 1;
    }
    out
}

/// The first `n` of `bits`, with zeros behind their end.
pub open spec fn padded(bits: Seq<bool>, n: nat) -> Seq<bool> {
    Seq::new(n, |i: int| i < bits.len() && bits[i])
}

/// `bits` with those from `start` on, `remove` in number, replaced by others.
pub open spec fn replaced(bits: Seq<bool>, start: int, remove: int, insert: Seq<bool>) -> Seq<
    bool,
> {
    padded(bits, start as nat) + insert + if start + remove < bits.len() {
        bits.skip(start + remove)
    } else {
        Seq::empty()
    }
}

/// The bits of `data` with those from `start` on, `remove` in number, replaced by others.
pub open spec fn spliced(data: Seq<u8>, start: int, remove: int, insert: Seq<bool>) -> Seq<bool> {
    let total = 8 * data.len() as int;
    let end = start + remove;
    bits_from(data, 0, start as nat) + insert + bits_from(
        data,
        end,
        (if end < total {
            total - end
        } else {
            0
        }) as nat,
    )
}

/// Replaces `remove_bits` bits of `data` from `start_bit` on by the first `insert_bit_len`
/// bits of `insert_bits`.
pub fn splice_bits(
    data: &[u8],
    start_bit: usize,
    remove_bits: usize,
    insert_bits: &[u8],
    insert_bit_len: usize,
) -> (r: Vec<u8>)
    requires
        start_bit + insert_bit_len + 8 * data@.len() + 7 <= usize::MAX,
    ensures
        packs(
            r@,
            spliced(
                data@,
                start_bit as int,
                remove_bits as int,
                bits_from(insert_bits@, 0, insert_bit_len as nat),
            ),
        ),
{
    let ghost front = bits_from(data@, 0, start_bit as nat);
    let ghost middle = bits_from(insert_bits@, 0, insert_bit_len as nat);
    let total_bits: usize = data.len() * 8;
    let end_remove: usize = start_bit.saturating_add(remove_bits);
    let mut out_bits: Vec<u8> = Vec::new();
    let mut i: usize = 0;
    while i < start_bit
        invariant
            i <= start_bit,
            set_bits(out_bits@) == bits_from(data@, 0, i as nat),
            out_bits@.len() == i,
        decreases start_bit - i,
    {
        let ghost o = out_bits@;
        out_bits.push(get_bit(data, i));
        assert(set_bits(out_bits@) =~= set_bits(o).push(bit_at(data@, i as int)));
        i = i + 1;
        assert(set_bits(out_bits@) =~= bits_from(data@, 0, i as nat));
    }
    let mut j: usize = 0;
    assert(set_bits(out_bits@) =~= front + bits_from(insert_bits@, 0, 0));
    while j < insert_bit_len
        invariant
            j <= insert_bit_len,
            front == bits_from(data@, 0, start_bit as nat),
            set_bits(out_bits@) == front + bits_from(insert_bits@, 0, j as nat),
            out_bits@.len() == start_bit + j,
        decreases insert_bit_len - j,
    {
        let ghost o = out_bits@;
        out_bits.push(get_bit(insert_bits, j));
        assert(set_bits(out_bits@) =~= set_bits(o).push(bit_at(insert_bits@, j as int)));
        j = j + 1;
        assert(set_bits(out_bits@) =~= front + bits_from(insert_bits@, 0, j as nat));
    }
    let mut k: usize = end_remove;
    let ghost done = start_bit + insert_bit_len;
    assert(set_bits(out_bits@) =~= front + middle + bits_from(data@, end_remove as int, 0));
    while k < total_bits
        invariant
            end_remove <= k,
            k <= total_bits || k == end_remove,
            total_bits == 8 * data@.len(),
            done == start_bit + insert_bit_len,
            done + 8 * data@.len() + 7 <= usize::MAX,
            front == bits_from(data@, 0, start_bit as nat),
            middle == bits_from(insert_bits@, 0, insert_bit_len as nat),
            set_bits(out_bits@) == front + middle + bits_from(
                data@,
                end_remove as int,
                (k - end_remove) as nat,
            ),
            out_bits@.len() == done + (k - end_remove),
        decreases total_bits - k,
    {
        let ghost o = out_bits@;
        out_bits.push(get_bit(data, k));
        assert(set_bits(out_bits@) =~= set_bits(o).push(bit_at(data@, k as int)));
        k = k + 1;
        assert(set_bits(out_bits@) =~= front + middle + bits_from(
            data@,
            end_remove as int,
            (k - end_remove) as nat,
        ));
    }
    let ghost all = spliced(data@, start_bit as int, remove_bits as int, middle);
    assert(set_bits(out_bits@) =~= all);
    bits_to_bytes(out_bits.as_slice())
}

/// The bits of `buf` with the lowest `len` bits of `val` put over those from `at` on, as
/// far as they lie inside.
pub open spec fn patched(buf: Seq<u8>, at: int, len: nat, val: nat, i: int) -> bool {
    if at <= i < at + len {
        number_bits(val, len)[i - at]
    } else {
        bit_at(buf, i)
    }
}

/// Puts the lowest `len` bits of `val` over the bits of `buf` from `bit_offset` on.
pub fn write_bits(buf: &mut Vec<u8>, bit_offset: usize, len: usize, val: u32)
    requires
        len <= 32,
        bit_offset + len <= usize::MAX,
    ensures
        final(buf)@.len() == old(buf)@.len(),
        forall|i: int|
            0 <= i < 8 * old(buf)@.len() ==> #[trigger] bit_at(final(buf)@, i) == patched(
                old(buf)@,
                bit_offset as int,
                len as nat,
                val as nat,
                i,
            ),
{
    let ghost before = buf@;
    let ghost bits = number_bits(val as nat, len as nat);
    let mut i: usize = 0;
    proof {
        lemma_number_len(val as nat, len as nat);
    }
    while i < len
        invariant
            i <= len <= 32,
            bit_offset + len <= usize::MAX,
            bits == number_bits(val as nat, len as nat),
            bits.len() == len,
            buf@.len() == before.len(),
            forall|j: int|
                0 <= j < 8 * before.len() ==> #[trigger] bit_at(buf@, j) == if bit_offset <= j
                    < bit_offset + i {
                    bits[j - bit_offset]
                } else {
                    bit_at(before, j)
                },
        ensures
            forall|j: int|
                0 <= j < 8 * before.len() ==> #[trigger] bit_at(buf@, j) == if bit_offset <= j
                    < bit_offset + len {
                    bits[j - bit_offset]
                } else {
                    bit_at(before, j)
                },
        decreases len - i,
    {
        let s: u32 = (len - 1 - i) as u32;
        let bit: u32 = (val >> s) & 1;
        proof {
            lemma_number_bit(val as nat, len as nat, i as int);
            vstd::bits::lemma_u32_shr_is_div(val, s);
            let v = val >> s;
            assert(v & 1 == v % 2) by (bit_vector);
            assert((bit == 1) == bits[i as int]);
            assert(bit <= 1);
        }
        let pos: usize = bit_offset + i;
        let byte: usize = pos / 8;
        if byte >= buf.len() {
            break;
        }
        let shift: u8 = (7 - (pos % 8)) as u8;
        let ghost now = buf@;
        let b: u8 = (buf[byte] & !(1u8 << shift)) | ((bit as u8) << shift);
        buf[byte] = b;
        proof {
            assert forall|j: int| 0 <= j < 8 * before.len() implies #[trigger] bit_at(buf@, j) == (
            if j == pos {
                bits[i as int]
            } else {
                bit_at(now, j)
            }) by {
                if j / 8 == byte {
                    lemma_byte_put(now[byte as int], pos as int % 8, j % 8, bits[i as int]);
                    assert(j == pos <==> j % 8 == pos as int % 8);
                } else {
                    assert(buf@[j / 8] == now[j / 8]);
                }
            }
        }
        i = i + 1;
    }
}

} // verus!
