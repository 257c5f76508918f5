//! What is written is read back.
use crate::hevc::bits::{
    bit_at, bit_length, bits_from, bits_number, law_number_from_bits, lemma_number_len, number_bits,
    packs, se_bits, se_number, ue_bits, zeros,
};
use crate::hevc::escape::{escaped, law_unescaping_undoes_escaping};
use crate::hevc::reader::{
    lemma_number_bound, lemma_zero_run_is, number_at, se_at, ue_at, ue_end, unescaped, ReaderModel,
};
use crate::hevc::refs::lemma_ue_len;
use vstd::arithmetic::power2::pow2;
use vstd::prelude::*;

verus! {

/// The code stands at `p`.
pub open spec fn stands_at(bytes: Seq<u8>, p: int, code: Seq<bool>) -> bool {
    bits_from(bytes, p, code.len()) == code
}

proof fn lemma_length_bounds(v: nat)
    requires
        v > 0,
    ensures
        bit_length(v) > 0,
        pow2((bit_length(v) - 1) as nat) <= v < pow2(bit_length(v)),
    decreases v,
{
    vstd::arithmetic::power2::lemma2_to64();
    vstd::arithmetic::power2::lemma_pow2_unfold(bit_length(v));
    if v >= 2 {
        lemma_length_bounds(v / 2);
        vstd::arithmetic::power2::lemma_pow2_unfold((bit_length(v) - 1) as nat);
    } else {
        assert(bit_length(0) == 0);
        assert(bit_length(1) == 1);
    }
}

proof fn lemma_leading(first: bool, rest: Seq<bool>)
    ensures
        bits_number(seq![first] + rest) == bits_number(rest) + if first {
            pow2(rest.len())
        } else {
            0
        },
    decreases rest.len(),
{
    vstd::arithmetic::power2::lemma2_to64();
    let all = seq![first] + rest;
    if rest.len() == 0 {
        assert(all =~= seq![first]);
        assert(all.drop_last() =~= Seq::<bool>::empty());
        assert(bits_number(all.drop_last()) == 0);
    } else {
        lemma_leading(first, rest.drop_last());
        assert(all.drop_last() =~= seq![first] + rest.drop_last());
        vstd::arithmetic::power2::lemma_pow2_unfold(rest.len());
    }
}

/// Bits that stand somewhere stand there piece by piece.
pub proof fn lemma_stands_split(bytes: Seq<u8>, p: int, a: Seq<bool>, b: Seq<bool>)
    requires
        stands_at(bytes, p, a + b),
    ensures
        stands_at(bytes, p, a),
        stands_at(bytes, p + a.len(), b),
{
    let whole = bits_from(bytes, p, (a + b).len());
    assert forall|i: int| 0 <= i < a.len() implies bit_at(bytes, p + i) == a[i] by {
        assert(whole[i] == (a + b)[i]);
    }
    assert forall|i: int| 0 <= i < b.len() implies bit_at(bytes, p + a.len() + i) == b[i] by {
        assert(whole[a.len() + i] == (a + b)[a.len() + i]);
    }
    assert(bits_from(bytes, p, a.len()) =~= a);
    assert(bits_from(bytes, p + a.len(), b.len()) =~= b);
}

/// The Exp-Golomb code of a number is read as that number, and reading ends behind it.
pub proof fn law_written_number_is_read(bytes: Seq<u8>, p: int, v: nat)
    requires
        v < u32::MAX,
        stands_at(bytes, p, ue_bits(v)),
    ensures
        ue_at(bytes, p) == v,
        ue_end(bytes, p) == p + ue_bits(v).len(),
{
    let w = v + 1;
    let n = bit_length(w);
    lemma_length_bounds(w);
    lemma_ue_len(v);
    lemma_number_len(w, n);
    let z = (n - 1) as nat;
    let digits = number_bits(w, n);
    lemma_stands_split(bytes, p, zeros(z), digits);
    assert forall|i: int| p <= i < p + z implies !#[trigger] bit_at(bytes, i) by {
        assert(bits_from(bytes, p, z)[i - p] == zeros(z)[i - p]);
    }
    law_number_from_bits(w, n);
    let rest = digits.skip(1);
    assert(digits =~= seq![digits[0]] + rest);
    lemma_leading(digits[0], rest);
    lemma_number_bound(rest);
    assert(digits[0]);
    assert(bit_at(bytes, p + z)) by {
        assert(bits_from(bytes, p + z, n)[0] == digits[0]);
    }
    lemma_zero_run_is(bytes, p, z, 32);
    assert(bits_from(bytes, p + z + 1, z) =~= rest) by {
        assert forall|i: int| 0 <= i < z implies bit_at(bytes, p + z + 1 + i) == rest[i] by {
            assert(bits_from(bytes, p + z, n)[i + 1] == digits[i + 1]);
        }
    }
    assert(number_at(bytes, p + z + 1, z) == w - pow2(z));
}

/// The signed Exp-Golomb code of a number is read as that number.
pub proof fn law_written_signed_number_is_read(bytes: Seq<u8>, p: int, v: int)
    requires
        i32::MIN < v <= i32::MAX,
        stands_at(bytes, p, se_bits(v)),
    ensures
        se_at(bytes, p) == v,
        ue_end(bytes, p) == p + se_bits(v).len(),
{
    law_written_number_is_read(bytes, p, se_number(v));
}

/// The lowest bits of a number are read as the number modulo a power of two.
pub proof fn law_written_bits_are_read(bytes: Seq<u8>, p: int, v: nat, len: nat)
    requires
        stands_at(bytes, p, number_bits(v, len)),
    ensures
        number_at(bytes, p, len) == v % pow2(len),
{
    lemma_number_len(v, len);
    lemma_low_bits(v, len);
}

/// The digits of a number: bit `j` of `len` stands for two to the power of `len - 1 - j`.
pub proof fn law_digits_have_their_weight(v: nat, len: nat)
    requires
        v < pow2(len),
    ensures
        number_bits(v, len).len() == len,
        bits_number(number_bits(v, len)) == v,
        len > 0 ==> (number_bits(v, len)[0] <==> v >= pow2((len - 1) as nat)),
{
    lemma_number_len(v, len);
    lemma_low_bits(v, len);
    vstd::arithmetic::div_mod::lemma_small_mod(v, pow2(len));
    if len > 0 {
        let bits = number_bits(v, len);
        let rest = bits.skip(1);
        assert(bits =~= seq![bits[0]] + rest);
        lemma_leading(bits[0], rest);
        lemma_number_bound(rest);
    }
}

/// The code of a number: as many zeros as its successor has binary digits but the first, a
/// set bit, and those digits.
pub proof fn law_code_is_zeros_and_digits(v: nat, z: nat, tail: nat)
    requires
        v + 1 == pow2(z) + tail,
        tail < pow2(z),
    ensures
        ue_bits(v) == zeros(z) + (seq![true] + number_bits(tail, z)),
        ue_bits(v).len() == 2 * z + 1,
{
    let w = v + 1;
    let n = bit_length(w);
    vstd::arithmetic::power2::lemma_pow2_pos(z);
    lemma_length_bounds(w);
    vstd::arithmetic::power2::lemma_pow2_unfold(z + 1);
    if n <= z {
        if n < z {
            vstd::arithmetic::power2::lemma_pow2_strictly_increases(n, z);
        }
    }
    if n > z + 1 {
        if n - 1 > z + 1 {
            vstd::arithmetic::power2::lemma_pow2_strictly_increases(z + 1, (n - 1) as nat);
        }
    }
    assert(n == z + 1);
    lemma_number_len(w, n);
    law_higher_bits_do_not_count(w, z);
    vstd::arithmetic::div_mod::lemma_mod_multiples_vanish(1, tail as int, pow2(z) as int);
    vstd::arithmetic::div_mod::lemma_small_mod(tail, pow2(z));
    assert(w % pow2(z) == tail);
    let bits = number_bits(w, n);
    lemma_low_digits(w, n, z);
    law_digits_have_their_weight(w, n);
    assert(bits =~= seq![true] + number_bits(tail, z));
    assert(zeros((n - 1) as nat) =~= zeros(z));
}

/// The last digits of a number are those of its lowest bits.
proof fn lemma_low_digits(v: nat, len: nat, n: nat)
    requires
        n <= len,
    ensures
        number_bits(v, len).skip(len - n) == number_bits(v, n),
    decreases n,
{
    lemma_number_len(v, len);
    lemma_number_len(v, n);
    if n > 0 {
        lemma_low_digits(v / 2, (len - 1) as nat, (n - 1) as nat);
        lemma_number_len(v / 2, (len - 1) as nat);
        lemma_number_len(v / 2, (n - 1) as nat);
        let a = number_bits(v / 2, (len - 1) as nat);
        assert(number_bits(v, len).skip(len - n) =~= a.skip(len - n).push(v % 2 == 1));
    } else {
        assert(number_bits(v, len).skip(len as int) =~= number_bits(v, 0));
    }
}

/// A byte is the number that its eight bits stand for, the first one the highest.
pub proof fn law_byte_is_its_bits(bytes: Seq<u8>, k: int)
    requires
        0 <= k < bytes.len(),
    ensures
        bits_number(bits_from(bytes, 8 * k, 8)) == bytes[k],
{
    let b = bytes[k];
    let s = bits_from(bytes, 8 * k, 8);
    assert forall|j: int| 0 <= j < 8 implies #[trigger] s[j] == crate::hevc::bits::byte_bit(
        b,
        j,
    ) by {
        assert((8 * k + j) / 8 == k && (8 * k + j) % 8 == j);
    }
    assert(s[0] == ((b >> 7u8) & 1 == 1) && s[1] == ((b >> 6u8) & 1 == 1) && s[2] == ((b >> 5u8) & 1
        == 1) && s[3] == ((b >> 4u8) & 1 == 1) && s[4] == ((b >> 3u8) & 1 == 1) && s[5] == ((b
        >> 2u8) & 1 == 1) && s[6] == ((b >> 1u8) & 1 == 1) && s[7] == ((b >> 0u8) & 1 == 1));
    assert(b == 128 * ((b >> 7u8) & 1) + 64 * ((b >> 6u8) & 1) + 32 * ((b >> 5u8) & 1) + 16 * ((b
        >> 4u8) & 1) + 8 * ((b >> 3u8) & 1) + 4 * ((b >> 2u8) & 1) + 2 * ((b >> 1u8) & 1) + ((b
        >> 0u8) & 1)) by (bit_vector);
    assert((b >> 7u8) & 1 <= 1 && (b >> 6u8) & 1 <= 1 && (b >> 5u8) & 1 <= 1 && (b >> 4u8) & 1 <= 1
        && (b >> 3u8) & 1 <= 1 && (b >> 2u8) & 1 <= 1 && (b >> 1u8) & 1 <= 1 && (b >> 0u8) & 1
        <= 1) by (bit_vector);
    reveal_with_fuel(bits_number, 9);
    assert(s.drop_last().len() == 7);
}

/// Only the lowest bits of a number are written, as many as are asked for.
pub proof fn law_higher_bits_do_not_count(v: nat, len: nat)
    ensures
        number_bits(v, len) == number_bits(v % pow2(len), len),
        number_bits(v, len).len() == len,
    decreases len,
{
    lemma_number_len(v, len);
    vstd::arithmetic::power2::lemma_pow2_pos(len);
    if len > 0 {
        let half = (len - 1) as nat;
        law_higher_bits_do_not_count(v / 2, half);
        vstd::arithmetic::power2::lemma_pow2_unfold(len);
        vstd::arithmetic::power2::lemma_pow2_pos(half);
        vstd::arithmetic::div_mod::lemma_mod_breakdown(v as int, 2, pow2(half) as int);
        assert((v % pow2(len)) / 2 == (v / 2) % pow2(half));
    }
}

/// Different numbers have different Exp-Golomb codes.
pub proof fn law_codes_differ(v: nat, w: nat)
    requires
        ue_bits(v) == ue_bits(w),
    ensures
        v == w,
{
    let n = bit_length(v + 1);
    let o = bit_length(w + 1);
    lemma_length_bounds(v + 1);
    lemma_length_bounds(w + 1);
    lemma_number_len(v + 1, n);
    lemma_number_len(w + 1, o);
    assert(ue_bits(v).len() == 2 * n - 1);
    assert(ue_bits(w).len() == 2 * o - 1);
    assert(ue_bits(v).skip(n - 1) =~= number_bits(v + 1, n));
    assert(ue_bits(w).skip(n - 1) =~= number_bits(w + 1, n));
    law_number_from_bits(v + 1, n);
    law_number_from_bits(w + 1, n);
}

/// The signed code of a number is the code of twice the number less one, if it is positive,
/// and else of twice its opposite. Different numbers have different signed codes.
pub proof fn law_signed_codes_differ(v: int, w: int)
    ensures
        v > 0 ==> se_bits(v) == ue_bits((2 * v - 1) as nat),
        v <= 0 ==> se_bits(v) == ue_bits((-2 * v) as nat),
        se_bits(v) == se_bits(w) ==> v == w,
{
    if se_bits(v) == se_bits(w) {
        law_codes_differ(se_number(v), se_number(w));
    }
}

/// A code that is all there is in a unit is read from it, and reading ends behind it.
pub proof fn law_code_is_read_from_its_unit(payload: Seq<u8>, v: nat)
    requires
        v < u32::MAX,
        packs(payload, ue_bits(v)),
    ensures
        ue_at(unescaped(escaped(payload)), 0) == v,
        ue_end(unescaped(escaped(payload)), 0) == ue_bits(v).len(),
{
    law_unescaping_undoes_escaping(payload);
    assert(bits_from(payload, 0, ue_bits(v).len()) =~= ue_bits(v));
    law_written_number_is_read(payload, 0, v);
}

/// Thirty-two bits that are not set, also behind the end, are read as zero.
pub proof fn law_many_zeros_are_read_as_zero(bytes: Seq<u8>, p: int)
    requires
        forall|i: int| p <= i < p + 32 ==> !#[trigger] bit_at(bytes, i),
    ensures
        ue_at(bytes, p) == 0,
        ue_end(bytes, p) == p + 32,
{
    lemma_zero_run_is(bytes, p, 32, 32);
}

/// Bits that follow each other stand for the number of the first ones, moved up, and that of
/// the others.
proof fn lemma_number_split(bytes: Seq<u8>, p: int, a: nat, b: nat)
    ensures
        number_at(bytes, p, a + b) == number_at(bytes, p, a) * pow2(b) + number_at(
            bytes,
            p + a,
            b,
        ),
    decreases b,
{
    vstd::arithmetic::power2::lemma2_to64();
    if b == 0 {
        assert(bits_from(bytes, p + a, 0) =~= Seq::<bool>::empty());
        assert(number_at(bytes, p, a) * 1 == number_at(bytes, p, a)) by (nonlinear_arith);
    } else {
        let c = (b - 1) as nat;
        lemma_number_split(bytes, p, a, c);
        vstd::arithmetic::power2::lemma_pow2_unfold(b);
        let whole = bits_from(bytes, p, a + b);
        let tail = bits_from(bytes, p + a, b);
        assert(whole.drop_last() =~= bits_from(bytes, p, a + c));
        assert(tail.drop_last() =~= bits_from(bytes, p + a, c));
        assert(whole.last() == tail.last());
        let x = number_at(bytes, p, a);
        assert(x * pow2(b) == 2 * (x * pow2(c))) by (nonlinear_arith)
            requires
                pow2(b) == 2 * pow2(c),
        ;
    }
}

/// Up to 32 bits are read as the number that they stand for.
proof fn lemma_bits_are_number(r: ReaderModel, n: nat)
    requires
        n <= 32,
    ensures
        r.bits(n) == number_at(r.bytes, r.pos, n),
        r.bits(n) < pow2(n),
{
    vstd::arithmetic::power2::lemma2_to64();
    lemma_number_bound(bits_from(r.bytes, r.pos, n));
    if n < 32 {
        vstd::arithmetic::power2::lemma_pow2_strictly_increases(n, 32);
    }
}

/// Reading some bits and then some more is reading all of them at once: the first ones, moved
/// up, and the others. What is read has no more bits than were asked for.
pub proof fn law_two_reads_are_one(r: ReaderModel, a: nat, b: u32)
    requires
        a + b <= 32,
        b < 32,
    ensures
        ((r.bits(a) << b) | r.skip(a as int).bits(b as nat)) == r.bits(a + b as nat),
        r.skip(a as int).skip(b as int) == r.skip(a + b),
        r.bits(a) < pow2(a),
        r.bits(0) == 0,
{
    let x: u32 = r.bits(a);
    let y: u32 = r.skip(a as int).bits(b as nat);
    lemma_bits_are_number(r, a);
    lemma_bits_are_number(r.skip(a as int), b as nat);
    lemma_bits_are_number(r, a + b as nat);
    lemma_bits_are_number(r, 0);
    lemma_number_split(r.bytes, r.pos, a, b as nat);
    vstd::arithmetic::power2::lemma2_to64();
    vstd::bits::lemma_u32_shl_is_mul(x, b);
    vstd::bits::lemma_u32_shr_is_div(y, b);
    vstd::arithmetic::div_mod::lemma_basic_div(y as int, pow2(b as nat) as int);
    assert((x << b) | y == (x << b) + y) by (bit_vector)
        requires
            y >> b == 0,
            b < 32,
    ;
}

proof fn lemma_low_bits(v: nat, len: nat)
    ensures
        bits_number(number_bits(v, len)) == v % pow2(len),
    decreases len,
{
    vstd::arithmetic::power2::lemma2_to64();
    if len == 0 {
        assert(v % 1 == 0);
    } else {
        let half = (len - 1) as nat;
        lemma_low_bits(v / 2, half);
        let b = number_bits(v, len);
        assert(b.drop_last() =~= number_bits(v / 2, half));
        vstd::arithmetic::power2::lemma_pow2_unfold(len);
        vstd::arithmetic::power2::lemma_pow2_pos(half);
        vstd::arithmetic::div_mod::lemma_mod_breakdown(v as int, 2, pow2(half) as int);
    }
}

} // verus!
