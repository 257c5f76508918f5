//! The syntax of units as it is written: codes one behind the other.
use crate::hevc::bits::{
    bits_from, lemma_number_len, number_bits, se_bits, ue_bits,
};
use crate::hevc::laws::{
    law_written_bits_are_read, law_written_number_is_read, law_written_signed_number_is_read,
    lemma_stands_split, stands_at,
};
use crate::hevc::reader::{lemma_number_bound, ReaderModel};
use vstd::arithmetic::power2::pow2;
use vstd::prelude::*;

verus! {

/// A piece of syntax with its value.
pub enum Code {
    /// A flag of one bit.
    Flag(bool),
    /// A number in a fixed number of bits.
    Fixed(nat, nat),
    /// A number as an Exp-Golomb code.
    Ue(nat),
    /// A signed number as an Exp-Golomb code.
    Se(int),
    /// Bits of which nothing is said.
    Raw(Seq<bool>),
}

/// The bits that a piece of syntax is written as.
pub open spec fn code_bits(c: Code) -> Seq<bool> {
    match c {
        Code::Flag(b) => seq![b],
        Code::Fixed(v, n) => number_bits(v, n),
        Code::Ue(v) => ue_bits(v),
        Code::Se(v) => se_bits(v),
        Code::Raw(bits) => bits,
    }
}

/// The value can be written in its form.
pub open spec fn code_fits(c: Code) -> bool {
    match c {
        Code::Fixed(v, n) => n <= 32 && v < pow2(n),
        Code::Ue(v) => v < u32::MAX,
        Code::Se(v) => i32::MIN < v <= i32::MAX,
        _ => true,
    }
}

/// All values can be written in their forms.
pub open spec fn codes_fit(s: Seq<Code>) -> bool {
    forall|i: int| 0 <= i < s.len() ==> code_fits(#[trigger] s[i])
}

/// The bits of pieces of syntax, one behind the other.
pub open spec fn codes_bits(s: Seq<Code>) -> Seq<bool>
    decreases s.len(),
{
    if s.len() == 0 {
        Seq::empty()
    } else {
        codes_bits(s.drop_last()) + code_bits(s.last())
    }
}

/// The codes stand where the reader is.
pub open spec fn holds(r: ReaderModel, s: Seq<Code>) -> bool {
    codes_fit(s) && stands_at(r.bytes, r.pos, codes_bits(s))
}

/// Behind the codes.
pub open spec fn behind(r: ReaderModel, s: Seq<Code>) -> ReaderModel {
    r.skip(codes_bits(s).len() as int)
}

/// The payload of the unit, behind its header of two bytes, begins with the codes.
pub open spec fn unit_begins(nalu: Seq<u8>, s: Seq<Code>) -> bool {
    holds(ReaderModel::of_unit(nalu), s)
}

/// The codes of Exp-Golomb numbers.
pub open spec fn ues(v: Seq<nat>) -> Seq<Code> {
    Seq::new(v.len(), |i: int| Code::Ue(v[i]))
}

/// The reader finds the value of code `i` and then stands at the next one.
pub open spec fn nth_read(r: ReaderModel, s: Seq<Code>, i: int) -> bool {
    let at = behind(r, s.take(i));
    let next = behind(r, s.take(i + 1));
    match s[i] {
        Code::Flag(b) => at.flag() == b && next == at.skip(1),
        Code::Fixed(v, n) => at.bits(n) == v && next == at.skip(n as int),
        Code::Ue(v) => at.ue() == v && next == at.after_ue(),
        Code::Se(v) => at.se() == v && next == at.after_ue(),
        Code::Raw(bits) => next == at.skip(bits.len() as int),
    }
}

pub proof fn lemma_codes_add(a: Seq<Code>, b: Seq<Code>)
    ensures
        codes_bits(a + b) == codes_bits(a) + codes_bits(b),
    decreases b.len(),
{
    if b.len() == 0 {
        assert(a + b =~= a);
        assert(codes_bits(a) + codes_bits(b) =~= codes_bits(a));
    } else {
        assert((a + b).drop_last() =~= a + b.drop_last());
        lemma_codes_add(a, b.drop_last());
        assert((codes_bits(a) + codes_bits(b.drop_last())) + code_bits(b.last()) =~= codes_bits(a)
            + (codes_bits(b.drop_last()) + code_bits(b.last())));
    }
}

/// The bits of one code.
pub proof fn lemma_single(c: Code)
    ensures
        codes_bits(seq![c]) == code_bits(c),
{
    assert(seq![c].drop_last() =~= Seq::<Code>::empty());
    assert(codes_bits(Seq::<Code>::empty()) =~= Seq::<bool>::empty());
    assert(codes_bits(seq![c]) =~= code_bits(c));
}

/// Codes that stand somewhere stand there piece by piece.
pub proof fn lemma_holds_split(r: ReaderModel, a: Seq<Code>, b: Seq<Code>)
    requires
        holds(r, a + b),
    ensures
        holds(r, a),
        holds(behind(r, a), b),
        behind(behind(r, a), b) == behind(r, a + b),
{
    lemma_codes_add(a, b);
    lemma_stands_split(r.bytes, r.pos, codes_bits(a), codes_bits(b));
    assert forall|i: int| 0 <= i < a.len() implies code_fits(#[trigger] a[i]) by {
        assert((a + b)[i] == a[i]);
    }
    assert forall|i: int| 0 <= i < b.len() implies code_fits(#[trigger] b[i]) by {
        assert((a + b)[a.len() + i] == b[i]);
    }
}

/// One code is read as it was written.
proof fn lemma_one_read(r: ReaderModel, c: Code)
    requires
        code_fits(c),
        stands_at(r.bytes, r.pos, code_bits(c)),
    ensures
        ({
            let next = r.skip(code_bits(c).len() as int);
            match c {
                Code::Flag(b) => r.flag() == b && next == r.skip(1),
                Code::Fixed(v, n) => r.bits(n) == v && next == r.skip(n as int),
                Code::Ue(v) => r.ue() == v && next == r.after_ue(),
                Code::Se(v) => r.se() == v && next == r.after_ue(),
                Code::Raw(bits) => next == r.skip(bits.len() as int),
            }
        }),
{
    match c {
        Code::Flag(b) => {
            assert(bits_from(r.bytes, r.pos, 1)[0] == seq![b][0]);
        },
        Code::Fixed(v, n) => {
            lemma_number_len(v, n);
            law_written_bits_are_read(r.bytes, r.pos, v, n);
            vstd::arithmetic::div_mod::lemma_small_mod(v, pow2(n));
            vstd::arithmetic::power2::lemma2_to64();
            lemma_number_bound(bits_from(r.bytes, r.pos, n));
            if n < 32 {
                vstd::arithmetic::power2::lemma_pow2_strictly_increases(n, 32);
            }
        },
        Code::Ue(v) => {
            law_written_number_is_read(r.bytes, r.pos, v);
        },
        Code::Se(v) => {
            law_written_signed_number_is_read(r.bytes, r.pos, v);
        },
        Code::Raw(bits) => {},
    }
}

/// Codes are read one after the other as they were written.
pub proof fn lemma_reads(r: ReaderModel, s: Seq<Code>)
    requires
        holds(r, s),
    ensures
        behind(r, s.take(0)) == r,
        behind(r, s.take(s.len() as int)) == behind(r, s),
        forall|i: int| 0 <= i < s.len() ==> #[trigger] nth_read(r, s, i),
{
    assert(s.take(0) =~= Seq::<Code>::empty());
    assert(s.take(s.len() as int) =~= s);
    assert forall|i: int| 0 <= i < s.len() implies #[trigger] nth_read(r, s, i) by {
        let front = s.take(i + 1);
        assert(s =~= front + s.skip(i + 1));
        lemma_holds_split(r, front, s.skip(i + 1));
        assert(front.drop_last() =~= s.take(i));
        assert(front.last() == s[i]);
        lemma_stands_split(r.bytes, r.pos, codes_bits(s.take(i)), code_bits(s[i]));
        lemma_one_read(behind(r, s.take(i)), s[i]);
    }
}

/// Exp-Golomb codes one after the other.
pub proof fn lemma_ues(r: ReaderModel, v: Seq<nat>)
    requires
        holds(r, ues(v)),
    ensures
        r.after_ues(v.len()) == behind(r, ues(v)),
        forall|i: nat| i < v.len() ==> (#[trigger] r.after_ues(i)).ue() == v[i as int],
    decreases v.len(),
{
    lemma_reads(r, ues(v));
    assert forall|i: nat| i <= v.len() implies #[trigger] r.after_ues(i) == behind(
        r,
        ues(v).take(i as int),
    ) by {
        lemma_ues_upto(r, v, i);
    }
    assert forall|i: nat| i < v.len() implies (#[trigger] r.after_ues(i)).ue() == v[i as int] by {
        assert(nth_read(r, ues(v), i as int));
    }
}

proof fn lemma_ues_upto(r: ReaderModel, v: Seq<nat>, i: nat)
    requires
        holds(r, ues(v)),
        i <= v.len(),
    ensures
        r.after_ues(i) == behind(r, ues(v).take(i as int)),
    decreases i,
{
    lemma_reads(r, ues(v));
    if i > 0 {
        lemma_ues_upto(r, v, (i - 1) as nat);
        assert(nth_read(r, ues(v), i - 1));
    }
}

/// A flag and what follows it.
pub proof fn lemma_flag_then(r: ReaderModel, b: bool, rest: Seq<Code>)
    requires
        holds(r, seq![Code::Flag(b)] + rest),
    ensures
        r.flag() == b,
        holds(r.skip(1), rest),
        behind(r.skip(1), rest) == behind(r, seq![Code::Flag(b)] + rest),
{
    lemma_one_then(r, Code::Flag(b), rest);
}

/// A number in a fixed number of bits and what follows it.
pub proof fn lemma_fixed_then(r: ReaderModel, v: nat, n: nat, rest: Seq<Code>)
    requires
        holds(r, seq![Code::Fixed(v, n)] + rest),
    ensures
        r.bits(n) == v,
        holds(r.skip(n as int), rest),
        behind(r.skip(n as int), rest) == behind(r, seq![Code::Fixed(v, n)] + rest),
{
    lemma_one_then(r, Code::Fixed(v, n), rest);
}

/// A number and what follows it.
pub proof fn lemma_ue_then(r: ReaderModel, v: nat, rest: Seq<Code>)
    requires
        holds(r, seq![Code::Ue(v)] + rest),
    ensures
        r.ue() == v,
        holds(r.after_ue(), rest),
        behind(r.after_ue(), rest) == behind(r, seq![Code::Ue(v)] + rest),
{
    lemma_one_then(r, Code::Ue(v), rest);
}

/// A signed number and what follows it.
pub proof fn lemma_se_then(r: ReaderModel, v: int, rest: Seq<Code>)
    requires
        holds(r, seq![Code::Se(v)] + rest),
    ensures
        r.se() == v,
        holds(r.after_ue(), rest),
        behind(r.after_ue(), rest) == behind(r, seq![Code::Se(v)] + rest),
{
    lemma_one_then(r, Code::Se(v), rest);
}

/// Bits and what follows them.
pub proof fn lemma_raw_then(r: ReaderModel, bits: Seq<bool>, rest: Seq<Code>)
    requires
        holds(r, seq![Code::Raw(bits)] + rest),
    ensures
        holds(r.skip(bits.len() as int), rest),
        behind(r.skip(bits.len() as int), rest) == behind(r, seq![Code::Raw(bits)] + rest),
{
    lemma_one_then(r, Code::Raw(bits), rest);
}

proof fn lemma_one_then(r: ReaderModel, c: Code, rest: Seq<Code>)
    requires
        holds(r, seq![c] + rest),
    ensures
        nth_read(r, seq![c], 0),
        behind(r, seq![c].take(0)) == r,
        holds(behind(r, seq![c].take(1)), rest),
        behind(behind(r, seq![c].take(1)), rest) == behind(r, seq![c] + rest),
{
    lemma_holds_split(r, seq![c], rest);
    lemma_reads(r, seq![c]);
    assert(nth_read(r, seq![c], 0));
}

/// Numbers and what follows them.
pub proof fn lemma_ues_then(r: ReaderModel, v: Seq<nat>, rest: Seq<Code>)
    requires
        holds(r, ues(v) + rest),
    ensures
        holds(r.after_ues(v.len()), rest),
        behind(r.after_ues(v.len()), rest) == behind(r, ues(v) + rest),
        forall|i: nat| i < v.len() ==> (#[trigger] r.after_ues(i)).ue() == v[i as int],
{
    lemma_holds_split(r, ues(v), rest);
    lemma_ues(r, v);
}

} // verus!
