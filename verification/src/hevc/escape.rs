//! Bytes that keep start codes out of a unit.
use crate::hevc::reader::unescaped;
use vstd::prelude::*;

verus! {

/// The payload with a 3 put before each byte up to 3 that two zeros precede, where `zeros`
/// of them stand directly before it.
pub open spec fn escaped_after(rbsp: Seq<u8>, zeros: nat) -> Seq<u8>
    decreases rbsp.len(),
{
    if rbsp.len() == 0 {
        Seq::empty()
    } else {
        let b = rbsp[0];
        let rest = rbsp.drop_first();
        if zeros == 2 && b <= 3 {
            seq![3u8, b] + escaped_after(
                rest,
                if b == 0 {
                    1
                } else {
                    0
                },
            )
        } else {
            seq![b] + escaped_after(
                rest,
                if b == 0 {
                    zeros + 1
                } else {
                    0
                },
            )
        }
    }
}

/// The payload in the form in which it stands in a unit.
pub open spec fn escaped(rbsp: Seq<u8>) -> Seq<u8> {
    escaped_after(rbsp, 0)
}

/// A 3 behind two zeros ends at `i`.
pub open spec fn escape_at(nalu: Seq<u8>, i: int) -> bool {
    2 <= i < nalu.len() && nalu[i - 2] == 0 && nalu[i - 1] == 0 && nalu[i] == 3
}

/// How many bytes of the first `n` are a 3 behind two zeros.
pub open spec fn escapes(nalu: Seq<u8>, n: nat) -> nat
    decreases n,
{
    if n == 0 {
        0
    } else {
        escapes(nalu, (n - 1) as nat) + if escape_at(nalu, n - 1) {
            1nat
        } else {
            0nat
        }
    }
}

/// The payload in the form in which it stands in a unit.
pub fn apply_emulation_prevention(rbsp: &[u8]) -> (r: Vec<u8>)
    ensures
        r@ == escaped(rbsp@),
{
    let mut out: Vec<u8> = Vec::new();
    let mut zero_count: u32 = 0;
    let mut i: usize = 0;
    assert(rbsp@.skip(0) =~= rbsp@);
    assert(out@ + escaped(rbsp@) =~= escaped(rbsp@));
    while i < rbsp.len()
        invariant
            i <= rbsp@.len(),
            zero_count <= 2,
            out@ + escaped_after(rbsp@.skip(i as int), zero_count as nat) == escaped(rbsp@),
        decreases rbsp@.len() - i,
    {
        let byte: u8 = rbsp[i];
        let ghost rest = rbsp@.skip(i as int);
        let ghost before = out@;
        let ghost z = zero_count;
        assert(rest.drop_first() =~= rbsp@.skip(i + 1));
        if zero_count == 2 && byte <= 0x03 {
            out.push(0x03);
            zero_count = 0;
        }
        if byte == 0x00 {
            zero_count = zero_count + 1;
        } else {
            zero_count = 0;
        }
        out.push(byte);
        i = i + 1;
        proof {
            let tail = escaped_after(rbsp@.skip(i as int), zero_count as nat);
            if z == 2 && byte <= 3 {
                assert(out@ + tail =~= before + (seq![3u8, byte] + tail));
            } else {
                assert(out@ + tail =~= before + (seq![byte] + tail));
            }
        }
    }
    assert(rbsp@.skip(i as int) =~= Seq::<u8>::empty());
    assert(out@ + Seq::<u8>::empty() =~= out@);
    out
}

/// How many bytes of a unit are a 3 behind two zeros.
pub fn count_emulation_prevention_bytes(nalu: &[u8]) -> (r: usize)
    ensures
        r == escapes(nalu@, nalu@.len()),
{
    let mut count: usize = 0;
    let mut i: usize = 2;
    if nalu.len() < 2 {
        proof {
            reveal_with_fuel(escapes, 3);
        }
        return 0;
    }
    assert(escapes(nalu@, 2) == 0) by {
        reveal_with_fuel(escapes, 3);
    }
    while i < nalu.len()
        invariant
            2 <= i,
            i <= nalu@.len(),
            count == escapes(nalu@, i as nat),
            count <= i,
        decreases nalu@.len() - i,
    {
        if nalu[i - 2] == 0x00 && nalu[i - 1] == 0x00 && nalu[i] == 0x03 {
            assert(escapes(nalu@, (i + 1) as nat) == count + 1);
            count = count + 1;
            i = i + 1;
            if i < nalu.len() {
                assert(!escape_at(nalu@, i as int));
                i = i + 1;
            }
        } else {
            i = i + 1;
        }
    }
    count
}

spec fn zeros_before(n: nat) -> Seq<u8> {
    Seq::new(n, |i: int| 0u8)
}

proof fn lemma_unescape(rbsp: Seq<u8>, z: nat)
    requires
        z <= 2,
    ensures
        unescaped(zeros_before(z) + escaped_after(rbsp, z)) == zeros_before(z) + rbsp,
    decreases rbsp.len(),
{
    let e = escaped_after(rbsp, z);
    let whole = zeros_before(z) + e;
    if rbsp.len() == 0 {
        assert(whole =~= zeros_before(z));
        assert(zeros_before(z) + rbsp =~= zeros_before(z));
        let none = Seq::<u8>::empty();
        assert(unescaped(none) =~= none);
        if z == 2 {
            assert(whole.skip(1) =~= zeros_before(1));
            assert(zeros_before(1).skip(1) =~= none);
            assert(unescaped(zeros_before(1)) =~= zeros_before(1));
            assert(unescaped(whole) =~= zeros_before(2));
        } else if z == 1 {
            assert(whole.skip(1) =~= none);
            assert(unescaped(whole) =~= zeros_before(1));
        } else {
            assert(whole =~= none);
        }
    } else {
        let b = rbsp[0];
        let rest = rbsp.drop_first();
        if z == 2 && b <= 3 {
            let next: nat = if b == 0 {
                1
            } else {
                0
            };
            let tail = escaped_after(rest, next);
            lemma_unescape(rest, next);
            assert(whole =~= seq![0u8, 0u8, 3u8, b] + tail);
            assert(whole.skip(3) =~= seq![b] + tail);
            if b == 0 {
                assert(seq![b] + tail =~= zeros_before(1) + tail);
                assert(unescaped(whole) =~= seq![0u8, 0u8] + (zeros_before(1) + rest));
            } else {
                assert((seq![b] + tail).skip(1) =~= zeros_before(0) + tail);
                assert(unescaped(seq![b] + tail) =~= seq![b] + (zeros_before(0) + rest));
            }
            assert(unescaped(whole) =~= zeros_before(2) + rbsp);
        } else if b == 0 {
            let tail = escaped_after(rest, z + 1);
            lemma_unescape(rest, z + 1);
            assert(whole =~= zeros_before(z + 1) + tail);
            assert(zeros_before(z + 1) + rest =~= zeros_before(z) + rbsp);
        } else {
            let tail = escaped_after(rest, 0);
            lemma_unescape(rest, 0);
            assert(zeros_before(0) + tail =~= tail);
            assert(zeros_before(0) + rest =~= rest);
            let plain = seq![b] + tail;
            assert(plain.skip(1) =~= tail);
            assert(unescaped(plain) == seq![b] + rest);
            assert(e =~= plain);
            if z == 0 {
                assert(whole =~= plain);
            } else if z == 1 {
                assert(whole =~= seq![0u8] + plain);
                assert(whole.skip(1) =~= plain);
                assert(unescaped(whole) =~= seq![0u8] + (seq![b] + rest));
            } else {
                assert(whole =~= seq![0u8, 0u8] + plain);
                assert(whole.skip(1) =~= seq![0u8] + plain);
                assert((seq![0u8] + plain).skip(1) =~= plain);
                assert(unescaped(seq![0u8] + plain) =~= seq![0u8] + (seq![b] + rest));
                assert(unescaped(whole) =~= seq![0u8] + (seq![0u8] + (seq![b] + rest)));
            }
            assert(unescaped(whole) =~= zeros_before(z) + rbsp);
        }
    }
}

/// A payload is read from a unit as it was put into it.
pub proof fn law_unescaping_undoes_escaping(rbsp: Seq<u8>)
    ensures
        unescaped(escaped(rbsp)) == rbsp,
{
    lemma_unescape(rbsp, 0);
    assert(zeros_before(0) + escaped(rbsp) =~= escaped(rbsp));
    assert(zeros_before(0) + rbsp =~= rbsp);
}

proof fn lemma_no_start_code(rbsp: Seq<u8>, z: nat)
    requires
        z <= 2,
    ensures
        ({
            let whole = zeros_before(z) + escaped_after(rbsp, z);
            forall|i: int|
                0 <= i < whole.len() - 2 ==> !(#[trigger] whole[i] == 0 && whole[i + 1] == 0
                    && whole[i + 2] <= 2)
        }),
    decreases rbsp.len(),
{
    let e = escaped_after(rbsp, z);
    let whole = zeros_before(z) + e;
    if rbsp.len() > 0 {
        let b = rbsp[0];
        let rest = rbsp.drop_first();
        if z == 2 && b <= 3 {
            let next: nat = if b == 0 {
                1
            } else {
                0
            };
            lemma_no_start_code(rest, next);
            let tail = escaped_after(rest, next);
            let inner = zeros_before(next) + tail;
            assert(whole =~= seq![0u8, 0u8, 3u8, b] + tail);
            assert forall|i: int| 0 <= i < whole.len() - 2 implies !(#[trigger] whole[i] == 0
                && whole[i + 1] == 0 && whole[i + 2] <= 2) by {
                if i >= 3 {
                    if b == 0 {
                        assert(whole[i] == inner[i - 3]);
                        assert(whole[i + 1] == inner[i - 2]);
                        assert(whole[i + 2] == inner[i - 1]);
                    } else if i >= 4 {
                        assert(whole[i] == inner[i - 4]);
                        assert(whole[i + 1] == inner[i - 3]);
                        assert(whole[i + 2] == inner[i - 2]);
                    }
                }
            }
        } else if b == 0 {
            lemma_no_start_code(rest, z + 1);
            assert(whole =~= zeros_before(z + 1) + escaped_after(rest, z + 1));
        } else {
            lemma_no_start_code(rest, 0);
            let tail = escaped_after(rest, 0);
            assert(zeros_before(0) + tail =~= tail);
            assert(whole =~= zeros_before(z) + (seq![b] + tail));
            assert forall|i: int| 0 <= i < whole.len() - 2 implies !(#[trigger] whole[i] == 0
                && whole[i + 1] == 0 && whole[i + 2] <= 2) by {
                if i > z {
                    assert(whole[i] == tail[i - z - 1]);
                    assert(whole[i + 1] == tail[i - z]);
                    assert(whole[i + 2] == tail[i - z + 1]);
                } else {
                    assert(whole[z as int] == b);
                }
            }
        }
    }
}

/// What was put into a unit holds no two zeros with a byte up to 2 behind them: neither a
/// start code nor the beginning of one.
pub proof fn law_escaped_holds_no_start_code(rbsp: Seq<u8>, i: int)
    requires
        0 <= i < escaped(rbsp).len() - 2,
    ensures
        !(escaped(rbsp)[i] == 0 && escaped(rbsp)[i + 1] == 0 && escaped(rbsp)[i + 2] <= 2),
{
    lemma_no_start_code(rbsp, 0);
    let whole = zeros_before(0) + escaped_after(rbsp, 0);
    assert(whole =~= escaped(rbsp));
    assert(!(whole[i] == 0 && whole[i + 1] == 0 && whole[i + 2] <= 2));
}

proof fn lemma_escapes_shift(a: Seq<u8>, b: Seq<u8>, n: nat)
    requires
        n <= b.len(),
        a.len() > 0,
        a.last() != 0,
    ensures
        escapes(a + b, (a.len() + n) as nat) == escapes(a + b, a.len()) + escapes(b, n),
    decreases n,
{
    if n > 0 {
        lemma_escapes_shift(a, b, (n - 1) as nat);
        let i = a.len() + n - 1;
        let w = a + b;
        assert(w[i] == b[n - 1]);
        if n >= 3 {
            assert(w[i - 1] == b[n - 2] && w[i - 2] == b[n - 3]);
        } else if n == 2 {
            assert(w[i - 2] == a.last());
        } else {
            assert(w[i - 1] == a.last());
        }
        assert(escape_at(w, i) == escape_at(b, n - 1));
    }
}

proof fn lemma_escapes_prefix(a: Seq<u8>, b: Seq<u8>, n: nat)
    requires
        n <= a.len(),
    ensures
        escapes(a + b, n) == escapes(a, n),
    decreases n,
{
    if n > 0 {
        lemma_escapes_prefix(a, b, (n - 1) as nat);
        assert(escape_at(a + b, n - 1) == escape_at(a, n - 1));
    }
}

proof fn lemma_escapes_joined(a: Seq<u8>, b: Seq<u8>)
    requires
        a.len() > 0,
        a.last() != 0,
    ensures
        escapes(a + b, (a + b).len()) == escapes(a, a.len()) + escapes(b, b.len()),
{
    lemma_escapes_prefix(a, b, a.len());
    lemma_escapes_shift(a, b, b.len());
}

proof fn lemma_few_escapes(s: Seq<u8>)
    ensures
        s.len() <= 2 ==> escapes(s, s.len()) == 0,
        s.len() == 3 ==> escapes(s, 3) == if escape_at(s, 2) {
            1nat
        } else {
            0
        },
        s.len() == 4 && s[2] != 0 ==> escapes(s, 4) == if escape_at(s, 2) {
            1nat
        } else {
            0
        },
{
    reveal_with_fuel(escapes, 5);
}

proof fn lemma_escape_count(rbsp: Seq<u8>, z: nat)
    requires
        z <= 2,
    ensures
        ({
            let whole = zeros_before(z) + escaped_after(rbsp, z);
            escapes(whole, whole.len()) + rbsp.len() == escaped_after(rbsp, z).len()
        }),
    decreases rbsp.len(),
{
    let whole = zeros_before(z) + escaped_after(rbsp, z);
    if rbsp.len() == 0 {
        assert(whole =~= zeros_before(z));
        lemma_few_escapes(whole);
    } else {
        let b = rbsp[0];
        let rest = rbsp.drop_first();
        if z == 2 && b <= 3 {
            let next: nat = if b == 0 {
                1
            } else {
                0
            };
            lemma_escape_count(rest, next);
            let tail = escaped_after(rest, next);
            if b == 0 {
                let head = seq![0u8, 0u8, 3u8];
                assert(whole =~= head + (zeros_before(1) + tail));
                lemma_escapes_joined(head, zeros_before(1) + tail);
                lemma_few_escapes(head);
            } else {
                let head = seq![0u8, 0u8, 3u8, b];
                assert(whole =~= head + tail);
                assert(zeros_before(0) + tail =~= tail);
                lemma_escapes_joined(head, tail);
                lemma_few_escapes(head);
            }
        } else if b == 0 {
            lemma_escape_count(rest, z + 1);
            assert(whole =~= zeros_before(z + 1) + escaped_after(rest, z + 1));
        } else {
            lemma_escape_count(rest, 0);
            let tail = escaped_after(rest, 0);
            let head = zeros_before(z).push(b);
            assert(zeros_before(0) + tail =~= tail);
            assert(whole =~= head + tail);
            lemma_escapes_joined(head, tail);
            lemma_few_escapes(head);
        }
    }
}

/// What is counted in a unit is what escaping has added to its payload.
pub proof fn law_count_is_what_was_added(rbsp: Seq<u8>)
    ensures
        escapes(escaped(rbsp), escaped(rbsp).len()) + rbsp.len() == escaped(rbsp).len(),
{
    lemma_escape_count(rbsp, 0);
    assert(zeros_before(0) + escaped(rbsp) =~= escaped(rbsp));
}

/// Byte `i` is at most 3 and two zeros stand before it, of which `zeros` may stand before the
/// first byte.
pub open spec fn looks_like_code(rbsp: Seq<u8>, zeros: nat, i: int) -> bool {
    &&& 0 <= i < rbsp.len()
    &&& rbsp[i] <= 3
    &&& i >= 1 ==> rbsp[i - 1] == 0
    &&& i >= 2 ==> rbsp[i - 2] == 0
    &&& i == 1 ==> zeros >= 1
    &&& i == 0 ==> zeros >= 2
}

/// A payload in which nothing looks like a start code or an escape stands in a unit as it is.
pub proof fn law_nothing_is_escaped_without_need(rbsp: Seq<u8>)
    requires
        forall|i: int| !#[trigger] looks_like_code(rbsp, 0, i),
    ensures
        escaped(rbsp) == rbsp,
{
    lemma_not_escaped(rbsp, 0);
}

proof fn lemma_not_escaped(rbsp: Seq<u8>, zeros: nat)
    requires
        zeros <= 2,
        forall|i: int| !#[trigger] looks_like_code(rbsp, zeros, i),
    ensures
        escaped_after(rbsp, zeros) == rbsp,
    decreases rbsp.len(),
{
    if rbsp.len() > 0 {
        let rest = rbsp.drop_first();
        assert(!looks_like_code(rbsp, zeros, 0));
        let more: nat = if rbsp[0] == 0 {
            zeros + 1
        } else {
            0
        };
        assert forall|i: int| !#[trigger] looks_like_code(rest, more, i) by {
            assert(!looks_like_code(rbsp, zeros, i + 1));
        }
        lemma_not_escaped(rest, more);
        assert(seq![rbsp[0]] + rest =~= rbsp);
    } else {
        assert(escaped_after(rbsp, zeros) =~= rbsp);
    }
}

} // verus!
