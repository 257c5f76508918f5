//! Parts of parameter sets as they are written: references, scaling lists, sub-layers.
use crate::hevc::cursor::{
    after_matrices, after_matrix, after_ref_set, after_ref_sets, after_refs, after_scaling,
    after_used_flags, sub_layer_bits,
};
use crate::hevc::reader::ReaderModel;
use crate::hevc::syntax::{
    behind, codes_bits, holds, lemma_holds_split, lemma_reads, nth_read, Code,
};
use vstd::prelude::*;

verus! {

/// References: for each its distance from the one before, less one, and whether it is used.
pub open spec fn ref_codes(refs: Seq<(nat, bool)>) -> Seq<Code>
    decreases refs.len(),
{
    if refs.len() == 0 {
        Seq::empty()
    } else {
        ref_codes(refs.drop_last()) + seq![Code::Ue(refs.last().0), Code::Flag(refs.last().1)]
    }
}

/// What is said of the pictures of another set: of each whether it is used, and of one that
/// is not whether it is kept.
pub open spec fn kept_codes(entries: Seq<(bool, bool)>) -> Seq<Code>
    decreases entries.len(),
{
    if entries.len() == 0 {
        Seq::empty()
    } else {
        kept_codes(entries.drop_last()) + if entries.last().0 {
            seq![Code::Flag(true)]
        } else {
            seq![Code::Flag(false), Code::Flag(entries.last().1)]
        }
    }
}

/// A reference picture set.
pub enum SetSyntax {
    /// The earlier and the later pictures.
    Listed { earlier: Seq<(nat, bool)>, later: Seq<(nat, bool)> },
    /// The pictures of another set.
    Predicted { from: nat, negative: bool, shift: nat, entries: Seq<(bool, bool)> },
}

/// The set with index `idx`. The first one is not predicted.
pub open spec fn set_codes(s: SetSyntax, idx: nat) -> Seq<Code> {
    (if idx > 0 {
        seq![Code::Flag(s is Predicted)]
    } else {
        Seq::empty()
    }) + match s {
        SetSyntax::Listed { earlier, later } => seq![
            Code::Ue(earlier.len()),
            Code::Ue(later.len()),
        ] + (ref_codes(earlier) + ref_codes(later)),
        SetSyntax::Predicted { from, negative, shift, entries } => seq![
            Code::Ue(from),
            Code::Flag(negative),
            Code::Ue(shift),
        ] + kept_codes(entries),
    }
}

/// The set has a form that can be read.
pub open spec fn set_fits(s: SetSyntax, idx: nat) -> bool {
    match s {
        SetSyntax::Listed { .. } => true,
        SetSyntax::Predicted { entries, .. } => idx > 0 && entries.len() == 17,
    }
}

/// The sets one behind the other.
pub open spec fn sets_codes(sets: Seq<SetSyntax>) -> Seq<Code>
    decreases sets.len(),
{
    if sets.len() == 0 {
        Seq::empty()
    } else {
        sets_codes(sets.drop_last()) + set_codes(sets.last(), (sets.len() - 1) as nat)
    }
}

/// A scaling matrix: taken over from another one or given.
pub enum MatrixSyntax {
    Copied(nat),
    Given(Seq<int>),
}

pub open spec fn ses(v: Seq<int>) -> Seq<Code> {
    Seq::new(v.len(), |i: int| Code::Se(v[i]))
}

pub open spec fn matrix_codes(m: MatrixSyntax) -> Seq<Code> {
    match m {
        MatrixSyntax::Copied(d) => seq![Code::Flag(false), Code::Ue(d)],
        MatrixSyntax::Given(v) => seq![Code::Flag(true)] + ses(v),
    }
}

/// The matrix has as many entries as one of its size: 16, 64, and one more for the larger
/// ones.
pub open spec fn matrix_fits(m: MatrixSyntax, size_id: nat) -> bool {
    m matches MatrixSyntax::Given(v) ==> v.len() == (if size_id == 0 {
        16nat
    } else if size_id == 1 {
        64
    } else {
        65
    })
}

pub open spec fn matrices_codes(ms: Seq<MatrixSyntax>) -> Seq<Code>
    decreases ms.len(),
{
    if ms.len() == 0 {
        Seq::empty()
    } else {
        matrices_codes(ms.drop_last()) + matrix_codes(ms.last())
    }
}

/// The scaling matrices, by size.
pub struct ScalingSyntax {
    pub of_4: Seq<MatrixSyntax>,
    pub of_8: Seq<MatrixSyntax>,
    pub of_16: Seq<MatrixSyntax>,
    pub of_32: Seq<MatrixSyntax>,
}

pub open spec fn scaling_codes(s: ScalingSyntax) -> Seq<Code> {
    matrices_codes(s.of_4) + (matrices_codes(s.of_8) + (matrices_codes(s.of_16) + matrices_codes(
        s.of_32,
    )))
}

pub open spec fn scaling_fits(s: ScalingSyntax) -> bool {
    &&& s.of_4.len() == 6
    &&& s.of_8.len() == 6
    &&& s.of_16.len() == 6
    &&& s.of_32.len() == 2
    &&& forall|i: int| 0 <= i < 6 ==> matrix_fits(#[trigger] s.of_4[i], 0)
    &&& forall|i: int| 0 <= i < 6 ==> matrix_fits(#[trigger] s.of_8[i], 1)
    &&& forall|i: int| 0 <= i < 6 ==> matrix_fits(#[trigger] s.of_16[i], 2)
    &&& forall|i: int| 0 <= i < 2 ==> matrix_fits(#[trigger] s.of_32[i], 3)
}

/// Of each sub-layer whether it has a profile and a level.
pub open spec fn layer_codes(layers: Seq<(bool, bool)>) -> Seq<Code>
    decreases layers.len(),
{
    if layers.len() == 0 {
        Seq::empty()
    } else {
        layer_codes(layers.drop_last()) + seq![
            Code::Flag(layers.last().0),
            Code::Flag(layers.last().1),
        ]
    }
}

/// How many bits the profiles and levels of the sub-layers take.
pub open spec fn layers_len(layers: Seq<(bool, bool)>) -> nat
    decreases layers.len(),
{
    if layers.len() == 0 {
        0
    } else {
        layers_len(layers.drop_last()) + (if layers.last().0 {
            96nat
        } else {
            0
        }) + (if layers.last().1 {
            8nat
        } else {
            0
        })
    }
}

/// References are read as they were written.
pub proof fn lemma_refs(r: ReaderModel, refs: Seq<(nat, bool)>)
    requires
        holds(r, ref_codes(refs)),
    ensures
        after_refs(r, refs.len()) == behind(r, ref_codes(refs)),
        forall|i: nat|
            i < refs.len() ==> (#[trigger] after_refs(r, i)).ue() == refs[i as int].0
                && after_refs(r, i).after_ue().flag() == refs[i as int].1,
    decreases refs.len(),
{
    if refs.len() > 0 {
        let front = refs.drop_last();
        let last = seq![Code::Ue(refs.last().0), Code::Flag(refs.last().1)];
        lemma_holds_split(r, ref_codes(front), last);
        lemma_refs(r, front);
        let at = behind(r, ref_codes(front));
        lemma_reads(at, last);
        assert(nth_read(at, last, 0));
        assert(nth_read(at, last, 1));
        assert(after_refs(r, front.len()) == at);
        assert forall|i: nat| i < refs.len() implies (#[trigger] after_refs(r, i)).ue()
            == refs[i as int].0 && after_refs(r, i).after_ue().flag() == refs[i as int].1 by {
            if i < front.len() {
                assert(front[i as int] == refs[i as int]);
            }
        }
    }
}

proof fn lemma_kept(r: ReaderModel, entries: Seq<(bool, bool)>)
    requires
        holds(r, kept_codes(entries)),
    ensures
        after_used_flags(r, entries.len()) == behind(r, kept_codes(entries)),
    decreases entries.len(),
{
    if entries.len() > 0 {
        let front = entries.drop_last();
        let last = if entries.last().0 {
            seq![Code::Flag(true)]
        } else {
            seq![Code::Flag(false), Code::Flag(entries.last().1)]
        };
        lemma_holds_split(r, kept_codes(front), last);
        lemma_kept(r, front);
        let at = behind(r, kept_codes(front));
        lemma_reads(at, last);
        assert(nth_read(at, last, 0));
        if !entries.last().0 {
            assert(nth_read(at, last, 1));
        }
    }
}

/// A reference picture set ends where it was written to end.
pub proof fn lemma_set(r: ReaderModel, s: SetSyntax, idx: nat)
    requires
        holds(r, set_codes(s, idx)),
        set_fits(s, idx),
    ensures
        after_ref_set(r, idx) == behind(r, set_codes(s, idx)),
{
    let first: Seq<Code> = if idx > 0 {
        seq![Code::Flag(s is Predicted)]
    } else {
        Seq::empty()
    };
    match s {
        SetSyntax::Listed { earlier, later } => {
            let counts = seq![Code::Ue(earlier.len()), Code::Ue(later.len())];
            let lists = ref_codes(earlier) + ref_codes(later);
            lemma_holds_split(r, first, counts + lists);
            let d = behind(r, first);
            lemma_reads(r, first);
            if idx > 0 {
                assert(nth_read(r, first, 0));
            } else {
                assert(codes_bits(first).len() == 0);
            }
            lemma_holds_split(d, counts, lists);
            lemma_reads(d, counts);
            assert(nth_read(d, counts, 0));
            assert(nth_read(d, counts, 1));
            crate::hevc::reader::lemma_after_few(d);
            let e = behind(d, counts);
            lemma_holds_split(e, ref_codes(earlier), ref_codes(later));
            lemma_refs(e, earlier);
            lemma_refs(behind(e, ref_codes(earlier)), later);
        },
        SetSyntax::Predicted { from, negative, shift, entries } => {
            let head = seq![Code::Ue(from), Code::Flag(negative), Code::Ue(shift)];
            lemma_holds_split(r, first, head + kept_codes(entries));
            let d = behind(r, first);
            lemma_reads(r, first);
            assert(nth_read(r, first, 0));
            lemma_holds_split(d, head, kept_codes(entries));
            lemma_reads(d, head);
            assert(nth_read(d, head, 0));
            assert(nth_read(d, head, 1));
            assert(nth_read(d, head, 2));
            lemma_kept(behind(d, head), entries);
        },
    }
}

pub proof fn lemma_sets(r: ReaderModel, sets: Seq<SetSyntax>)
    requires
        holds(r, sets_codes(sets)),
        forall|i: int| 0 <= i < sets.len() ==> set_fits(#[trigger] sets[i], i as nat),
    ensures
        after_ref_sets(r, sets.len()) == behind(r, sets_codes(sets)),
    decreases sets.len(),
{
    if sets.len() > 0 {
        let front = sets.drop_last();
        let idx = (sets.len() - 1) as nat;
        lemma_holds_split(r, sets_codes(front), set_codes(sets.last(), idx));
        assert forall|i: int| 0 <= i < front.len() implies set_fits(
            #[trigger] front[i],
            i as nat,
        ) by {
            assert(front[i] == sets[i]);
        }
        lemma_sets(r, front);
        assert(set_fits(sets[idx as int], idx));
        lemma_set(behind(r, sets_codes(front)), sets.last(), idx);
    }
}

proof fn lemma_ses(r: ReaderModel, v: Seq<int>, n: nat)
    requires
        holds(r, ses(v)),
        n <= v.len(),
    ensures
        r.after_ues(n) == behind(r, ses(v).take(n as int)),
    decreases n,
{
    lemma_reads(r, ses(v));
    if n > 0 {
        lemma_ses(r, v, (n - 1) as nat);
        assert(nth_read(r, ses(v), n - 1));
    }
}

proof fn lemma_matrix(r: ReaderModel, m: MatrixSyntax, size_id: nat)
    requires
        holds(r, matrix_codes(m)),
        matrix_fits(m, size_id),
    ensures
        after_matrix(r, size_id) == behind(r, matrix_codes(m)),
{
    match m {
        MatrixSyntax::Copied(d) => {
            let s = matrix_codes(m);
            lemma_reads(r, s);
            assert(nth_read(r, s, 0));
            assert(nth_read(r, s, 1));
        },
        MatrixSyntax::Given(v) => {
            let first = seq![Code::Flag(true)];
            lemma_holds_split(r, first, ses(v));
            lemma_reads(r, first);
            assert(nth_read(r, first, 0));
            let at = behind(r, first);
            lemma_ses(at, v, v.len());
            lemma_reads(at, ses(v));
        },
    }
}

proof fn lemma_matrices(r: ReaderModel, ms: Seq<MatrixSyntax>, size_id: nat)
    requires
        holds(r, matrices_codes(ms)),
        forall|i: int| 0 <= i < ms.len() ==> matrix_fits(#[trigger] ms[i], size_id),
    ensures
        after_matrices(r, size_id, ms.len()) == behind(r, matrices_codes(ms)),
    decreases ms.len(),
{
    if ms.len() > 0 {
        let front = ms.drop_last();
        lemma_holds_split(r, matrices_codes(front), matrix_codes(ms.last()));
        assert forall|i: int| 0 <= i < front.len() implies matrix_fits(
            #[trigger] front[i],
            size_id,
        ) by {
            assert(front[i] == ms[i]);
        }
        lemma_matrices(r, front, size_id);
        assert(matrix_fits(ms[ms.len() - 1], size_id));
        lemma_matrix(behind(r, matrices_codes(front)), ms.last(), size_id);
    }
}

/// The scaling lists end where they were written to end.
pub proof fn lemma_scaling(r: ReaderModel, s: ScalingSyntax)
    requires
        holds(r, scaling_codes(s)),
        scaling_fits(s),
    ensures
        after_scaling(r) == behind(r, scaling_codes(s)),
{
    let (a, b, c, d) = (
        matrices_codes(s.of_4),
        matrices_codes(s.of_8),
        matrices_codes(s.of_16),
        matrices_codes(s.of_32),
    );
    lemma_holds_split(r, a, b + (c + d));
    let r1 = behind(r, a);
    lemma_holds_split(r1, b, c + d);
    let r2 = behind(r1, b);
    lemma_holds_split(r2, c, d);
    let r3 = behind(r2, c);
    lemma_matrices(r, s.of_4, 0);
    lemma_matrices(r1, s.of_8, 1);
    lemma_matrices(r2, s.of_16, 2);
    lemma_matrices(r3, s.of_32, 3);
}

/// What is said of the sub-layers is read as it was written.
pub proof fn lemma_layers(r: ReaderModel, layers: Seq<(bool, bool)>)
    requires
        holds(r, layer_codes(layers)),
    ensures
        behind(r, layer_codes(layers)) == r.skip(2 * (layers.len() as int)),
        sub_layer_bits(r, layers.len()) == layers_len(layers),
    decreases layers.len(),
{
    if layers.len() > 0 {
        let front = layers.drop_last();
        let last = seq![Code::Flag(layers.last().0), Code::Flag(layers.last().1)];
        lemma_holds_split(r, layer_codes(front), last);
        lemma_layers(r, front);
        let at = behind(r, layer_codes(front));
        lemma_reads(at, last);
        assert(nth_read(at, last, 0));
        assert(nth_read(at, last, 1));
    }
}

} // verus!
