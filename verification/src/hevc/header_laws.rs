//! Slice headers are read as they were written, and made-up slices are written by the syntax.
use crate::hevc::bits::{bits_from, number_bits, packs, se_bits, ue_bits};
use crate::hevc::concealment::{
    only_if, slice_begin, slice_bits, stopped, unit_begin, unit_of, with_coding, with_prediction,
    ConcealmentPicParams,
};
use crate::hevc::cursor::after_refs;
use crate::hevc::escape::{escaped, law_unescaping_undoes_escaping};
use crate::hevc::laws::{law_higher_bits_do_not_count, lemma_stands_split, stands_at};
use crate::hevc::params::{
    header_poc, header_pps, header_rps, header_rps_end, slice_header, unit_type, SliceHeaderInfo,
};
use crate::hevc::reader::{lemma_after_few, ReaderModel};
use crate::hevc::refs::{distance, pic_bits, pics_bits, RefPic, RpsModel};
use crate::hevc::set_syntax::{lemma_refs, ref_codes};
use crate::hevc::syntax::{
    behind, code_bits, codes_bits, codes_fit, code_fits, holds, lemma_codes_add, lemma_fixed_then,
    lemma_flag_then, lemma_holds_split, lemma_single, lemma_ue_then, lemma_ues_then, ues,
    unit_begins, Code,
};
use vstd::arithmetic::power2::pow2;
use vstd::prelude::*;

verus! {

/// What is written into a unit and escaped is what its payload begins with.
pub proof fn law_escaped_codes_begin_the_unit(
    nalu: Seq<u8>,
    payload: Seq<u8>,
    codes: Seq<Code>,
    more: Seq<bool>,
)
    requires
        nalu.len() >= 2,
        nalu.skip(2) == escaped(payload),
        packs(payload, codes_bits(codes) + more),
        codes_fit(codes),
    ensures
        unit_begins(nalu, codes),
{
    law_unescaping_undoes_escaping(payload);
    let all = codes_bits(codes) + more;
    assert(bits_from(payload, 0, all.len()) =~= all);
    lemma_stands_split(payload, 0, codes_bits(codes), more);
}

/// The reference picture set of a slice: one that was sent earlier or one of its own.
pub enum HeaderSet {
    Sent(nat),
    Own { earlier: Seq<(nat, bool)>, later: Seq<(nat, bool)> },
}

/// The values of a slice header, as far as they are read.
pub struct HeaderSyntax {
    pub first: bool,
    pub no_output: bool,
    pub pps_id: nat,
    pub dependent: bool,
    pub address: nat,
    pub slice_type: nat,
    pub poc: nat,
    pub set: HeaderSet,
}

impl HeaderSyntax {
    /// Up to the order count, in a unit of type `t`.
    pub open spec fn lead(self, t: u8) -> Seq<Code> {
        let ty = seq![Code::Ue(self.slice_type)] + Seq::empty();
        let place = if self.first {
            ty
        } else {
            seq![Code::Flag(self.dependent)] + (seq![Code::Ue(self.address)] + ty)
        };
        let id = seq![Code::Ue(self.pps_id)] + place;
        seq![Code::Flag(self.first)] + if 16 <= t <= 23 {
            seq![Code::Flag(self.no_output)] + id
        } else {
            id
        }
    }

    /// The order count; pictures that begin the stream anew have none.
    pub open spec fn date(self, t: u8, log2: u8) -> Seq<Code> {
        if t == 19 || t == 20 {
            Seq::empty()
        } else {
            seq![Code::Fixed(self.poc, log2 as nat)] + Seq::empty()
        }
    }

    pub open spec fn set_codes(self) -> Seq<Code> {
        match self.set {
            HeaderSet::Sent(i) => seq![Code::Flag(true)] + (seq![Code::Ue(i)] + Seq::empty()),
            HeaderSet::Own { earlier, later } => seq![Code::Flag(false)] + (ues(
                seq![earlier.len(), later.len()],
            ) + (ref_codes(earlier) + ref_codes(later))),
        }
    }

    pub open spec fn codes(self, t: u8, log2: u8) -> Seq<Code> {
        self.lead(t) + (self.date(t, log2) + self.set_codes())
    }

    /// The set has too many references to be read.
    pub open spec fn overfull(self) -> bool {
        self.set matches HeaderSet::Own { earlier, later } && (earlier.len() > 15 || later.len()
            > 15)
    }
}

proof fn lemma_unit_type(nalu: Seq<u8>, t: u8)
    requires
        nalu.len() >= 1,
        nalu[0] as int / 2 == t,
        t < 64,
    ensures
        unit_type(nalu) == t,
{
    let b = nalu[0];
    assert((b >> 1) & 0x3F == t) by (bit_vector)
        requires
            b / 2 == t,
            t < 64,
    ;
}

proof fn lemma_lead(nalu: Seq<u8>, t: u8, log2: u8, v: HeaderSyntax)
    requires
        unit_type(nalu) == t,
        unit_begins(nalu, v.codes(t, log2)),
    ensures
        header_pps(nalu).ue() == v.pps_id,
        header_poc(nalu) == behind(ReaderModel::of_unit(nalu), v.lead(t)),
        holds(header_poc(nalu), v.date(t, log2) + v.set_codes()),
{
    let r = ReaderModel::of_unit(nalu);
    let none = Seq::<Code>::empty();
    lemma_holds_split(r, v.lead(t), v.date(t, log2) + v.set_codes());
    let ty = seq![Code::Ue(v.slice_type)] + none;
    let place = if v.first {
        ty
    } else {
        seq![Code::Flag(v.dependent)] + (seq![Code::Ue(v.address)] + ty)
    };
    let id = seq![Code::Ue(v.pps_id)] + place;
    if 16 <= t <= 23 {
        lemma_flag_then(r, v.first, seq![Code::Flag(v.no_output)] + id);
        lemma_flag_then(r.skip(1), v.no_output, id);
        assert(r.skip(1).skip(1) == r.skip(2));
    } else {
        lemma_flag_then(r, v.first, id);
    }
    let p = header_pps(nalu);
    lemma_ue_then(p, v.pps_id, place);
    let c = p.after_ue();
    if v.first {
        lemma_ue_then(c, v.slice_type, none);
    } else {
        lemma_flag_then(c, v.dependent, seq![Code::Ue(v.address)] + ty);
        lemma_ue_then(c.skip(1), v.address, ty);
        lemma_ue_then(c.skip(1).after_ue(), v.slice_type, none);
    }
    assert(codes_bits(none).len() == 0);
    assert(behind(header_poc(nalu), none) == header_poc(nalu));
}

proof fn lemma_set_end(c: ReaderModel, v: HeaderSyntax)
    requires
        holds(c, v.set_codes()),
    ensures
        header_rps_end(c) == (if v.overfull() {
            None
        } else {
            Some(behind(c, v.set_codes()))
        }),
{
    let none = Seq::<Code>::empty();
    match v.set {
        HeaderSet::Sent(i) => {
            lemma_flag_then(c, true, seq![Code::Ue(i)] + none);
            lemma_ue_then(c.skip(1), i, none);
            assert(codes_bits(none).len() == 0);
            assert(behind(c.skip(1).after_ue(), none) == c.skip(1).after_ue());
        },
        HeaderSet::Own { earlier, later } => {
            let counts = seq![earlier.len(), later.len()];
            let lists = ref_codes(earlier) + ref_codes(later);
            lemma_flag_then(c, false, ues(counts) + lists);
            let d = c.skip(1);
            lemma_ues_then(d, counts, lists);
            lemma_after_few(d);
            assert(d.after_ues(0).ue() == counts[0]);
            assert(d.after_ues(1).ue() == counts[1]);
            let e = d.after_ues(2);
            lemma_holds_split(e, ref_codes(earlier), ref_codes(later));
            lemma_refs(e, earlier);
            lemma_refs(behind(e, ref_codes(earlier)), later);
        },
    }
}

/// A slice header is read as it was written: the order count and the identifier, and where
/// the order count and the reference picture set stand in the unit, counted from its first
/// bit. A set with more than 15 references on a side is not read.
pub proof fn law_slice_header_is_read(nalu: Seq<u8>, t: u8, log2: u8, v: HeaderSyntax)
    requires
        nalu.len() >= 3,
        t < 64,
        nalu[0] as int / 2 == t,
        unit_begins(nalu, v.codes(t, log2)),
    ensures
        v.overfull() ==> slice_header(nalu, log2) is None,
        !v.overfull() ==> slice_header(nalu, log2) == Some(
            SliceHeaderInfo {
                poc_lsb: if t == 19 || t == 20 {
                    0
                } else {
                    v.poc as u32
                },
                poc_lsb_bit_offset: (16 + codes_bits(v.lead(t)).len()) as usize,
                poc_lsb_len: log2,
                rps_bit_offset: (16 + codes_bits(v.lead(t)).len() + codes_bits(
                    v.date(t, log2),
                ).len()) as usize,
                rps_original_bit_len: codes_bits(v.set_codes()).len() as usize,
                pps_id: v.pps_id as u8,
            },
        ),
{
    lemma_unit_type(nalu, t);
    lemma_lead(nalu, t, log2, v);
    let poc = header_poc(nalu);
    let none = Seq::<Code>::empty();
    lemma_holds_split(poc, v.date(t, log2), v.set_codes());
    if !(t == 19 || t == 20) {
        lemma_fixed_then(poc, v.poc, log2 as nat, none);
        assert(codes_bits(none).len() == 0);
        assert(behind(poc.skip(log2 as int), none) == poc.skip(log2 as int));
    } else {
        assert(codes_bits(none).len() == 0);
        assert(behind(poc, none) == poc);
    }
    assert(header_rps(nalu, log2) == behind(poc, v.date(t, log2)));
    lemma_set_end(header_rps(nalu, log2), v);
}

/// The references of a list as they are written: the distance less one, and whether the
/// reference is used by the current picture.
pub open spec fn written_refs(pics: Seq<RefPic>) -> Seq<(nat, bool)> {
    Seq::new(
        pics.len(),
        |i: int|
            (
                (if distance(pics[i].delta_poc) > 0 {
                    distance(pics[i].delta_poc) - 1
                } else {
                    0
                }) as nat,
                pics[i].used_by_curr,
            ),
    )
}

proof fn lemma_pics_codes(pics: Seq<RefPic>)
    ensures
        pics_bits(pics) == codes_bits(ref_codes(written_refs(pics))),
    decreases pics.len(),
{
    let w = written_refs(pics);
    if pics.len() > 0 {
        let front = pics.drop_last();
        lemma_pics_codes(front);
        assert(w.drop_last() =~= written_refs(front));
        let two = seq![Code::Ue(w.last().0), Code::Flag(w.last().1)];
        lemma_codes_add(ref_codes(w.drop_last()), two);
        assert(two =~= seq![Code::Ue(w.last().0)] + seq![Code::Flag(w.last().1)]);
        lemma_codes_add(seq![Code::Ue(w.last().0)], seq![Code::Flag(w.last().1)]);
        lemma_single(Code::Ue(w.last().0));
        lemma_single(Code::Flag(w.last().1));
        assert(codes_bits(two) =~= pic_bits(pics.last()));
    }
}

proof fn lemma_ref_codes_fit(pics: Seq<RefPic>)
    requires
        forall|i: int| 0 <= i < pics.len() ==> (#[trigger] pics[i]).delta_poc > i32::MIN,
    ensures
        codes_fit(ref_codes(written_refs(pics))),
    decreases pics.len(),
{
    let w = written_refs(pics);
    if pics.len() > 0 {
        let front = pics.drop_last();
        assert(w.drop_last() =~= written_refs(front));
        assert forall|i: int| 0 <= i < front.len() implies (#[trigger] front[i]).delta_poc
            > i32::MIN by {
            assert(front[i] == pics[i]);
        }
        lemma_ref_codes_fit(front);
        assert(pics[pics.len() - 1].delta_poc > i32::MIN);
        let a = ref_codes(w.drop_last());
        let all = ref_codes(w);
        assert forall|i: int| 0 <= i < all.len() implies code_fits(#[trigger] all[i]) by {
            if i < a.len() {
                assert(all[i] == a[i]);
            }
        }
    }
}

/// The codes of the inline form of a reference picture set.
pub open spec fn own_set_codes(rps: RpsModel) -> Seq<Code> {
    seq![Code::Flag(false)] + (ues(seq![rps.negative.len(), rps.positive.len()]) + (ref_codes(
        written_refs(rps.negative),
    ) + ref_codes(written_refs(rps.positive))))
}

proof fn lemma_rps_codes(rps: RpsModel)
    requires
        rps.writable(),
    ensures
        rps.bits() == codes_bits(own_set_codes(rps)),
        codes_fit(own_set_codes(rps)),
{
    let n = ref_codes(written_refs(rps.negative));
    let p = ref_codes(written_refs(rps.positive));
    let counts = ues(seq![rps.negative.len(), rps.positive.len()]);
    let flag = seq![Code::Flag(false)];
    lemma_pics_codes(rps.negative);
    lemma_pics_codes(rps.positive);
    lemma_ref_codes_fit(rps.negative);
    lemma_ref_codes_fit(rps.positive);
    lemma_codes_add(n, p);
    lemma_codes_add(counts, n + p);
    lemma_codes_add(flag, counts + (n + p));
    lemma_single(Code::Flag(false));
    let (x, y) = (Code::Ue(rps.negative.len()), Code::Ue(rps.positive.len()));
    assert(counts =~= seq![x] + seq![y]);
    lemma_codes_add(seq![x], seq![y]);
    lemma_single(x);
    lemma_single(y);
    assert(rps.bits() =~= codes_bits(own_set_codes(rps)));
    let all = own_set_codes(rps);
    assert forall|i: int| 0 <= i < all.len() implies code_fits(#[trigger] all[i]) by {
        if i >= 3 + n.len() {
            assert(all[i] == p[i - 3 - n.len()]);
        } else if i >= 3 {
            assert(all[i] == n[i - 3]);
        }
    }
}

/// Whoever reads the inline form of a reference picture set finds no prediction, the number
/// of earlier and of later references, and of each in its order the distance from the
/// current picture less one and whether it is used by it. Reading ends where the form does.
pub proof fn law_reference_set_is_read(r: ReaderModel, rps: RpsModel)
    requires
        rps.writable(),
        stands_at(r.bytes, r.pos, rps.bits()),
    ensures
        ({
            let counts = r.skip(1);
            let earlier = counts.after_ue().after_ue();
            let later = after_refs(earlier, rps.negative.len());
            &&& !r.flag()
            &&& counts.ue() == rps.negative.len()
            &&& counts.after_ue().ue() == rps.positive.len()
            &&& forall|i: nat|
                i < rps.negative.len() ==> {
                    let at = #[trigger] after_refs(earlier, i);
                    let pic = rps.negative[i as int];
                    &&& pic.delta_poc < 0 ==> at.ue() == -pic.delta_poc - 1
                    &&& pic.delta_poc > 0 ==> at.ue() == pic.delta_poc - 1
                    &&& at.after_ue().flag() <==> pic.used_by_curr
                }
            &&& forall|i: nat|
                i < rps.positive.len() ==> {
                    let at = #[trigger] after_refs(later, i);
                    let pic = rps.positive[i as int];
                    &&& pic.delta_poc < 0 ==> at.ue() == -pic.delta_poc - 1
                    &&& pic.delta_poc > 0 ==> at.ue() == pic.delta_poc - 1
                    &&& at.after_ue().flag() <==> pic.used_by_curr
                }
            &&& after_refs(later, rps.positive.len()).pos == r.pos + rps.bits().len()
        }),
{
    lemma_rps_codes(rps);
    let n = written_refs(rps.negative);
    let p = written_refs(rps.positive);
    let both = seq![rps.negative.len(), rps.positive.len()];
    let lists = ref_codes(n) + ref_codes(p);
    lemma_flag_then(r, false, ues(both) + lists);
    let c = r.skip(1);
    lemma_ues_then(c, both, lists);
    lemma_after_few(c);
    assert(c.after_ues(0).ue() == both[0]);
    assert(c.after_ues(1).ue() == both[1]);
    let e = c.after_ues(2);
    lemma_holds_split(e, ref_codes(n), ref_codes(p));
    lemma_refs(e, n);
    lemma_refs(behind(e, ref_codes(n)), p);
}

/// The code where it is present.
pub open spec fn where_present(present: bool, c: Code) -> Seq<Code> {
    if present {
        seq![c]
    } else {
        Seq::empty()
    }
}

/// The codes of a slice that stands in for a picture, by the syntax of a slice header: the
/// first slice of its picture, predicted from earlier pictures, with its order count and a
/// reference picture set of its own; no long-term references, no temporal prediction, no
/// offsets, the usual number of references, one merge candidate, the usual quantiser and
/// filters; then one byte.
pub open spec fn made_up_codes(
    pps_id: u8,
    poc_lsb: u32,
    log2: u8,
    rps: RpsModel,
    params: ConcealmentPicParams,
) -> Seq<Code> {
    let long_term = params.slice_parsing_fields & 2 != 0;
    let entries = params.pic_fields & 3 != 0;
    let extension = params.slice_parsing_fields & 0x1000 != 0;
    seq![Code::Flag(true)] + seq![Code::Ue(pps_id as nat)] + seq![Code::Ue(1)] + seq![
        Code::Fixed(poc_lsb as nat % pow2(log2 as nat), log2 as nat),
    ] + seq![Code::Flag(false)] + own_set_codes(rps) + where_present(long_term, Code::Ue(0))
        + where_present(long_term, Code::Ue(0)) + where_present(
        params.sps_temporal_mvp_enabled,
        Code::Flag(false),
    ) + where_present(params.sao_enabled, Code::Flag(false)) + where_present(
        params.sao_enabled,
        Code::Flag(false),
    ) + seq![Code::Flag(false)] + where_present(params.cabac_init_present, Code::Flag(false))
        + seq![Code::Ue(4)] + seq![Code::Se(0)] + where_present(
        params.slice_chroma_qp_offsets_present,
        Code::Se(0),
    ) + where_present(params.slice_chroma_qp_offsets_present, Code::Se(0)) + where_present(
        params.deblocking_filter_override_enabled,
        Code::Flag(false),
    ) + where_present(entries, Code::Ue(0)) + where_present(extension, Code::Ue(0)) + seq![
        Code::Fixed(0, 8),
    ]
}

proof fn lemma_where(a: Seq<Code>, bits: Seq<bool>, present: bool, c: Code)
    requires
        codes_bits(a) == bits,
    ensures
        codes_bits(a + where_present(present, c)) == bits + only_if(present, code_bits(c)),
{
    lemma_codes_add(a, where_present(present, c));
    lemma_single(c);
    assert(codes_bits(Seq::<Code>::empty()) =~= Seq::<bool>::empty());
}

proof fn lemma_always(a: Seq<Code>, bits: Seq<bool>, c: Code)
    requires
        codes_bits(a) == bits,
    ensures
        codes_bits(a + seq![c]) == bits + code_bits(c),
{
    lemma_codes_add(a, seq![c]);
    lemma_single(c);
}

/// The bits of a slice that stands in for a picture are those of its codes.
pub proof fn law_made_up_slice_follows_the_syntax(
    pps_id: u8,
    poc_lsb: u32,
    log2: u8,
    rps: RpsModel,
    params: ConcealmentPicParams,
)
    requires
        rps.writable(),
    ensures
        slice_bits(pps_id, poc_lsb, log2, rps, params) == codes_bits(
            made_up_codes(pps_id, poc_lsb, log2, rps, params),
        ),
{
    let long_term = params.slice_parsing_fields & 2 != 0;
    let a0 = seq![Code::Flag(true)];
    let b0 = seq![true];
    lemma_single(Code::Flag(true));
    let a1 = a0 + seq![Code::Ue(pps_id as nat)];
    let b1 = b0 + ue_bits(pps_id as nat);
    lemma_always(a0, b0, Code::Ue(pps_id as nat));
    let a2 = a1 + seq![Code::Ue(1)];
    let b2 = b1 + ue_bits(1);
    lemma_always(a1, b1, Code::Ue(1));
    let lsb = poc_lsb as nat % pow2(log2 as nat);
    let a3 = a2 + seq![Code::Fixed(lsb, log2 as nat)];
    let b3 = b2 + number_bits(poc_lsb as nat, log2 as nat);
    law_higher_bits_do_not_count(poc_lsb as nat, log2 as nat);
    vstd::arithmetic::power2::lemma_pow2_pos(log2 as nat);
    lemma_always(a2, b2, Code::Fixed(lsb, log2 as nat));
    let a4 = a3 + seq![Code::Flag(false)];
    let b4 = b3 + seq![false];
    lemma_always(a3, b3, Code::Flag(false));
    assert(b4 == slice_begin(pps_id, poc_lsb, log2));
    let a5 = a4 + own_set_codes(rps);
    let b5 = b4 + rps.bits();
    lemma_rps_codes(rps);
    lemma_codes_add(a4, own_set_codes(rps));
    lemma_made_up_prediction(a5, b5, params);
    let a6 = a5 + where_present(long_term, Code::Ue(0)) + where_present(long_term, Code::Ue(0))
        + where_present(params.sps_temporal_mvp_enabled, Code::Flag(false)) + where_present(
        params.sao_enabled,
        Code::Flag(false),
    ) + where_present(params.sao_enabled, Code::Flag(false)) + seq![Code::Flag(false)]
        + where_present(params.cabac_init_present, Code::Flag(false));
    lemma_made_up_coding(a6, with_prediction(b5, params), params);
}

proof fn lemma_made_up_prediction(a: Seq<Code>, b: Seq<bool>, params: ConcealmentPicParams)
    requires
        codes_bits(a) == b,
    ensures
        ({
            let long_term = params.slice_parsing_fields & 2 != 0;
            codes_bits(
                a + where_present(long_term, Code::Ue(0)) + where_present(long_term, Code::Ue(0))
                    + where_present(params.sps_temporal_mvp_enabled, Code::Flag(false))
                    + where_present(params.sao_enabled, Code::Flag(false)) + where_present(
                    params.sao_enabled,
                    Code::Flag(false),
                ) + seq![Code::Flag(false)] + where_present(
                    params.cabac_init_present,
                    Code::Flag(false),
                ),
            ) == with_prediction(b, params)
        }),
{
    let l = params.slice_parsing_fields & 2 != 0;
    let z = ue_bits(0);
    let f = seq![false];
    let a1 = a + where_present(l, Code::Ue(0));
    let b1 = b + only_if(l, z);
    lemma_where(a, b, l, Code::Ue(0));
    let a2 = a1 + where_present(l, Code::Ue(0));
    let b2 = b1 + only_if(l, z);
    lemma_where(a1, b1, l, Code::Ue(0));
    let a3 = a2 + where_present(params.sps_temporal_mvp_enabled, Code::Flag(false));
    let b3 = b2 + only_if(params.sps_temporal_mvp_enabled, f);
    lemma_where(a2, b2, params.sps_temporal_mvp_enabled, Code::Flag(false));
    let a4 = a3 + where_present(params.sao_enabled, Code::Flag(false));
    let b4 = b3 + only_if(params.sao_enabled, f);
    lemma_where(a3, b3, params.sao_enabled, Code::Flag(false));
    let a5 = a4 + where_present(params.sao_enabled, Code::Flag(false));
    let b5 = b4 + only_if(params.sao_enabled, f);
    lemma_where(a4, b4, params.sao_enabled, Code::Flag(false));
    let a6 = a5 + seq![Code::Flag(false)];
    let b6 = b5 + f;
    lemma_always(a5, b5, Code::Flag(false));
    lemma_where(a6, b6, params.cabac_init_present, Code::Flag(false));
}

proof fn lemma_made_up_coding(a: Seq<Code>, b: Seq<bool>, params: ConcealmentPicParams)
    requires
        codes_bits(a) == b,
    ensures
        ({
            let entries = params.pic_fields & 3 != 0;
            let extension = params.slice_parsing_fields & 0x1000 != 0;
            codes_bits(
                a + seq![Code::Ue(4)] + seq![Code::Se(0)] + where_present(
                    params.slice_chroma_qp_offsets_present,
                    Code::Se(0),
                ) + where_present(params.slice_chroma_qp_offsets_present, Code::Se(0))
                    + where_present(params.deblocking_filter_override_enabled, Code::Flag(false))
                    + where_present(entries, Code::Ue(0)) + where_present(extension, Code::Ue(0))
                    + seq![Code::Fixed(0, 8)],
            ) == with_coding(b, params)
        }),
{
    let entries = params.pic_fields & 3 != 0;
    let extension = params.slice_parsing_fields & 0x1000 != 0;
    let chroma = params.slice_chroma_qp_offsets_present;
    let deblocking = params.deblocking_filter_override_enabled;
    let a1 = a + seq![Code::Ue(4)];
    let b1 = b + ue_bits(4);
    lemma_always(a, b, Code::Ue(4));
    let a2 = a1 + seq![Code::Se(0)];
    let b2 = b1 + se_bits(0);
    lemma_always(a1, b1, Code::Se(0));
    let a3 = a2 + where_present(chroma, Code::Se(0));
    let b3 = b2 + only_if(chroma, se_bits(0));
    lemma_where(a2, b2, chroma, Code::Se(0));
    let a4 = a3 + where_present(chroma, Code::Se(0));
    let b4 = b3 + only_if(chroma, se_bits(0));
    lemma_where(a3, b3, chroma, Code::Se(0));
    let a5 = a4 + where_present(deblocking, Code::Flag(false));
    let b5 = b4 + only_if(deblocking, seq![false]);
    lemma_where(a4, b4, deblocking, Code::Flag(false));
    let a6 = a5 + where_present(entries, Code::Ue(0));
    let b6 = b5 + only_if(entries, ue_bits(0));
    lemma_where(a5, b5, entries, Code::Ue(0));
    let a7 = a6 + where_present(extension, Code::Ue(0));
    let b7 = b6 + only_if(extension, ue_bits(0));
    lemma_where(a6, b6, extension, Code::Ue(0));
    lemma_always(a7, b7, Code::Fixed(0, 8));
}

proof fn lemma_fit_add(a: Seq<Code>, b: Seq<Code>)
    requires
        codes_fit(a),
        codes_fit(b),
    ensures
        codes_fit(a + b),
{
    let all = a + b;
    assert forall|i: int| 0 <= i < all.len() implies code_fits(#[trigger] all[i]) by {
        if i < a.len() {
            assert(all[i] == a[i]);
        } else {
            assert(all[i] == b[i - a.len()]);
        }
    }
}

proof fn lemma_made_up_fit(
    pps_id: u8,
    poc_lsb: u32,
    log2: u8,
    rps: RpsModel,
    params: ConcealmentPicParams,
)
    requires
        rps.writable(),
        log2 <= 32,
    ensures
        codes_fit(made_up_codes(pps_id, poc_lsb, log2, rps, params)),
{
    let long_term = params.slice_parsing_fields & 2 != 0;
    let entries = params.pic_fields & 3 != 0;
    let extension = params.slice_parsing_fields & 0x1000 != 0;
    let lsb = poc_lsb as nat % pow2(log2 as nat);
    vstd::arithmetic::power2::lemma_pow2_pos(log2 as nat);
    vstd::arithmetic::power2::lemma_pow2_pos(8);
    lemma_rps_codes(rps);
    let begin = seq![Code::Flag(true)] + seq![Code::Ue(pps_id as nat)] + seq![Code::Ue(1)] + seq![
        Code::Fixed(lsb, log2 as nat),
    ] + seq![Code::Flag(false)];
    assert(codes_fit(begin));
    let a0 = begin + own_set_codes(rps);
    lemma_fit_add(begin, own_set_codes(rps));
    let a1 = a0 + where_present(long_term, Code::Ue(0));
    lemma_fit_add(a0, where_present(long_term, Code::Ue(0)));
    let a2 = a1 + where_present(long_term, Code::Ue(0));
    lemma_fit_add(a1, where_present(long_term, Code::Ue(0)));
    let a3 = a2 + where_present(params.sps_temporal_mvp_enabled, Code::Flag(false));
    lemma_fit_add(a2, where_present(params.sps_temporal_mvp_enabled, Code::Flag(false)));
    let a4 = a3 + where_present(params.sao_enabled, Code::Flag(false));
    lemma_fit_add(a3, where_present(params.sao_enabled, Code::Flag(false)));
    let a5 = a4 + where_present(params.sao_enabled, Code::Flag(false));
    lemma_fit_add(a4, where_present(params.sao_enabled, Code::Flag(false)));
    let a6 = a5 + seq![Code::Flag(false)];
    lemma_fit_add(a5, seq![Code::Flag(false)]);
    let a7 = a6 + where_present(params.cabac_init_present, Code::Flag(false));
    lemma_fit_add(a6, where_present(params.cabac_init_present, Code::Flag(false)));
    let a8 = a7 + seq![Code::Ue(4)];
    lemma_fit_add(a7, seq![Code::Ue(4)]);
    let a9 = a8 + seq![Code::Se(0)];
    lemma_fit_add(a8, seq![Code::Se(0)]);
    let b1 = a9 + where_present(params.slice_chroma_qp_offsets_present, Code::Se(0));
    lemma_fit_add(a9, where_present(params.slice_chroma_qp_offsets_present, Code::Se(0)));
    let b2 = b1 + where_present(params.slice_chroma_qp_offsets_present, Code::Se(0));
    lemma_fit_add(b1, where_present(params.slice_chroma_qp_offsets_present, Code::Se(0)));
    let b3 = b2 + where_present(params.deblocking_filter_override_enabled, Code::Flag(false));
    lemma_fit_add(b2, where_present(params.deblocking_filter_override_enabled, Code::Flag(false)));
    let b4 = b3 + where_present(entries, Code::Ue(0));
    lemma_fit_add(b3, where_present(entries, Code::Ue(0)));
    let b5 = b4 + where_present(extension, Code::Ue(0));
    lemma_fit_add(b4, where_present(extension, Code::Ue(0)));
    lemma_fit_add(b5, seq![Code::Fixed(0, 8)]);
}

/// A unit that was made up for a picture has a start code, says that it holds a slice that
/// may be referred to, and whoever reads it by the syntax finds the codes that belong there.
pub proof fn law_made_up_unit_is_read(
    nalu: Seq<u8>,
    pps_id: u8,
    poc_lsb: u32,
    log2: u8,
    rps: RpsModel,
    params: ConcealmentPicParams,
)
    requires
        rps.writable(),
        log2 <= 32,
        unit_of(nalu, slice_bits(pps_id, poc_lsb, log2, rps, params)),
    ensures
        nalu.len() >= 6,
        nalu.take(4) == seq![0u8, 0u8, 0u8, 1u8],
        unit_type(nalu.skip(4)) == 1,
        unit_begins(nalu.skip(4), made_up_codes(pps_id, poc_lsb, log2, rps, params)),
{
    let bits = slice_bits(pps_id, poc_lsb, log2, rps, params);
    let codes = made_up_codes(pps_id, poc_lsb, log2, rps, params);
    let rbsp = choose|rbsp: Seq<u8>| #[trigger]
        packs(rbsp, stopped(bits)) && nalu == unit_begin() + escaped(rbsp);
    let unit = nalu.skip(4);
    assert(nalu.take(4) =~= seq![0u8, 0u8, 0u8, 1u8]);
    assert(unit =~= seq![2u8, 1u8] + escaped(rbsp));
    assert(unit.skip(2) =~= escaped(rbsp));
    lemma_unit_type(unit, 1);
    law_made_up_slice_follows_the_syntax(pps_id, poc_lsb, log2, rps, params);
    lemma_made_up_fit(pps_id, poc_lsb, log2, rps, params);
    let more = stopped(bits).skip(bits.len() as int);
    assert(stopped(bits) =~= codes_bits(codes) + more);
    law_escaped_codes_begin_the_unit(unit, rbsp, codes, more);
}

/// What is left of a set when it is cut down to a size is the beginning of both lists, fits,
/// and is the whole set where that fits.
pub proof fn law_set_is_cut_from_the_end(rps: RpsModel, max_bits: nat)
    ensures
        rps.bits().len() <= max_bits ==> rps.compact_bits(max_bits) == Some(rps.bits()),
        rps.compact_bits(max_bits) is Some ==> exists|a: int, b: int| #[trigger]
            kept_part(rps, rps.compact_bits(max_bits)->0, max_bits, a, b),
        rps.compact_bits(max_bits) is None ==> (RpsModel {
            negative: Seq::empty(),
            positive: Seq::empty(),
        }).bits().len() > max_bits,
    decreases rps.negative.len() + rps.positive.len(),
{
    if rps.bits().len() <= max_bits {
        let (a, b) = (rps.negative.len() as int, rps.positive.len() as int);
        assert(rps.negative.take(a) =~= rps.negative);
        assert(rps.positive.take(b) =~= rps.positive);
        assert(kept_part(rps, rps.compact_bits(max_bits)->0, max_bits, a, b)) by {
            assert(rps.compact_bits(max_bits) == Some(rps.bits()));
        }
    } else if rps.empty() {
        assert(rps.negative =~= Seq::<RefPic>::empty());
        assert(rps.positive =~= Seq::<RefPic>::empty());
        assert(rps =~= (RpsModel { negative: Seq::empty(), positive: Seq::empty() }));
    } else {
        let less = rps.reduced();
        law_set_is_cut_from_the_end(less, max_bits);
        if less.compact_bits(max_bits) is Some {
            let bits = less.compact_bits(max_bits)->0;
            let (a, b) = choose|a: int, b: int| #[trigger]
                kept_part(less, bits, max_bits, a, b);
            assert(kept_part(less, bits, max_bits, a, b));
            assert(less.negative.take(a) =~= rps.negative.take(a));
            assert(less.positive.take(b) =~= rps.positive.take(b));
            assert(kept_part(rps, bits, max_bits, a, b));
            assert(rps.compact_bits(max_bits) == less.compact_bits(max_bits));
            assert(kept_part(rps, rps.compact_bits(max_bits)->0, max_bits, a, b));
        }
    }
}

/// The bits are those of the first references of a set, `a` earlier and `b` later ones.
pub open spec fn kept_part(rps: RpsModel, bits: Seq<bool>, max_bits: nat, a: int, b: int) -> bool {
    &&& 0 <= a <= rps.negative.len()
    &&& 0 <= b <= rps.positive.len()
    &&& bits == (RpsModel { negative: rps.negative.take(a), positive: rps.positive.take(b) }).bits()
    &&& bits.len() <= max_bits
}

/// A slice ends with a bit that is set, and nothing but zeros up to the end of its last byte
/// follow it: fewer than eight of them.
pub proof fn law_slice_ends_with_a_stop_bit(bits: Seq<bool>)
    ensures
        ({
            let all = stopped(bits);
            let n = bits.len() as int;
            &&& all.len() % 8 == 0
            &&& n + 1 <= all.len() < n + 9
            &&& all.take(n) == bits
            &&& all[n]
            &&& forall|i: int| n < i < all.len() ==> !#[trigger] all[i]
        }),
{
    assert(stopped(bits).take(bits.len() as int) =~= bits);
}

/// What was written before the stop bit can be told from what stands behind it: different
/// slices end differently.
pub proof fn law_stop_bit_tells_the_end(a: Seq<bool>, b: Seq<bool>)
    requires
        stopped(a) == stopped(b),
    ensures
        a == b,
{
    law_slice_ends_with_a_stop_bit(a);
    law_slice_ends_with_a_stop_bit(b);
    let all = stopped(a);
    if a.len() < b.len() {
        assert(all[b.len() as int]);
    }
    if b.len() < a.len() {
        assert(all[a.len() as int]);
    }
    assert(a =~= b);
}

} // verus!
