//! A sequence parameter set is read as it was written.
use crate::hevc::params::{
    sps_blocks, sps_buffering, sps_last, sps_long_term, sps_orderings, sps_poc_bits, sps_ref_sets,
    sps_sub_layers, sps_tools, SpsFields,
};
use crate::hevc::reader::ReaderModel;
use crate::hevc::set_syntax::{
    layer_codes, layers_len, lemma_layers, lemma_scaling, lemma_sets, scaling_codes, scaling_fits,
    set_fits, sets_codes, ScalingSyntax, SetSyntax,
};
use crate::hevc::syntax::{
    behind, holds, lemma_fixed_then, lemma_flag_then, lemma_holds_split, lemma_raw_then,
    lemma_reads, lemma_ue_then, lemma_ues_then, nth_read, ues, unit_begins, Code,
};
use vstd::prelude::*;

verus! {

/// The values of a sequence parameter set.
pub struct SpsSyntax {
    pub vps_id: nat,
    pub nesting: bool,
    /// Profile, tier and level.
    pub profile: Seq<bool>,
    /// Of each further sub-layer whether it has a profile and a level.
    pub layers: Seq<(bool, bool)>,
    /// The profiles and levels of the sub-layers.
    pub layer_profiles: Seq<bool>,
    pub id: nat,
    pub chroma_format: nat,
    pub separate_planes: bool,
    pub width: nat,
    pub height: nat,
    /// The left, right, top and bottom offset of the window that is shown.
    pub window: Option<(nat, nat, nat, nat)>,
    pub luma_depth: nat,
    pub chroma_depth: nat,
    pub log2_poc: nat,
    pub layer_ordering: bool,
    /// For each ordering the buffer size, the reordering and the latency.
    pub orderings: Seq<nat>,
    pub min_coding: nat,
    pub diff_coding: nat,
    pub min_transform: nat,
    pub diff_transform: nat,
    pub depth_inter: nat,
    pub depth_intra: nat,
    pub scaling: Option<Option<ScalingSyntax>>,
    pub amp: bool,
    pub sao: bool,
    /// The depths, the sizes and the loop filter of uncompressed blocks.
    pub pcm: Option<(nat, nat, nat, nat, bool)>,
    pub sets: Seq<SetSyntax>,
    /// The long-term references, each an order count and a flag.
    pub long_term: Option<Seq<(Seq<bool>, bool)>>,
    pub temporal_mvp: bool,
    pub strong_smoothing: bool,
}

/// The long-term references one behind the other.
pub open spec fn long_term_codes(refs: Seq<(Seq<bool>, bool)>) -> Seq<Code>
    decreases refs.len(),
{
    if refs.len() == 0 {
        Seq::empty()
    } else {
        long_term_codes(refs.drop_last()) + seq![Code::Raw(refs.last().0), Code::Flag(refs.last().1)]
    }
}

impl SpsSyntax {
    /// The numbers of entries fit together.
    pub open spec fn fits(self) -> bool {
        &&& self.profile.len() == 96
        &&& self.layers.len() <= 7
        &&& self.layer_profiles.len() == layers_len(self.layers)
        &&& self.orderings.len() == 3 * (if self.layer_ordering {
            self.layers.len() + 1
        } else {
            1
        })
        &&& self.scaling matches Some(Some(s)) ==> scaling_fits(s)
        &&& self.sets.len() <= 255
        &&& forall|i: int| 0 <= i < self.sets.len() ==> set_fits(#[trigger] self.sets[i], i as nat)
        &&& self.log2_poc <= 255
        &&& self.long_term matches Some(refs) ==> forall|i: int|
            0 <= i < refs.len() ==> (#[trigger] refs[i]).0.len() == self.log2_poc + 4
    }

    pub open spec fn scaling_codes(self, rest: Seq<Code>) -> Seq<Code> {
        match self.scaling {
            None => seq![Code::Flag(false)] + rest,
            Some(None) => seq![Code::Flag(true)] + (seq![Code::Flag(false)] + rest),
            Some(Some(s)) => seq![Code::Flag(true)] + (seq![Code::Flag(true)] + (scaling_codes(s)
                + rest)),
        }
    }

    pub open spec fn pcm_codes(self, rest: Seq<Code>) -> Seq<Code> {
        match self.pcm {
            None => seq![Code::Flag(false)] + rest,
            Some(p) => seq![Code::Flag(true)] + (seq![Code::Fixed(p.0, 4)] + (seq![
                Code::Fixed(p.1, 4),
            ] + (ues(seq![p.2, p.3]) + (seq![Code::Flag(p.4)] + rest)))),
        }
    }

    pub open spec fn long_term_codes(self, rest: Seq<Code>) -> Seq<Code> {
        match self.long_term {
            None => seq![Code::Flag(false)] + rest,
            Some(refs) => seq![Code::Flag(true)] + (seq![Code::Ue(refs.len())] + (long_term_codes(
                refs,
            ) + rest)),
        }
    }

    pub open spec fn last_codes(self) -> Seq<Code> {
        seq![Code::Flag(self.temporal_mvp)] + (seq![Code::Flag(self.strong_smoothing)]
            + Seq::empty())
    }

    /// From the number of reference picture sets on.
    pub open spec fn reference_codes(self) -> Seq<Code> {
        seq![Code::Ue(self.sets.len())] + (sets_codes(self.sets) + self.long_term_codes(
            self.last_codes(),
        ))
    }

    /// From the flags behind the scaling lists on.
    pub open spec fn tool_codes(self) -> Seq<Code> {
        seq![Code::Flag(self.amp)] + (seq![Code::Flag(self.sao)] + self.pcm_codes(
            self.reference_codes(),
        ))
    }

    pub open spec fn block_values(self) -> Seq<nat> {
        seq![
            self.min_coding,
            self.diff_coding,
            self.min_transform,
            self.diff_transform,
            self.depth_inter,
            self.depth_intra,
        ]
    }

    /// From the buffer sizes on.
    pub open spec fn tail_codes(self) -> Seq<Code> {
        ues(self.orderings) + (ues(self.block_values()) + self.scaling_codes(self.tool_codes()))
    }

    pub open spec fn plane_codes(self, rest: Seq<Code>) -> Seq<Code> {
        if self.chroma_format == 3 {
            seq![Code::Flag(self.separate_planes)] + rest
        } else {
            rest
        }
    }

    pub open spec fn window_codes(self, rest: Seq<Code>) -> Seq<Code> {
        match self.window {
            Some(w) => seq![Code::Flag(true)] + (ues(seq![w.0, w.1, w.2, w.3]) + rest),
            None => seq![Code::Flag(false)] + rest,
        }
    }

    /// From the bit depths on.
    pub open spec fn depth_codes(self) -> Seq<Code> {
        ues(seq![self.luma_depth, self.chroma_depth]) + (seq![Code::Ue(self.log2_poc)] + (seq![
            Code::Flag(self.layer_ordering),
        ] + self.tail_codes()))
    }

    /// From the identifier on.
    pub open spec fn size_codes(self) -> Seq<Code> {
        seq![Code::Ue(self.id)] + (seq![Code::Ue(self.chroma_format)] + self.plane_codes(
            ues(seq![self.width, self.height]) + self.window_codes(self.depth_codes()),
        ))
    }

    /// The set by the syntax of the standard.
    pub open spec fn codes(self) -> Seq<Code> {
        seq![Code::Fixed(self.vps_id, 4)] + (seq![Code::Fixed(self.layers.len(), 3)] + (seq![
            Code::Flag(self.nesting),
        ] + (seq![Code::Raw(self.profile)] + (layer_codes(self.layers) + (seq![
            Code::Raw(self.layer_profiles),
        ] + self.size_codes())))))
    }
}

/// Up to the number of bits of an order count, whatever window and sub-layers there are.
proof fn lemma_head(nalu: Seq<u8>, v: SpsSyntax)
    requires
        v.fits(),
        unit_begins(nalu, v.codes()),
    ensures
        sps_sub_layers(nalu) == v.layers.len(),
        sps_poc_bits(nalu).ue() == v.log2_poc,
        sps_poc_bits(nalu).after_ue().flag() == v.layer_ordering,
        holds(sps_buffering(nalu), v.tail_codes()),
{
    let r = ReaderModel::of_unit(nalu);
    let c5 = seq![Code::Raw(v.layer_profiles)] + v.size_codes();
    let c4 = layer_codes(v.layers) + c5;
    let c3 = seq![Code::Raw(v.profile)] + c4;
    let c2 = seq![Code::Flag(v.nesting)] + c3;
    let c1 = seq![Code::Fixed(v.layers.len(), 3)] + c2;
    lemma_fixed_then(r, v.vps_id, 4, c1);
    lemma_fixed_then(r.skip(4), v.layers.len(), 3, c2);
    lemma_flag_then(r.skip(4).skip(3), v.nesting, c3);
    let p = r.skip(8);
    assert(r.skip(4).skip(3).skip(1) == p);
    lemma_raw_then(p, v.profile, c4);
    let d = p.skip(96);
    lemma_holds_split(d, layer_codes(v.layers), c5);
    lemma_layers(d, v.layers);
    let e = behind(d, layer_codes(v.layers));
    lemma_raw_then(e, v.layer_profiles, v.size_codes());
    lemma_size(nalu, v, e.skip(v.layer_profiles.len() as int));
}

proof fn lemma_size(nalu: Seq<u8>, v: SpsSyntax, at: ReaderModel)
    requires
        v.fits(),
        holds(at, v.size_codes()),
        at == crate::hevc::cursor::after_profile(
            ReaderModel::of_unit(nalu).skip(8),
            true,
            sps_sub_layers(nalu) as nat,
        ),
    ensures
        sps_poc_bits(nalu).ue() == v.log2_poc,
        sps_poc_bits(nalu).after_ue().flag() == v.layer_ordering,
        holds(sps_buffering(nalu), v.tail_codes()),
{
    let dims = seq![v.width, v.height];
    let rest = ues(dims) + v.window_codes(v.depth_codes());
    lemma_ue_then(at, v.id, seq![Code::Ue(v.chroma_format)] + v.plane_codes(rest));
    let chroma = at.after_ue();
    lemma_ue_then(chroma, v.chroma_format, v.plane_codes(rest));
    if v.chroma_format == 3 {
        lemma_flag_then(chroma.after_ue(), v.separate_planes, rest);
    }
    let size = if chroma.ue() == 3 {
        chroma.after_ue().skip(1)
    } else {
        chroma.after_ue()
    };
    lemma_ues_then(size, dims, v.window_codes(v.depth_codes()));
    let window = size.after_ues(2);
    match v.window {
        Some(w) => {
            let offsets = seq![w.0, w.1, w.2, w.3];
            lemma_flag_then(window, true, ues(offsets) + v.depth_codes());
            lemma_ues_then(window.skip(1), offsets, v.depth_codes());
        },
        None => {
            lemma_flag_then(window, false, v.depth_codes());
        },
    }
    let depths = if window.flag() {
        window.skip(1).after_ues(4)
    } else {
        window.skip(1)
    };
    let both = seq![v.luma_depth, v.chroma_depth];
    let more = seq![Code::Flag(v.layer_ordering)] + v.tail_codes();
    lemma_ues_then(depths, both, seq![Code::Ue(v.log2_poc)] + more);
    let poc = depths.after_ues(2);
    lemma_ue_then(poc, v.log2_poc, more);
    lemma_flag_then(poc.after_ue(), v.layer_ordering, v.tail_codes());
}

/// The number of bits of an order count is read from a sequence parameter set as it was
/// written, with and without a window, sub-layers and separate planes.
pub proof fn law_order_count_bits_are_read(nalu: Seq<u8>, v: SpsSyntax)
    requires
        v.fits(),
        unit_begins(nalu, v.codes()),
    ensures
        sps_poc_bits(nalu).ue() as u8 == v.log2_poc,
{
    lemma_head(nalu, v);
}

/// What stands at the block sizes and behind them.
proof fn lemma_tail(nalu: Seq<u8>, v: SpsSyntax)
    requires
        v.fits(),
        unit_begins(nalu, v.codes()),
    ensures
        sps_orderings(nalu) * 3 == v.orderings.len(),
        sps_buffering(nalu).after_ues((v.orderings.len() - 3) as nat).ue() == v.orderings[
            v.orderings.len() - 3],
        sps_blocks(nalu).ue() == v.min_coding,
        sps_blocks(nalu).after_ues(1).ue() == v.diff_coding,
        sps_blocks(nalu).after_ues(2).ue() == v.min_transform,
        sps_blocks(nalu).after_ues(3).ue() == v.diff_transform,
        sps_blocks(nalu).after_ues(4).ue() == v.depth_inter,
        sps_blocks(nalu).after_ues(5).ue() == v.depth_intra,
        sps_blocks(nalu).after_ues(6).flag() == v.scaling is Some,
        holds(sps_tools(nalu), v.tool_codes()),
{
    lemma_head(nalu, v);
    let r = sps_buffering(nalu);
    let tools = v.tool_codes();
    let blocks = v.block_values();
    lemma_ues_then(r, v.orderings, ues(blocks) + v.scaling_codes(tools));
    let b = sps_blocks(nalu);
    assert(b == r.after_ues(v.orderings.len()));
    lemma_ues_then(b, blocks, v.scaling_codes(tools));
    assert(b.after_ues(0) == b);
    assert(b.after_ues(0).ue() == blocks[0]);
    assert(b.after_ues(1).ue() == blocks[1]);
    assert(b.after_ues(2).ue() == blocks[2]);
    assert(b.after_ues(3).ue() == blocks[3]);
    assert(b.after_ues(4).ue() == blocks[4]);
    assert(b.after_ues(5).ue() == blocks[5]);
    let c = b.after_ues(6);
    match v.scaling {
        None => {
            lemma_flag_then(c, false, tools);
        },
        Some(None) => {
            lemma_flag_then(c, true, seq![Code::Flag(false)] + tools);
            lemma_flag_then(c.skip(1), false, tools);
        },
        Some(Some(s)) => {
            lemma_flag_then(c, true, seq![Code::Flag(true)] + (scaling_codes(s) + tools));
            lemma_flag_then(c.skip(1), true, scaling_codes(s) + tools);
            assert(c.skip(1).skip(1) == c.skip(2));
            lemma_holds_split(c.skip(2), scaling_codes(s), tools);
            lemma_scaling(c.skip(2), s);
        },
    }
}

proof fn lemma_long_term(r: ReaderModel, refs: Seq<(Seq<bool>, bool)>, n: nat)
    requires
        holds(r, long_term_codes(refs)),
        forall|i: int| 0 <= i < refs.len() ==> (#[trigger] refs[i]).0.len() == n,
    ensures
        behind(r, long_term_codes(refs)) == r.skip((refs.len() * (n + 1)) as int),
    decreases refs.len(),
{
    if refs.len() > 0 {
        let front = refs.drop_last();
        let last = seq![Code::Raw(refs.last().0), Code::Flag(refs.last().1)];
        lemma_holds_split(r, long_term_codes(front), last);
        assert forall|i: int| 0 <= i < front.len() implies (#[trigger] front[i]).0.len() == n by {
            assert(front[i] == refs[i]);
        }
        lemma_long_term(r, front, n);
        let at = behind(r, long_term_codes(front));
        lemma_reads(at, last);
        assert(nth_read(at, last, 0));
        assert(nth_read(at, last, 1));
        assert(refs[refs.len() - 1].0.len() == n);
        assert(refs.len() * (n + 1) == front.len() * (n + 1) + n + 1) by (nonlinear_arith)
            requires
                refs.len() == front.len() + 1,
        ;
    } else {
        assert(0 * (n + 1) == 0) by (nonlinear_arith);
    }
}

proof fn lemma_end(nalu: Seq<u8>, v: SpsSyntax)
    requires
        v.fits(),
        unit_begins(nalu, v.codes()),
    ensures
        sps_tools(nalu).flag() == v.amp,
        sps_tools(nalu).skip(1).flag() == v.sao,
        sps_tools(nalu).skip(2).flag() == v.pcm is Some,
        sps_ref_sets(nalu).ue() == v.sets.len(),
        sps_long_term(nalu).flag() == v.long_term is Some,
        sps_last(nalu).flag() == v.temporal_mvp,
        sps_last(nalu).skip(1).flag() == v.strong_smoothing,
{
    lemma_tail(nalu, v);
    lemma_head(nalu, v);
    let r = sps_tools(nalu);
    let refs = v.reference_codes();
    lemma_flag_then(r, v.amp, seq![Code::Flag(v.sao)] + v.pcm_codes(refs));
    lemma_flag_then(r.skip(1), v.sao, v.pcm_codes(refs));
    let p = r.skip(2);
    assert(r.skip(1).skip(1) == p);
    match v.pcm {
        None => {
            lemma_flag_then(p, false, refs);
        },
        Some(x) => {
            let sizes = seq![x.2, x.3];
            let e = seq![Code::Flag(x.4)] + refs;
            lemma_flag_then(
                p,
                true,
                seq![Code::Fixed(x.0, 4)] + (seq![Code::Fixed(x.1, 4)] + (ues(sizes) + e)),
            );
            lemma_fixed_then(p.skip(1), x.0, 4, seq![Code::Fixed(x.1, 4)] + (ues(sizes) + e));
            lemma_fixed_then(p.skip(1).skip(4), x.1, 4, ues(sizes) + e);
            let q = r.skip(11);
            assert(p.skip(1).skip(4).skip(4) == q);
            lemma_ues_then(q, sizes, e);
            lemma_flag_then(q.after_ues(2), x.4, refs);
        },
    }
    lemma_references(nalu, v);
}

proof fn lemma_references(nalu: Seq<u8>, v: SpsSyntax)
    requires
        v.fits(),
        holds(sps_ref_sets(nalu), v.reference_codes()),
        sps_poc_bits(nalu).ue() == v.log2_poc,
    ensures
        sps_ref_sets(nalu).ue() == v.sets.len(),
        sps_long_term(nalu).flag() == v.long_term is Some,
        sps_last(nalu).flag() == v.temporal_mvp,
        sps_last(nalu).skip(1).flag() == v.strong_smoothing,
{
    let last = v.last_codes();
    let lt = v.long_term_codes(last);
    let a = sps_ref_sets(nalu);
    lemma_ue_then(a, v.sets.len(), sets_codes(v.sets) + lt);
    let b = a.after_ue();
    lemma_holds_split(b, sets_codes(v.sets), lt);
    lemma_sets(b, v.sets);
    let c = sps_long_term(nalu);
    assert(c == behind(b, sets_codes(v.sets)));
    match v.long_term {
        None => {
            lemma_flag_then(c, false, last);
        },
        Some(refs) => {
            lemma_flag_then(c, true, seq![Code::Ue(refs.len())] + (long_term_codes(refs) + last));
            lemma_ue_then(c.skip(1), refs.len(), long_term_codes(refs) + last);
            let d = c.skip(1).after_ue();
            lemma_holds_split(d, long_term_codes(refs), last);
            lemma_long_term(d, refs, v.log2_poc + 4);
        },
    }
    let e = sps_last(nalu);
    lemma_flag_then(
        e,
        v.temporal_mvp,
        seq![Code::Flag(v.strong_smoothing)] + Seq::<Code>::empty(),
    );
    lemma_flag_then(e.skip(1), v.strong_smoothing, Seq::<Code>::empty());
}

/// A sequence parameter set is read as it was written, field by field, whatever parts of it
/// are there. Numbers are kept in one byte. The buffer size is that of the last ordering.
pub proof fn law_sequence_parameters_are_read(nalu: Seq<u8>, v: SpsSyntax, sps: SpsFields)
    requires
        v.fits(),
        unit_begins(nalu, v.codes()),
        sps.read_from(nalu),
    ensures
        sps.log2_max_poc_lsb_minus4 == v.log2_poc,
        sps.sps_max_dec_pic_buffering_minus1 == v.orderings[v.orderings.len() - 3] as u8,
        sps.log2_min_luma_coding_block_size_minus3 == v.min_coding as u8,
        sps.log2_diff_max_min_luma_coding_block_size == v.diff_coding as u8,
        sps.log2_min_transform_block_size_minus2 == v.min_transform as u8,
        sps.log2_diff_max_min_transform_block_size == v.diff_transform as u8,
        sps.max_transform_hierarchy_depth_inter == v.depth_inter as u8,
        sps.max_transform_hierarchy_depth_intra == v.depth_intra as u8,
        sps.scaling_list_enabled_flag == v.scaling is Some,
        sps.amp_enabled_flag == v.amp,
        sps.sample_adaptive_offset_enabled_flag == v.sao,
        sps.pcm_enabled_flag == v.pcm is Some,
        sps.num_short_term_ref_pic_sets == v.sets.len(),
        sps.long_term_ref_pics_present_flag == v.long_term is Some,
        sps.sps_temporal_mvp_enabled_flag == v.temporal_mvp,
        sps.strong_intra_smoothing_enabled_flag == v.strong_smoothing,
        sps.raw@ == nalu,
{
    lemma_head(nalu, v);
    lemma_tail(nalu, v);
    lemma_end(nalu, v);
}

} // verus!
