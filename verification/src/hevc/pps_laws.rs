//! A picture parameter set is read as it was written.
use crate::hevc::pps::{
    after_tiles, deblocking_off, deblocking_offsets, deblocking_present, pps_chroma, pps_defaults,
    pps_filters, pps_flags, pps_intra, pps_last, pps_scaling, pps_weights, PpsFields,
};
use crate::hevc::reader::ReaderModel;
use crate::hevc::set_syntax::{lemma_scaling, scaling_codes, scaling_fits, ScalingSyntax};
use crate::hevc::syntax::{
    holds, lemma_fixed_then, lemma_flag_then, lemma_holds_split, lemma_se_then, lemma_ue_then,
    lemma_ues_then, ues, unit_begins, Code,
};
use vstd::prelude::*;

verus! {

/// A grid of tiles.
pub struct TileSyntax {
    /// The columns and rows, less one each.
    pub columns: nat,
    pub rows: nat,
    /// The widths and heights, where they are not all alike.
    pub sizes: Option<(Seq<nat>, Seq<nat>)>,
    pub filtered: bool,
}

/// What is said of the deblocking filter: whether slices may override it and, unless it is
/// switched off, its two offsets.
pub struct DeblockingSyntax {
    pub overridable: bool,
    pub offsets: Option<(int, int)>,
}

/// The values of a picture parameter set.
pub struct PpsSyntax {
    pub id: nat,
    pub sps_id: nat,
    pub dependent_slices: bool,
    pub output_flag: bool,
    pub extra_bits: nat,
    pub sign_hiding: bool,
    pub cabac_init: bool,
    pub l0: nat,
    pub l1: nat,
    pub init_qp: int,
    pub constrained_intra: bool,
    pub transform_skip: bool,
    pub qp_delta_depth: Option<nat>,
    pub cb_offset: int,
    pub cr_offset: int,
    pub slice_chroma: bool,
    pub weighted: bool,
    pub weighted_bi: bool,
    pub bypass: bool,
    pub tiles: Option<TileSyntax>,
    pub entropy_sync: bool,
    pub across_slices: bool,
    pub deblocking: Option<DeblockingSyntax>,
    pub scaling: Option<ScalingSyntax>,
    pub list_modification: bool,
    pub merge_level: nat,
    pub header_extension: bool,
}

impl PpsSyntax {
    /// The numbers of entries fit together.
    pub open spec fn fits(self) -> bool {
        &&& self.tiles matches Some(t) ==> t.sizes matches Some(s) ==> s.0.len() == t.columns
            && s.1.len() == t.rows
        &&& self.scaling matches Some(s) ==> scaling_fits(s)
    }

    pub open spec fn last_codes(self) -> Seq<Code> {
        seq![Code::Flag(self.list_modification)] + (seq![Code::Ue(self.merge_level)] + (seq![
            Code::Flag(self.header_extension),
        ] + Seq::empty()))
    }

    pub open spec fn scaling_codes(self) -> Seq<Code> {
        match self.scaling {
            None => seq![Code::Flag(false)] + self.last_codes(),
            Some(s) => seq![Code::Flag(true)] + (scaling_codes(s) + self.last_codes()),
        }
    }

    pub open spec fn filter_codes(self) -> Seq<Code> {
        seq![Code::Flag(self.across_slices)] + match self.deblocking {
            None => seq![Code::Flag(false)] + self.scaling_codes(),
            Some(d) => seq![Code::Flag(true)] + (seq![Code::Flag(d.overridable)] + match d.offsets {
                None => seq![Code::Flag(true)] + self.scaling_codes(),
                Some(o) => seq![Code::Flag(false)] + (seq![Code::Se(o.0)] + (seq![Code::Se(o.1)]
                    + self.scaling_codes())),
            }),
        }
    }

    pub open spec fn tile_codes(self) -> Seq<Code> {
        match self.tiles {
            None => self.filter_codes(),
            Some(t) => seq![Code::Ue(t.columns)] + (seq![Code::Ue(t.rows)] + match t.sizes {
                None => seq![Code::Flag(true)] + (seq![Code::Flag(t.filtered)]
                    + self.filter_codes()),
                Some(s) => seq![Code::Flag(false)] + (ues(s.0) + (ues(s.1) + (seq![
                    Code::Flag(t.filtered),
                ] + self.filter_codes()))),
            }),
        }
    }

    /// From the flags for prediction weights on.
    pub open spec fn weight_codes(self) -> Seq<Code> {
        seq![Code::Flag(self.slice_chroma)] + (seq![Code::Flag(self.weighted)] + (seq![
            Code::Flag(self.weighted_bi),
        ] + (seq![Code::Flag(self.bypass)] + (seq![Code::Flag(self.tiles is Some)] + (seq![
            Code::Flag(self.entropy_sync),
        ] + self.tile_codes())))))
    }

    pub open spec fn chroma_codes(self) -> Seq<Code> {
        seq![Code::Se(self.cb_offset)] + (seq![Code::Se(self.cr_offset)] + self.weight_codes())
    }

    pub open spec fn intra_codes(self) -> Seq<Code> {
        seq![Code::Flag(self.constrained_intra)] + (seq![Code::Flag(self.transform_skip)]
            + match self.qp_delta_depth {
            None => seq![Code::Flag(false)] + self.chroma_codes(),
            Some(d) => seq![Code::Flag(true)] + (seq![Code::Ue(d)] + self.chroma_codes()),
        })
    }

    pub open spec fn default_codes(self) -> Seq<Code> {
        seq![Code::Ue(self.l0)] + (seq![Code::Ue(self.l1)] + (seq![Code::Se(self.init_qp)]
            + self.intra_codes()))
    }

    /// The set by the syntax of the standard.
    pub open spec fn codes(self) -> Seq<Code> {
        seq![Code::Ue(self.id)] + (seq![Code::Ue(self.sps_id)] + (seq![
            Code::Flag(self.dependent_slices),
        ] + (seq![Code::Flag(self.output_flag)] + (seq![Code::Fixed(self.extra_bits, 3)] + (seq![
            Code::Flag(self.sign_hiding),
        ] + (seq![Code::Flag(self.cabac_init)] + self.default_codes()))))))
    }
}

proof fn lemma_first(nalu: Seq<u8>, v: PpsSyntax)
    requires
        unit_begins(nalu, v.codes()),
    ensures
        ReaderModel::of_unit(nalu).ue() == v.id,
        ReaderModel::of_unit(nalu).after_ue().ue() == v.sps_id,
        pps_flags(nalu).flag() == v.dependent_slices,
        pps_flags(nalu).skip(1).flag() == v.output_flag,
        pps_flags(nalu).skip(2).bits(3) == v.extra_bits,
        pps_flags(nalu).skip(5).flag() == v.sign_hiding,
        pps_flags(nalu).skip(6).flag() == v.cabac_init,
        holds(pps_defaults(nalu), v.default_codes()),
{
    let r = ReaderModel::of_unit(nalu);
    let c6 = seq![Code::Flag(v.cabac_init)] + v.default_codes();
    let c5 = seq![Code::Flag(v.sign_hiding)] + c6;
    let c4 = seq![Code::Fixed(v.extra_bits, 3)] + c5;
    let c3 = seq![Code::Flag(v.output_flag)] + c4;
    let c2 = seq![Code::Flag(v.dependent_slices)] + c3;
    lemma_ue_then(r, v.id, seq![Code::Ue(v.sps_id)] + c2);
    lemma_ue_then(r.after_ue(), v.sps_id, c2);
    crate::hevc::reader::lemma_after_few(r);
    let f = pps_flags(nalu);
    lemma_flag_then(f, v.dependent_slices, c3);
    lemma_flag_then(f.skip(1), v.output_flag, c4);
    assert(f.skip(1).skip(1) == f.skip(2));
    lemma_fixed_then(f.skip(2), v.extra_bits, 3, c5);
    assert(f.skip(2).skip(3) == f.skip(5));
    lemma_flag_then(f.skip(5), v.sign_hiding, c6);
    assert(f.skip(5).skip(1) == f.skip(6));
    lemma_flag_then(f.skip(6), v.cabac_init, v.default_codes());
    assert(f.skip(6).skip(1) == f.skip(7));
}

proof fn lemma_middle(nalu: Seq<u8>, v: PpsSyntax)
    requires
        unit_begins(nalu, v.codes()),
    ensures
        pps_defaults(nalu).ue() == v.l0,
        pps_defaults(nalu).after_ues(1).ue() == v.l1,
        pps_defaults(nalu).after_ues(2).se() == v.init_qp,
        pps_intra(nalu).flag() == v.constrained_intra,
        pps_intra(nalu).skip(1).flag() == v.transform_skip,
        pps_intra(nalu).skip(2).flag() == v.qp_delta_depth is Some,
        v.qp_delta_depth matches Some(d) ==> pps_intra(nalu).skip(3).ue() == d,
        holds(pps_chroma(nalu), v.chroma_codes()),
{
    lemma_first(nalu, v);
    let r = pps_defaults(nalu);
    let qp = seq![Code::Se(v.init_qp)] + v.intra_codes();
    lemma_ue_then(r, v.l0, seq![Code::Ue(v.l1)] + qp);
    lemma_ue_then(r.after_ue(), v.l1, qp);
    crate::hevc::reader::lemma_after_few(r);
    lemma_se_then(r.after_ues(2), v.init_qp, v.intra_codes());
    let c = pps_intra(nalu);
    let delta = match v.qp_delta_depth {
        None => seq![Code::Flag(false)] + v.chroma_codes(),
        Some(d) => seq![Code::Flag(true)] + (seq![Code::Ue(d)] + v.chroma_codes()),
    };
    lemma_flag_then(c, v.constrained_intra, seq![Code::Flag(v.transform_skip)] + delta);
    lemma_flag_then(c.skip(1), v.transform_skip, delta);
    assert(c.skip(1).skip(1) == c.skip(2));
    assert(c.skip(2).skip(1) == c.skip(3));
    match v.qp_delta_depth {
        None => {
            lemma_flag_then(c.skip(2), false, v.chroma_codes());
        },
        Some(d) => {
            lemma_flag_then(c.skip(2), true, seq![Code::Ue(d)] + v.chroma_codes());
            lemma_ue_then(c.skip(3), d, v.chroma_codes());
        },
    }
}

proof fn lemma_weights(nalu: Seq<u8>, v: PpsSyntax)
    requires
        unit_begins(nalu, v.codes()),
    ensures
        pps_chroma(nalu).se() == v.cb_offset,
        pps_chroma(nalu).after_ue().se() == v.cr_offset,
        pps_weights(nalu).flag() == v.slice_chroma,
        pps_weights(nalu).skip(1).flag() == v.weighted,
        pps_weights(nalu).skip(2).flag() == v.weighted_bi,
        pps_weights(nalu).skip(3).flag() == v.bypass,
        pps_weights(nalu).skip(4).flag() == v.tiles is Some,
        pps_weights(nalu).skip(5).flag() == v.entropy_sync,
        holds(pps_weights(nalu).skip(6), v.tile_codes()),
{
    lemma_middle(nalu, v);
    let c = pps_chroma(nalu);
    lemma_se_then(c, v.cb_offset, seq![Code::Se(v.cr_offset)] + v.weight_codes());
    lemma_se_then(c.after_ue(), v.cr_offset, v.weight_codes());
    crate::hevc::reader::lemma_after_few(c);
    let w = pps_weights(nalu);
    let c5 = seq![Code::Flag(v.entropy_sync)] + v.tile_codes();
    let c4 = seq![Code::Flag(v.tiles is Some)] + c5;
    let c3 = seq![Code::Flag(v.bypass)] + c4;
    let c2 = seq![Code::Flag(v.weighted_bi)] + c3;
    let c1 = seq![Code::Flag(v.weighted)] + c2;
    lemma_flag_then(w, v.slice_chroma, c1);
    lemma_flag_then(w.skip(1), v.weighted, c2);
    assert(w.skip(1).skip(1) == w.skip(2));
    lemma_flag_then(w.skip(2), v.weighted_bi, c3);
    assert(w.skip(2).skip(1) == w.skip(3));
    lemma_flag_then(w.skip(3), v.bypass, c4);
    assert(w.skip(3).skip(1) == w.skip(4));
    lemma_flag_then(w.skip(4), v.tiles is Some, c5);
    assert(w.skip(4).skip(1) == w.skip(5));
    lemma_flag_then(w.skip(5), v.entropy_sync, v.tile_codes());
    assert(w.skip(5).skip(1) == w.skip(6));
}

proof fn lemma_tiles(nalu: Seq<u8>, v: PpsSyntax)
    requires
        v.fits(),
        unit_begins(nalu, v.codes()),
    ensures
        holds(pps_filters(nalu), v.filter_codes()),
{
    lemma_weights(nalu, v);
    let c = pps_weights(nalu).skip(6);
    if let Some(t) = v.tiles {
        let end = seq![Code::Flag(t.filtered)] + v.filter_codes();
        let sizes = match t.sizes {
            None => seq![Code::Flag(true)] + end,
            Some(s) => seq![Code::Flag(false)] + (ues(s.0) + (ues(s.1) + end)),
        };
        lemma_ue_then(c, t.columns, seq![Code::Ue(t.rows)] + sizes);
        lemma_ue_then(c.after_ue(), t.rows, sizes);
        crate::hevc::reader::lemma_after_few(c);
        let d = c.after_ues(2);
        match t.sizes {
            None => {
                lemma_flag_then(d, true, end);
                lemma_flag_then(d.skip(1), t.filtered, v.filter_codes());
                assert(d.skip(1).skip(1) == d.skip(2));
            },
            Some(s) => {
                lemma_flag_then(d, false, ues(s.0) + (ues(s.1) + end));
                lemma_ues_then(d.skip(1), s.0, ues(s.1) + end);
                let e = d.skip(1).after_ues(t.columns);
                lemma_ues_then(e, s.1, end);
                lemma_flag_then(e.after_ues(t.rows), t.filtered, v.filter_codes());
            },
        }
        assert(pps_filters(nalu) == after_tiles(c));
    }
}

proof fn lemma_filters(nalu: Seq<u8>, v: PpsSyntax)
    requires
        v.fits(),
        unit_begins(nalu, v.codes()),
    ensures
        pps_filters(nalu).flag() == v.across_slices,
        deblocking_present(nalu) == v.deblocking is Some,
        deblocking_off(nalu) == (v.deblocking is Some && v.deblocking->0.offsets is None),
        deblocking_offsets(nalu) == (v.deblocking is Some && v.deblocking->0.offsets is Some),
        v.deblocking matches Some(d) ==> pps_filters(nalu).skip(2).flag() == d.overridable,
        v.deblocking matches Some(d) ==> d.offsets matches Some(o) ==> pps_filters(nalu).skip(
            4,
        ).se() == o.0 && pps_filters(nalu).skip(4).after_ue().se() == o.1,
        holds(pps_scaling(nalu), v.scaling_codes()),
{
    lemma_tiles(nalu, v);
    let c = pps_filters(nalu);
    let rest = v.scaling_codes();
    assert(c.skip(1).skip(1) == c.skip(2));
    assert(c.skip(2).skip(1) == c.skip(3));
    assert(c.skip(3).skip(1) == c.skip(4));
    match v.deblocking {
        None => {
            lemma_flag_then(c, v.across_slices, seq![Code::Flag(false)] + rest);
            lemma_flag_then(c.skip(1), false, rest);
        },
        Some(d) => {
            let tail = match d.offsets {
                None => seq![Code::Flag(true)] + rest,
                Some(o) => seq![Code::Flag(false)] + (seq![Code::Se(o.0)] + (seq![Code::Se(o.1)]
                    + rest)),
            };
            let more = seq![Code::Flag(d.overridable)] + tail;
            lemma_flag_then(c, v.across_slices, seq![Code::Flag(true)] + more);
            lemma_flag_then(c.skip(1), true, more);
            lemma_flag_then(c.skip(2), d.overridable, tail);
            match d.offsets {
                None => {
                    lemma_flag_then(c.skip(3), true, rest);
                },
                Some(o) => {
                    lemma_flag_then(
                        c.skip(3),
                        false,
                        seq![Code::Se(o.0)] + (seq![Code::Se(o.1)] + rest),
                    );
                    lemma_se_then(c.skip(4), o.0, seq![Code::Se(o.1)] + rest);
                    lemma_se_then(c.skip(4).after_ue(), o.1, rest);
                    crate::hevc::reader::lemma_after_few(c.skip(4));
                },
            }
        },
    }
}

proof fn lemma_last(nalu: Seq<u8>, v: PpsSyntax)
    requires
        v.fits(),
        unit_begins(nalu, v.codes()),
    ensures
        pps_scaling(nalu).flag() == v.scaling is Some,
        pps_last(nalu).flag() == v.list_modification,
        pps_last(nalu).skip(1).ue() == v.merge_level,
        pps_last(nalu).skip(1).after_ue().flag() == v.header_extension,
{
    lemma_filters(nalu, v);
    let c = pps_scaling(nalu);
    match v.scaling {
        None => {
            lemma_flag_then(c, false, v.last_codes());
        },
        Some(s) => {
            lemma_flag_then(c, true, scaling_codes(s) + v.last_codes());
            lemma_holds_split(c.skip(1), scaling_codes(s), v.last_codes());
            lemma_scaling(c.skip(1), s);
        },
    }
    let d = pps_last(nalu);
    let ext = seq![Code::Flag(v.header_extension)] + Seq::<Code>::empty();
    lemma_flag_then(d, v.list_modification, seq![Code::Ue(v.merge_level)] + ext);
    lemma_ue_then(d.skip(1), v.merge_level, ext);
    lemma_flag_then(d.skip(1).after_ue(), v.header_extension, Seq::<Code>::empty());
}

/// A picture parameter set is read as it was written, field by field, whatever parts of it
/// are there. Numbers are kept in one byte; what is not there counts as zero.
pub proof fn law_picture_parameters_are_read(nalu: Seq<u8>, v: PpsSyntax, pps: PpsFields)
    requires
        v.fits(),
        unit_begins(nalu, v.codes()),
        pps.read_from(nalu),
    ensures
        pps.raw@ == nalu,
        pps.pps_pic_parameter_set_id == v.id as u8,
        pps.pps_seq_parameter_set_id == v.sps_id as u8,
        pps.dependent_slice_segments_enabled_flag == v.dependent_slices,
        pps.output_flag_present_flag == v.output_flag,
        pps.num_extra_slice_header_bits == v.extra_bits as u8,
        pps.sign_data_hiding_enabled_flag == v.sign_hiding,
        pps.cabac_init_present_flag == v.cabac_init,
        pps.num_ref_idx_l0_default_active_minus1 == v.l0 as u8,
        pps.num_ref_idx_l1_default_active_minus1 == v.l1 as u8,
        pps.init_qp_minus26 == v.init_qp as i8,
        pps.constrained_intra_pred_flag == v.constrained_intra,
        pps.transform_skip_enabled_flag == v.transform_skip,
        pps.cu_qp_delta_enabled_flag == v.qp_delta_depth is Some,
        pps.diff_cu_qp_delta_depth == (match v.qp_delta_depth {
            Some(d) => d as u8,
            None => 0,
        }),
        pps.pps_cb_qp_offset == v.cb_offset as i8,
        pps.pps_cr_qp_offset == v.cr_offset as i8,
        pps.pps_slice_chroma_qp_offsets_present_flag == v.slice_chroma,
        pps.weighted_pred_flag == v.weighted,
        pps.weighted_bipred_flag == v.weighted_bi,
        pps.transquant_bypass_enabled_flag == v.bypass,
        pps.tiles_enabled_flag == v.tiles is Some,
        pps.entropy_coding_sync_enabled_flag == v.entropy_sync,
        pps.loop_filter_across_slices_enabled_flag == v.across_slices,
        pps.deblocking_filter_override_enabled_flag == (v.deblocking is Some
            && v.deblocking->0.overridable),
        pps.pps_disable_deblocking_filter_flag == (v.deblocking is Some
            && v.deblocking->0.offsets is None),
        (v.deblocking is None || v.deblocking->0.offsets is None) ==> pps.pps_beta_offset_div2 == 0
            && pps.pps_tc_offset_div2 == 0,
        v.deblocking matches Some(d) ==> d.offsets matches Some(o) ==> pps.pps_beta_offset_div2
            == o.0 as i8 && pps.pps_tc_offset_div2 == o.1 as i8,
        pps.pps_scaling_list_data_present_flag == v.scaling is Some,
        pps.lists_modification_present_flag == v.list_modification,
        pps.log2_parallel_merge_level_minus2 == v.merge_level as u8,
        pps.slice_segment_header_extension_present_flag == v.header_extension,
{
    lemma_first(nalu, v);
    lemma_middle(nalu, v);
    lemma_weights(nalu, v);
    lemma_filters(nalu, v);
    lemma_last(nalu, v);
}

} // verus!
