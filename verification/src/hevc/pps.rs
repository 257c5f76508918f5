//! Picture parameter sets.
use crate::hevc::cursor::{after_scaling, skip_scaling_list_data};
use crate::hevc::params::{copy_bytes, reader_of};
use crate::hevc::reader::{lemma_after_few, lemma_after_ues, lemma_ue_end, RbspReader, ReaderModel};
use vstd::prelude::*;

verus! {

/// The fields of a picture parameter set.
#[derive(Debug)]
pub struct PpsFields {
    pub raw: Vec<u8>,
    pub pps_pic_parameter_set_id: u8,
    pub pps_seq_parameter_set_id: u8,
    pub dependent_slice_segments_enabled_flag: bool,
    pub output_flag_present_flag: bool,
    pub num_extra_slice_header_bits: u8,
    pub sign_data_hiding_enabled_flag: bool,
    pub cabac_init_present_flag: bool,
    pub num_ref_idx_l0_default_active_minus1: u8,
    pub num_ref_idx_l1_default_active_minus1: u8,
    pub init_qp_minus26: i8,
    pub constrained_intra_pred_flag: bool,
    pub transform_skip_enabled_flag: bool,
    pub cu_qp_delta_enabled_flag: bool,
    pub diff_cu_qp_delta_depth: u8,
    pub pps_cb_qp_offset: i8,
    pub pps_cr_qp_offset: i8,
    pub pps_slice_chroma_qp_offsets_present_flag: bool,
    pub weighted_pred_flag: bool,
    pub weighted_bipred_flag: bool,
    pub transquant_bypass_enabled_flag: bool,
    pub tiles_enabled_flag: bool,
    pub entropy_coding_sync_enabled_flag: bool,
    pub loop_filter_across_slices_enabled_flag: bool,
    pub deblocking_filter_override_enabled_flag: bool,
    pub pps_disable_deblocking_filter_flag: bool,
    pub pps_beta_offset_div2: i8,
    pub pps_tc_offset_div2: i8,
    pub pps_scaling_list_data_present_flag: bool,
    pub lists_modification_present_flag: bool,
    pub log2_parallel_merge_level_minus2: u8,
    pub slice_segment_header_extension_present_flag: bool,
}

/// At the flags behind the identifiers.
pub open spec fn pps_flags(nalu: Seq<u8>) -> ReaderModel {
    ReaderModel::of_unit(nalu).after_ues(2)
}

/// At the numbers of references and the first quantiser.
pub open spec fn pps_defaults(nalu: Seq<u8>) -> ReaderModel {
    pps_flags(nalu).skip(7)
}

/// At the flags for intra prediction and transforms.
pub open spec fn pps_intra(nalu: Seq<u8>) -> ReaderModel {
    pps_defaults(nalu).after_ues(3)
}

/// At the chroma quantisers.
pub open spec fn pps_chroma(nalu: Seq<u8>) -> ReaderModel {
    let c = pps_intra(nalu);
    if c.skip(2).flag() {
        c.skip(3).after_ue()
    } else {
        c.skip(3)
    }
}

/// At the flags for prediction weights and tiles.
pub open spec fn pps_weights(nalu: Seq<u8>) -> ReaderModel {
    pps_chroma(nalu).after_ues(2)
}

/// Behind a grid of tiles: the numbers of columns and rows and, where they are not all
/// alike, their sizes.
pub open spec fn after_tiles(c: ReaderModel) -> ReaderModel {
    let d = c.after_ues(2);
    if d.flag() {
        d.skip(2)
    } else {
        d.skip(1).after_ues(c.ue() as nat).after_ues(c.after_ue().ue() as nat).skip(1)
    }
}

/// At the flags for the loop filters.
pub open spec fn pps_filters(nalu: Seq<u8>) -> ReaderModel {
    let c = pps_weights(nalu);
    if c.skip(4).flag() {
        after_tiles(c.skip(6))
    } else {
        c.skip(6)
    }
}

/// The deblocking filter is spoken of.
pub open spec fn deblocking_present(nalu: Seq<u8>) -> bool {
    pps_filters(nalu).skip(1).flag()
}

/// The deblocking filter is spoken of, and switched off.
pub open spec fn deblocking_off(nalu: Seq<u8>) -> bool {
    deblocking_present(nalu) && pps_filters(nalu).skip(3).flag()
}

/// The offsets of the deblocking filter are given.
pub open spec fn deblocking_offsets(nalu: Seq<u8>) -> bool {
    deblocking_present(nalu) && !deblocking_off(nalu)
}

/// At the flag for scaling lists.
pub open spec fn pps_scaling(nalu: Seq<u8>) -> ReaderModel {
    let c = pps_filters(nalu);
    if !deblocking_present(nalu) {
        c.skip(2)
    } else if deblocking_off(nalu) {
        c.skip(4)
    } else {
        c.skip(4).after_ues(2)
    }
}

/// Behind the scaling lists.
pub open spec fn pps_last(nalu: Seq<u8>) -> ReaderModel {
    let c = pps_scaling(nalu);
    if c.flag() {
        after_scaling(c.skip(1))
    } else {
        c.skip(1)
    }
}

impl PpsFields {
    /// The fields are those that stand in the unit.
    pub open spec fn read_from(self, nalu: Seq<u8>) -> bool {
        &&& self.raw@ == nalu
        &&& self.first_read_from(nalu)
        &&& self.weights_read_from(nalu)
        &&& self.filters_read_from(nalu)
        &&& self.pps_scaling_list_data_present_flag == pps_scaling(nalu).flag()
        &&& self.lists_modification_present_flag == pps_last(nalu).flag()
        &&& self.log2_parallel_merge_level_minus2 == pps_last(nalu).skip(1).ue() as u8
        &&& self.slice_segment_header_extension_present_flag == pps_last(nalu).skip(
            1,
        ).after_ue().flag()
    }

    /// The chroma quantisers and the flags behind them are those that stand in the unit.
    pub open spec fn weights_read_from(self, nalu: Seq<u8>) -> bool {
        &&& self.pps_cb_qp_offset == pps_chroma(nalu).se() as i8
        &&& self.pps_cr_qp_offset == pps_chroma(nalu).after_ue().se() as i8
        &&& self.pps_slice_chroma_qp_offsets_present_flag == pps_weights(nalu).flag()
        &&& self.weighted_pred_flag == pps_weights(nalu).skip(1).flag()
        &&& self.weighted_bipred_flag == pps_weights(nalu).skip(2).flag()
        &&& self.transquant_bypass_enabled_flag == pps_weights(nalu).skip(3).flag()
        &&& self.tiles_enabled_flag == pps_weights(nalu).skip(4).flag()
        &&& self.entropy_coding_sync_enabled_flag == pps_weights(nalu).skip(5).flag()
    }

    /// What is said of the loop filters is what stands in the unit.
    pub open spec fn filters_read_from(self, nalu: Seq<u8>) -> bool {
        &&& self.loop_filter_across_slices_enabled_flag == pps_filters(nalu).flag()
        &&& self.deblocking_filter_override_enabled_flag == (deblocking_present(nalu)
            && pps_filters(nalu).skip(2).flag())
        &&& self.pps_disable_deblocking_filter_flag == deblocking_off(nalu)
        &&& self.pps_beta_offset_div2 == (if deblocking_offsets(nalu) {
            pps_filters(nalu).skip(4).se() as i8
        } else {
            0
        })
        &&& self.pps_tc_offset_div2 == (if deblocking_offsets(nalu) {
            pps_filters(nalu).skip(4).after_ue().se() as i8
        } else {
            0
        })
    }

    /// The fields up to the chroma quantisers are those that stand in the unit.
    pub open spec fn first_read_from(self, nalu: Seq<u8>) -> bool {
        &&& self.pps_pic_parameter_set_id == ReaderModel::of_unit(nalu).ue() as u8
        &&& self.pps_seq_parameter_set_id == ReaderModel::of_unit(nalu).after_ue().ue() as u8
        &&& self.dependent_slice_segments_enabled_flag == pps_flags(nalu).flag()
        &&& self.output_flag_present_flag == pps_flags(nalu).skip(1).flag()
        &&& self.num_extra_slice_header_bits == pps_flags(nalu).skip(2).bits(3) as u8
        &&& self.sign_data_hiding_enabled_flag == pps_flags(nalu).skip(5).flag()
        &&& self.cabac_init_present_flag == pps_flags(nalu).skip(6).flag()
        &&& self.num_ref_idx_l0_default_active_minus1 == pps_defaults(nalu).ue() as u8
        &&& self.num_ref_idx_l1_default_active_minus1 == pps_defaults(nalu).after_ues(
            1,
        ).ue() as u8
        &&& self.init_qp_minus26 == pps_defaults(nalu).after_ues(2).se() as i8
        &&& self.constrained_intra_pred_flag == pps_intra(nalu).flag()
        &&& self.transform_skip_enabled_flag == pps_intra(nalu).skip(1).flag()
        &&& self.cu_qp_delta_enabled_flag == pps_intra(nalu).skip(2).flag()
        &&& self.diff_cu_qp_delta_depth == (if pps_intra(nalu).skip(2).flag() {
            pps_intra(nalu).skip(3).ue() as u8
        } else {
            0
        })
    }

    /// Reads a picture parameter set, a unit without start code.
    pub fn parse(nalu: &[u8]) -> (r: Option<PpsFields>)
        ensures
            match r {
                Some(pps) => nalu@.len() >= 3 && pps.read_from(nalu@),
                None => nalu@.len() < 3,
            },
    {
        if nalu.len() < 3 {
            return None;
        }
        let mut r: RbspReader = reader_of(nalu);
        let mut pps: PpsFields = PpsFields {
            raw: copy_bytes(nalu),
            pps_pic_parameter_set_id: 0,
            pps_seq_parameter_set_id: 0,
            dependent_slice_segments_enabled_flag: false,
            output_flag_present_flag: false,
            num_extra_slice_header_bits: 0,
            sign_data_hiding_enabled_flag: false,
            cabac_init_present_flag: false,
            num_ref_idx_l0_default_active_minus1: 0,
            num_ref_idx_l1_default_active_minus1: 0,
            init_qp_minus26: 0,
            constrained_intra_pred_flag: false,
            transform_skip_enabled_flag: false,
            cu_qp_delta_enabled_flag: false,
            diff_cu_qp_delta_depth: 0,
            pps_cb_qp_offset: 0,
            pps_cr_qp_offset: 0,
            pps_slice_chroma_qp_offsets_present_flag: false,
            weighted_pred_flag: false,
            weighted_bipred_flag: false,
            transquant_bypass_enabled_flag: false,
            tiles_enabled_flag: false,
            entropy_coding_sync_enabled_flag: false,
            loop_filter_across_slices_enabled_flag: false,
            deblocking_filter_override_enabled_flag: false,
            pps_disable_deblocking_filter_flag: false,
            pps_beta_offset_div2: 0,
            pps_tc_offset_div2: 0,
            pps_scaling_list_data_present_flag: false,
            lists_modification_present_flag: false,
            log2_parallel_merge_level_minus2: 0,
            slice_segment_header_extension_present_flag: false,
        };
        pps.read_first(&mut r, Ghost(nalu@));
        pps.read_weights(&mut r, Ghost(nalu@));
        let filters: (bool, bool, bool, i8, i8) = read_filters(&mut r, Ghost(nalu@));
        pps.loop_filter_across_slices_enabled_flag = filters.0;
        pps.deblocking_filter_override_enabled_flag = filters.1;
        pps.pps_disable_deblocking_filter_flag = filters.2;
        pps.pps_beta_offset_div2 = filters.3;
        pps.pps_tc_offset_div2 = filters.4;
        let last: (bool, bool, u8, bool) = read_last(&mut r, Ghost(nalu@));
        pps.pps_scaling_list_data_present_flag = last.0;
        pps.lists_modification_present_flag = last.1;
        pps.log2_parallel_merge_level_minus2 = last.2;
        pps.slice_segment_header_extension_present_flag = last.3;
        Some(pps)
    }

    /// Reads the fields up to the chroma quantisers.
    #[verifier::spinoff_prover]
    fn read_first(&mut self, r: &mut RbspReader, Ghost(nalu): Ghost<Seq<u8>>)
        requires
            old(r)@ == ReaderModel::of_unit(nalu),
        ensures
            final(r)@ == pps_chroma(nalu),
            final(r)@.pos <= 1000,
            final(self).raw@ == old(self).raw@,
            final(self).first_read_from(nalu),
    {
        let ghost c = r@;
        proof {
            lemma_after_few(c);
            lemma_after_ues(c, 1);
            lemma_after_ues(c, 2);
        }
        self.pps_pic_parameter_set_id = #[verifier::truncate]
        (r.read_ue() as u8);
        self.pps_seq_parameter_set_id = #[verifier::truncate]
        (r.read_ue() as u8);
        assert(r@ == pps_flags(nalu));
        self.dependent_slice_segments_enabled_flag = r.read_flag();
        self.output_flag_present_flag = r.read_flag();
        self.num_extra_slice_header_bits = #[verifier::truncate]
        (r.read_bits(3) as u8);
        self.sign_data_hiding_enabled_flag = r.read_flag();
        self.cabac_init_present_flag = r.read_flag();
        let ghost d = r@;
        assert(d == pps_defaults(nalu));
        proof {
            lemma_after_few(d);
            lemma_after_ues(d, 1);
            lemma_after_ues(d, 2);
            lemma_after_ues(d, 3);
        }
        self.num_ref_idx_l0_default_active_minus1 = #[verifier::truncate]
        (r.read_ue() as u8);
        self.num_ref_idx_l1_default_active_minus1 = #[verifier::truncate]
        (r.read_ue() as u8);
        self.init_qp_minus26 = #[verifier::truncate]
        (r.read_se() as i8);
        assert(r@ == pps_intra(nalu));
        self.constrained_intra_pred_flag = r.read_flag();
        self.transform_skip_enabled_flag = r.read_flag();
        self.cu_qp_delta_enabled_flag = r.read_flag();
        self.diff_cu_qp_delta_depth = 0;
        if self.cu_qp_delta_enabled_flag {
            proof {
                lemma_ue_end(r@.bytes, r@.pos);
            }
            self.diff_cu_qp_delta_depth = #[verifier::truncate]
            (r.read_ue() as u8);
        }
    }

    /// Reads the chroma quantisers and the flags behind them.
    #[verifier::spinoff_prover]
    fn read_weights(&mut self, r: &mut RbspReader, Ghost(nalu): Ghost<Seq<u8>>)
        requires
            old(r)@ == pps_chroma(nalu),
            old(r)@.pos <= 1000,
            old(self).first_read_from(nalu),
        ensures
            final(r)@ == pps_filters(nalu),
            final(r)@.pos <= 0x100_0000_0000,
            final(self).raw@ == old(self).raw@,
            final(self).first_read_from(nalu),
            final(self).weights_read_from(nalu),
    {
        let ghost c = r@;
        proof {
            lemma_after_few(c);
            lemma_after_ues(c, 1);
            lemma_after_ues(c, 2);
        }
        self.pps_cb_qp_offset = #[verifier::truncate]
        (r.read_se() as i8);
        self.pps_cr_qp_offset = #[verifier::truncate]
        (r.read_se() as i8);
        assert(r@ == pps_weights(nalu));
        self.pps_slice_chroma_qp_offsets_present_flag = r.read_flag();
        self.weighted_pred_flag = r.read_flag();
        self.weighted_bipred_flag = r.read_flag();
        self.transquant_bypass_enabled_flag = r.read_flag();
        self.tiles_enabled_flag = r.read_flag();
        self.entropy_coding_sync_enabled_flag = r.read_flag();
        if self.tiles_enabled_flag {
            skip_tiles(r);
        }
    }
}

/// Reads what is said of the loop filters.
#[verifier::spinoff_prover]
fn read_filters(r: &mut RbspReader, Ghost(nalu): Ghost<Seq<u8>>) -> (f: (bool, bool, bool, i8, i8))
    requires
        old(r)@ == pps_filters(nalu),
        old(r)@.pos <= 0x100_0000_0000,
    ensures
        final(r)@ == pps_scaling(nalu),
        final(r)@.pos <= 0x100_0001_0000,
        f.0 == pps_filters(nalu).flag(),
        f.1 == (deblocking_present(nalu) && pps_filters(nalu).skip(2).flag()),
        f.2 == deblocking_off(nalu),
        f.3 == (if deblocking_offsets(nalu) {
            pps_filters(nalu).skip(4).se() as i8
        } else {
            0
        }),
        f.4 == (if deblocking_offsets(nalu) {
            pps_filters(nalu).skip(4).after_ue().se() as i8
        } else {
            0
        }),
{
    let across_slices: bool = r.read_flag();
    let present: bool = r.read_flag();
    if !present {
        return (across_slices, false, false, 0, 0);
    }
    let over: bool = r.read_flag();
    let off: bool = r.read_flag();
    if off {
        return (across_slices, over, true, 0, 0);
    }
    let ghost d = r@;
    proof {
        lemma_after_few(d);
        lemma_after_ues(d, 1);
        lemma_after_ues(d, 2);
    }
    let beta: i8 = #[verifier::truncate]
    (r.read_se() as i8);
    let tc: i8 = #[verifier::truncate]
    (r.read_se() as i8);
    (across_slices, over, false, beta, tc)
}

/// Reads the last fields.
#[verifier::spinoff_prover]
fn read_last(r: &mut RbspReader, Ghost(nalu): Ghost<Seq<u8>>) -> (f: (bool, bool, u8, bool))
    requires
        old(r)@ == pps_scaling(nalu),
        old(r)@.pos <= 0x100_0001_0000,
    ensures
        f.0 == pps_scaling(nalu).flag(),
        f.1 == pps_last(nalu).flag(),
        f.2 == pps_last(nalu).skip(1).ue() as u8,
        f.3 == pps_last(nalu).skip(1).after_ue().flag(),
{
    let scaling: bool = r.read_flag();
    if scaling {
        skip_scaling_list_data(r);
    }
    assert(r@ == pps_last(nalu));
    let lists: bool = r.read_flag();
    proof {
        lemma_ue_end(r@.bytes, r@.pos);
    }
    let merge: u8 = #[verifier::truncate]
    (r.read_ue() as u8);
    let extension: bool = r.read_flag();
    (scaling, lists, merge, extension)
}

/// Passes over a grid of tiles.
fn skip_tiles(r: &mut RbspReader)
    requires
        old(r)@.pos <= 2000,
    ensures
        final(r)@ == after_tiles(old(r)@),
        final(r)@.pos <= 0x100_0000_0000,
{
    let ghost c = r@;
    proof {
        lemma_after_few(c);
        lemma_after_ues(c, 1);
        lemma_after_ues(c, 2);
    }
    let num_col: u32 = r.read_ue();
    let num_row: u32 = r.read_ue();
    let uniform: bool = r.read_flag();
    if !uniform {
        r.skip_ues(num_col);
        r.skip_ues(num_row);
    }
    let _across_tiles: bool = r.read_flag();
}

} // verus!
