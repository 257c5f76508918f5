//! Where the flags of the parameter sets stand in the words that a decoder takes.
use crate::hevc::concealment::{
    block_flags, default_pic_params, flag_bit, header_flags, pic_flags, pic_params_of, slice_flags,
};
use crate::hevc::params::SpsFields;
use crate::hevc::pps::PpsFields;
use vstd::prelude::*;

verus! {

/// Bit `n` of a word, counted from the lowest.
pub open spec fn has_bit(word: u32, n: u32) -> bool {
    (word >> n) & 1 == 1
}

proof fn lemma_either(a: u32, b: u32, n: u32)
    requires
        n < 32,
    ensures
        has_bit(a | b, n) == (has_bit(a, n) || has_bit(b, n)),
{
    assert((((a | b) >> n) & 1 == 1) == ((a >> n) & 1 == 1 || (b >> n) & 1 == 1)) by (bit_vector)
        requires
            n < 32,
    ;
}

proof fn lemma_flag(flag: bool, bit: u32, n: u32)
    requires
        bit < 32,
        n < 32,
    ensures
        has_bit(flag_bit(flag, bit), n) == (flag && bit == n),
{
    reveal(flag_bit);
    assert((((1u32 << bit) >> n) & 1 == 1) == (bit == n) && (0u32 >> n) & 1 == 0) by (bit_vector)
        requires
            bit < 32,
            n < 32,
    ;
}

proof fn lemma_flags()
    ensures
        forall|a: u32, b: u32, n: u32|
            n < 32 ==> #[trigger] has_bit(a | b, n) == (has_bit(a, n) || has_bit(b, n)),
        forall|flag: bool, bit: u32, n: u32|
            bit < 32 && n < 32 ==> #[trigger] has_bit(flag_bit(flag, bit), n) == (flag && bit
                == n),
{
    assert forall|a: u32, b: u32, n: u32| n < 32 implies #[trigger] has_bit(a | b, n) == (has_bit(
        a,
        n,
    ) || has_bit(b, n)) by {
        lemma_either(a, b, n);
    }
    assert forall|flag: bool, bit: u32, n: u32| bit < 32 && n < 32 implies #[trigger] has_bit(
        flag_bit(flag, bit),
        n,
    ) == (flag && bit == n) by {
        lemma_flag(flag, bit, n);
    }
}

/// Each flag of a picture that concerns its blocks has a bit of its own.
pub proof fn law_block_flags_have_their_bits(sps: SpsFields, pps: PpsFields, n: u32)
    requires
        n < 32,
    ensures
        has_bit(block_flags(sps, pps), n) <==> {
            ||| n == 0 && pps.tiles_enabled_flag
            ||| n == 1 && pps.entropy_coding_sync_enabled_flag
            ||| n == 2 && pps.sign_data_hiding_enabled_flag
            ||| n == 3 && sps.scaling_list_enabled_flag
            ||| n == 4 && pps.transform_skip_enabled_flag
            ||| n == 5 && sps.amp_enabled_flag
            ||| n == 6 && sps.strong_intra_smoothing_enabled_flag
            ||| n == 7 && sps.pcm_enabled_flag
            ||| n == 9 && pps.weighted_pred_flag
            ||| n == 10 && pps.weighted_bipred_flag
        },
{
    lemma_flags();
}

/// Each flag of a picture that concerns its slices has a bit of its own.
pub proof fn law_header_flags_have_their_bits(pps: PpsFields, n: u32)
    requires
        n < 32,
    ensures
        has_bit(header_flags(pps), n) <==> {
            ||| n == 12 && pps.loop_filter_across_slices_enabled_flag
            ||| n == 13 && pps.output_flag_present_flag
            ||| n == 14 && pps.num_extra_slice_header_bits > 0
            ||| n == 15 && pps.pps_slice_chroma_qp_offsets_present_flag
            ||| n == 16 && pps.deblocking_filter_override_enabled_flag
            ||| n == 17 && pps.pps_disable_deblocking_filter_flag
            ||| n == 18 && pps.lists_modification_present_flag
            ||| n == 19 && pps.slice_segment_header_extension_present_flag
        },
{
    lemma_flags();
}

/// The flags of a picture are those of its blocks and those of its slices.
pub proof fn law_picture_flags_are_both(sps: SpsFields, pps: PpsFields, n: u32)
    requires
        n < 32,
    ensures
        has_bit(pic_flags(sps, pps), n) <==> has_bit(block_flags(sps, pps), n) || has_bit(
            header_flags(pps),
            n,
        ),
{
    lemma_flags();
}

/// Each flag of a slice has a bit of its own.
pub proof fn law_slice_flags_have_their_bits(sps: SpsFields, pps: PpsFields, n: u32)
    requires
        n < 32,
    ensures
        has_bit(slice_flags(sps, pps), n) <==> {
            ||| n == 0 && pps.lists_modification_present_flag
            ||| n == 1 && sps.long_term_ref_pics_present_flag
            ||| n == 2 && sps.sps_temporal_mvp_enabled_flag
            ||| n == 3 && pps.cabac_init_present_flag
            ||| n == 4 && pps.output_flag_present_flag
            ||| n == 5 && pps.dependent_slice_segments_enabled_flag
            ||| n == 6 && pps.pps_slice_chroma_qp_offsets_present_flag
            ||| n == 7 && sps.sample_adaptive_offset_enabled_flag
            ||| n == 10 && pps.deblocking_filter_override_enabled_flag
            ||| n == 11 && pps.pps_disable_deblocking_filter_flag
            ||| n == 12 && pps.slice_segment_header_extension_present_flag
        },
{
    lemma_flags();
}

/// What is told of a picture is what its parameter sets say, each value under its name.
pub proof fn law_picture_is_told_as_the_sets_say(
    width: u16,
    height: u16,
    sps: SpsFields,
    pps: PpsFields,
)
    ensures
        ({
            let p = pic_params_of(width, height, sps, pps);
            &&& p.width == width
            &&& p.height == height
            &&& p.pps_id == pps.pps_pic_parameter_set_id
            &&& p.log2_max_poc_lsb_minus4 == sps.log2_max_poc_lsb_minus4
            &&& p.log2_min_luma_coding_block_size_minus3
                == sps.log2_min_luma_coding_block_size_minus3
            &&& p.log2_diff_max_min_luma_coding_block_size
                == sps.log2_diff_max_min_luma_coding_block_size
            &&& p.log2_min_transform_block_size_minus2 == sps.log2_min_transform_block_size_minus2
            &&& p.log2_diff_max_min_transform_block_size
                == sps.log2_diff_max_min_transform_block_size
            &&& p.max_transform_hierarchy_depth_intra == sps.max_transform_hierarchy_depth_intra
            &&& p.max_transform_hierarchy_depth_inter == sps.max_transform_hierarchy_depth_inter
            &&& p.init_qp_minus26 == pps.init_qp_minus26
            &&& p.num_short_term_ref_pic_sets == sps.num_short_term_ref_pic_sets
            &&& p.num_ref_idx_l0_default_active_minus1 == pps.num_ref_idx_l0_default_active_minus1
            &&& p.sps_temporal_mvp_enabled == has_bit(p.slice_parsing_fields, 2)
            &&& p.cabac_init_present == has_bit(p.slice_parsing_fields, 3)
            &&& p.slice_chroma_qp_offsets_present == has_bit(p.slice_parsing_fields, 6)
            &&& p.sao_enabled == has_bit(p.slice_parsing_fields, 7)
            &&& p.deblocking_filter_override_enabled == has_bit(p.slice_parsing_fields, 10)
            &&& p.pps_disable_deblocking_filter == has_bit(p.slice_parsing_fields, 11)
            &&& p.pps_cb_qp_offset == pps.pps_cb_qp_offset
            &&& p.pps_cr_qp_offset == pps.pps_cr_qp_offset
            &&& p.pps_beta_offset_div2 == pps.pps_beta_offset_div2
            &&& p.pps_tc_offset_div2 == pps.pps_tc_offset_div2
            &&& p.log2_parallel_merge_level_minus2 == pps.log2_parallel_merge_level_minus2
            &&& p.num_extra_slice_header_bits == pps.num_extra_slice_header_bits
            &&& p.diff_cu_qp_delta_depth == pps.diff_cu_qp_delta_depth
        }),
{
    law_slice_flags_have_their_bits(sps, pps, 2);
    law_slice_flags_have_their_bits(sps, pps, 3);
    law_slice_flags_have_their_bits(sps, pps, 6);
    law_slice_flags_have_their_bits(sps, pps, 7);
    law_slice_flags_have_their_bits(sps, pps, 10);
    law_slice_flags_have_their_bits(sps, pps, 11);
}

/// Of a picture whose parameter sets have not come the least is assumed: blocks from 8 to 64
/// samples, transforms from 4 to 32, unequal partitions and smoothing, filtering across slices,
/// and nothing else that a slice header would have to say more for.
pub proof fn law_little_is_assumed(width: u16, height: u16, log2: u8, pps_id: u8)
    ensures
        ({
            let p = default_pic_params(width, height, log2, pps_id);
            &&& p.width == width
            &&& p.height == height
            &&& p.pps_id == pps_id
            &&& log2 >= 4 ==> p.log2_max_poc_lsb_minus4 + 4 == log2
            &&& p.log2_min_luma_coding_block_size_minus3 + 3 == 3
            &&& p.log2_min_luma_coding_block_size_minus3 + 3
                + p.log2_diff_max_min_luma_coding_block_size == 6
            &&& p.log2_min_transform_block_size_minus2 + 2 == 2
            &&& p.log2_min_transform_block_size_minus2 + 2
                + p.log2_diff_max_min_transform_block_size == 5
            &&& forall|n: u32|
                n < 32 ==> (#[trigger] has_bit(p.pic_fields, n) <==> n == 5 || n == 6 || n == 12)
            &&& p.slice_parsing_fields == 0
            &&& !p.deblocking_filter_override_enabled
            &&& !p.sps_temporal_mvp_enabled
            &&& !p.sao_enabled
            &&& !p.cabac_init_present
            &&& !p.slice_chroma_qp_offsets_present
            &&& p.num_extra_slice_header_bits == 0
        }),
{
    assert forall|n: u32| n < 32 implies (#[trigger] has_bit(0x1060u32, n) <==> n == 5 || n == 6
        || n == 12) by {
        assert(((0x1060u32 >> n) & 1 == 1) == (n == 5 || n == 6 || n == 12)) by (bit_vector)
            requires
                n < 32,
        ;
    }
}

} // verus!
