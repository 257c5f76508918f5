//! Slices that stand in for lost pictures.
use crate::hevc::bits::{
    bit_at, lemma_number_len, number_bits, packs, se_bits, ue_bits, zeros, BitWriter,
};
use crate::hevc::escape::{apply_emulation_prevention, escaped, law_unescaping_undoes_escaping};
use crate::hevc::laws::{
    law_written_bits_are_read, law_written_number_is_read, lemma_stands_split, stands_at,
};
use crate::hevc::params::{
    header_poc, header_pps, slice_header, unit_type, SpsFields,
};
use crate::hevc::pps::PpsFields;
use crate::hevc::reader::{number_at, ue_at, ue_end, ReaderModel};
use crate::hevc::refs::{lemma_ue_len, RpsModel, ShortTermRps};
use vstd::arithmetic::power2::pow2;
use vstd::prelude::*;

verus! {

/// What a decoder has to be told of a picture that stands in for a lost one.
#[derive(Debug, Clone, Copy, PartialEq, Eq, Structural)]
pub struct ConcealmentPicParams {
    pub width: u16,
    pub height: u16,
    pub log2_max_poc_lsb_minus4: u8,
    pub log2_min_luma_coding_block_size_minus3: u8,
    pub log2_diff_max_min_luma_coding_block_size: u8,
    pub log2_min_transform_block_size_minus2: u8,
    pub log2_diff_max_min_transform_block_size: u8,
    pub max_transform_hierarchy_depth_intra: u8,
    pub max_transform_hierarchy_depth_inter: u8,
    pub init_qp_minus26: i8,
    pub num_short_term_ref_pic_sets: u8,
    pub pps_id: u8,
    pub num_ref_idx_l0_default_active_minus1: u8,
    pub pic_fields: u32,
    pub slice_parsing_fields: u32,
    pub deblocking_filter_override_enabled: bool,
    pub pps_disable_deblocking_filter: bool,
    pub sps_temporal_mvp_enabled: bool,
    pub sao_enabled: bool,
    pub cabac_init_present: bool,
    pub slice_chroma_qp_offsets_present: bool,
    pub pps_cb_qp_offset: i8,
    pub pps_cr_qp_offset: i8,
    pub pps_beta_offset_div2: i8,
    pub pps_tc_offset_div2: i8,
    pub log2_parallel_merge_level_minus2: u8,
    pub num_extra_slice_header_bits: u8,
    pub diff_cu_qp_delta_depth: u8,
}

/// A slice in which every block is skipped.
#[derive(Debug)]
pub struct ConcealmentSlice {
    /// The unit behind a start code.
    pub nalu_bytes: Vec<u8>,
    /// Where the payload begins.
    pub rbsp_offset: usize,
    /// How many bits the reference picture set takes.
    pub st_rps_bits: u32,
    /// How many bits there are before the stop bit.
    pub header_bits: u32,
}

/// `bits` where `present`, else nothing.
pub open spec fn only_if(present: bool, bits: Seq<bool>) -> Seq<bool> {
    if present {
        bits
    } else {
        Seq::empty()
    }
}

/// A slice header up to the reference picture set: the first slice, of this picture
/// parameter set, predicted from one picture, with this order count; the set follows.
pub open spec fn slice_begin(pps_id: u8, poc_lsb: u32, log2: u8) -> Seq<bool> {
    seq![true] + ue_bits(pps_id as nat) + ue_bits(1) + number_bits(poc_lsb as nat, log2 as nat)
        + seq![false]
}

/// The beginning of a slice header with what says how blocks are predicted appended.
pub open spec fn with_prediction(begin: Seq<bool>, params: ConcealmentPicParams) -> Seq<bool> {
    begin + only_if(params.slice_parsing_fields & 2 != 0, ue_bits(0)) + only_if(
        params.slice_parsing_fields & 2 != 0,
        ue_bits(0),
    ) + only_if(params.sps_temporal_mvp_enabled, seq![false]) + only_if(
        params.sao_enabled,
        seq![false],
    ) + only_if(params.sao_enabled, seq![false]) + only_if(true, seq![false]) + only_if(
        params.cabac_init_present,
        seq![false],
    )
}

/// That with what says how blocks are coded and one byte of data appended.
pub open spec fn with_coding(begin: Seq<bool>, params: ConcealmentPicParams) -> Seq<bool> {
    begin + ue_bits(4) + only_if(true, se_bits(0)) + only_if(
        params.slice_chroma_qp_offsets_present,
        se_bits(0),
    ) + only_if(params.slice_chroma_qp_offsets_present, se_bits(0)) + only_if(
        params.deblocking_filter_override_enabled,
        seq![false],
    ) + only_if(params.pic_fields & 3 != 0, ue_bits(0)) + only_if(
        params.slice_parsing_fields & 0x1000 != 0,
        ue_bits(0),
    ) + number_bits(0, 8)
}

/// The bits of the slice before the stop bit.
pub open spec fn slice_bits(
    pps_id: u8,
    poc_lsb: u32,
    log2: u8,
    rps: RpsModel,
    params: ConcealmentPicParams,
) -> Seq<bool> {
    with_coding(
        with_prediction(slice_begin(pps_id, poc_lsb, log2) + rps.bits(), params),
        params,
    )
}

/// Bits with a stop bit, filled up with zeros to whole bytes.
pub open spec fn stopped(bits: Seq<bool>) -> Seq<bool> {
    bits.push(true) + zeros(((8 - (bits.len() + 1) % 8) % 8) as nat)
}

/// A start code and the header of a unit that holds a slice that may be referred to.
pub open spec fn unit_begin() -> Seq<u8> {
    seq![0u8, 0u8, 0u8, 1u8, 2u8, 1u8]
}

/// The unit whose payload holds these bits, behind a start code.
pub open spec fn unit_of(nalu: Seq<u8>, bits: Seq<bool>) -> bool {
    exists|rbsp: Seq<u8>| #[trigger]
        packs(rbsp, stopped(bits)) && nalu == unit_begin() + escaped(rbsp)
}

/// Makes the slice with this order count that refers to the pictures of `rps`.
#[verifier::spinoff_prover]
pub fn generate_concealment_slice(
    pps_id: u8,
    poc_lsb: u32,
    log2_max_poc_lsb: u8,
    rps: &ShortTermRps,
    params: &ConcealmentPicParams,
) -> (r: ConcealmentSlice)
    requires
        log2_max_poc_lsb <= 64,
        rps@.writable(),
        64 * (rps@.negative.len() + rps@.positive.len()) + 2000 <= u32::MAX,
    ensures
        r.rbsp_offset == 6,
        r.st_rps_bits == rps@.bits().len(),
        r.header_bits == slice_bits(pps_id, poc_lsb, log2_max_poc_lsb, rps@, *params).len(),
        unit_of(r.nalu_bytes@, slice_bits(pps_id, poc_lsb, log2_max_poc_lsb, rps@, *params)),
{
    let mut w: BitWriter = BitWriter::new();
    proof {
        lemma_ue_len(pps_id as nat);
        lemma_ue_len(1);
        lemma_number_len(poc_lsb as nat, log2_max_poc_lsb as nat);
    }
    w.write_bit(true);
    w.write_ue(pps_id as u32);
    w.write_ue(1);
    w.write_bits(poc_lsb as u64, log2_max_poc_lsb as usize);
    w.write_bit(false);
    let ghost begin = slice_begin(pps_id, poc_lsb, log2_max_poc_lsb);
    assert(w@ =~= begin);
    let rps_start: usize = w.bit_len();
    proof {
        crate::hevc::refs::lemma_bits_len(rps@);
    }
    rps.encode_inline(&mut w);
    let rps_end: usize = w.bit_len();
    let st_rps_bits: u32 = (rps_end - rps_start) as u32;
    write_prediction(&mut w, params);
    write_coding(&mut w, params);
    let ghost bits = slice_bits(pps_id, poc_lsb, log2_max_poc_lsb, rps@, *params);
    stop(w, st_rps_bits, Ghost(bits))
}

/// Ends the payload and puts it into a unit.
fn stop(w: BitWriter, st_rps_bits: u32, Ghost(bits): Ghost<Seq<bool>>) -> (r: ConcealmentSlice)
    requires
        w@ == bits,
        bits.len() + 10 <= u32::MAX,
    ensures
        r.rbsp_offset == 6,
        r.st_rps_bits == st_rps_bits,
        r.header_bits == bits.len(),
        unit_of(r.nalu_bytes@, bits),
{
    let mut w: BitWriter = w;
    let header_bits: usize = w.bit_len();
    w.write_bit(true);
    let ghost fill = ((8 - (bits.len() + 1) % 8) % 8) as nat;
    let ghost mut done: nat = 0;
    assert(w@ =~= bits.push(true) + zeros(0));
    while w.bit_len() % 8 != 0
        invariant
            done <= fill,
            fill == (8 - (bits.len() + 1) % 8) % 8,
            bits.len() + 10 <= usize::MAX,
            w@ == bits.push(true) + zeros(done),
        decreases fill - done,
    {
        w.write_bit(false);
        proof {
            done = done + 1;
        }
        assert(w@ =~= bits.push(true) + zeros(done));
    }
    assert(done == fill);
    assert(w@ == stopped(bits));
    let rbsp_bytes: Vec<u8> = w.into_bytes();
    let escaped_rbsp: Vec<u8> = apply_emulation_prevention(rbsp_bytes.as_slice());
    let mut nalu: Vec<u8> = Vec::new();
    nalu.push(0x00);
    nalu.push(0x00);
    nalu.push(0x00);
    nalu.push(0x01);
    nalu.push(0x02);
    nalu.push(0x01);
    assert(nalu@ =~= unit_begin());
    nalu.extend_from_slice(escaped_rbsp.as_slice());
    assert(nalu@ =~= unit_begin() + escaped(rbsp_bytes@));
    assert(packs(rbsp_bytes@, stopped(bits)));
    ConcealmentSlice {
        nalu_bytes: nalu,
        rbsp_offset: 6,
        st_rps_bits,
        header_bits: header_bits as u32,
    }
}

/// Writes an unset bit where it is due.
fn write_unset_if(w: &mut BitWriter, present: bool)
    requires
        old(w)@.len() < usize::MAX,
    ensures
        final(w)@ == old(w)@ + only_if(present, seq![false]),
        final(w)@.len() <= old(w)@.len() + 1,
{
    let ghost start = w@;
    if present {
        w.write_bit(false);
        assert(w@ =~= start + seq![false]);
    } else {
        assert(w@ =~= start + Seq::<bool>::empty());
    }
}

/// Writes the Exp-Golomb code of zero where it is due.
fn write_zero_if(w: &mut BitWriter, present: bool)
    requires
        old(w)@.len() + 64 <= usize::MAX,
    ensures
        final(w)@ == old(w)@ + only_if(present, ue_bits(0)),
        final(w)@ == old(w)@ + only_if(present, se_bits(0)),
        final(w)@.len() <= old(w)@.len() + 63,
{
    let ghost start = w@;
    proof {
        lemma_ue_len(0);
    }
    if present {
        w.write_ue(0);
    } else {
        assert(w@ =~= start + Seq::<bool>::empty());
    }
}

/// Writes how blocks are predicted.
#[verifier::spinoff_prover]
fn write_prediction(w: &mut BitWriter, params: &ConcealmentPicParams)
    requires
        old(w)@.len() + 500 <= usize::MAX,
    ensures
        final(w)@ == with_prediction(old(w)@, *params),
        final(w)@.len() <= old(w)@.len() + 200,
{
    let long_term: bool = params.slice_parsing_fields & 2 != 0;
    write_zero_if(w, long_term);
    write_zero_if(w, long_term);
    write_unset_if(w, params.sps_temporal_mvp_enabled);
    write_unset_if(w, params.sao_enabled);
    write_unset_if(w, params.sao_enabled);
    write_unset_if(w, true);
    write_unset_if(w, params.cabac_init_present);
}

/// Writes how blocks are coded and one byte of data.
#[verifier::spinoff_prover]
fn write_coding(w: &mut BitWriter, params: &ConcealmentPicParams)
    requires
        old(w)@.len() + 800 <= usize::MAX,
    ensures
        final(w)@ == with_coding(old(w)@, *params),
        final(w)@.len() <= old(w)@.len() + 500,
{
    let extension: bool = params.slice_parsing_fields & 0x1000 != 0;
    proof {
        lemma_ue_len(4);
        lemma_number_len(0, 8);
    }
    w.write_ue(4);
    write_zero_if(w, true);
    write_zero_if(w, params.slice_chroma_qp_offsets_present);
    write_zero_if(w, params.slice_chroma_qp_offsets_present);
    write_unset_if(w, params.deblocking_filter_override_enabled);
    write_zero_if(w, params.pic_fields & 3 != 0);
    write_zero_if(w, extension);
    w.write_bits(0, 8);
}

/// One flag in a word of flags.
#[verifier::opaque]
pub open spec fn flag_bit(flag: bool, bit: u32) -> u32 {
    if flag {
        1u32 << bit
    } else {
        0
    }
}

fn put_flag(flag: bool, bit: u32) -> (r: u32)
    requires
        bit < 32,
    ensures
        r == flag_bit(flag, bit),
{
    proof {
        reveal(flag_bit);
    }
    if flag {
        1u32 << bit
    } else {
        0
    }
}

/// The flags of a picture that concern its blocks.
pub open spec fn block_flags(sps: SpsFields, pps: PpsFields) -> u32 {
    flag_bit(pps.tiles_enabled_flag, 0) | flag_bit(pps.entropy_coding_sync_enabled_flag, 1)
        | flag_bit(pps.sign_data_hiding_enabled_flag, 2) | flag_bit(
        sps.scaling_list_enabled_flag,
        3,
    ) | flag_bit(pps.transform_skip_enabled_flag, 4) | flag_bit(sps.amp_enabled_flag, 5)
        | flag_bit(sps.strong_intra_smoothing_enabled_flag, 6) | flag_bit(sps.pcm_enabled_flag, 7)
        | flag_bit(pps.weighted_pred_flag, 9) | flag_bit(pps.weighted_bipred_flag, 10)
}

/// The flags of a picture that concern its slices.
pub open spec fn header_flags(pps: PpsFields) -> u32 {
    flag_bit(pps.loop_filter_across_slices_enabled_flag, 12) | flag_bit(
        pps.output_flag_present_flag,
        13,
    ) | flag_bit(pps.num_extra_slice_header_bits > 0, 14) | flag_bit(
        pps.pps_slice_chroma_qp_offsets_present_flag,
        15,
    ) | flag_bit(pps.deblocking_filter_override_enabled_flag, 16) | flag_bit(
        pps.pps_disable_deblocking_filter_flag,
        17,
    ) | flag_bit(pps.lists_modification_present_flag, 18) | flag_bit(
        pps.slice_segment_header_extension_present_flag,
        19,
    )
}

/// The flags of a picture in the order in which a decoder takes them.
pub open spec fn pic_flags(sps: SpsFields, pps: PpsFields) -> u32 {
    block_flags(sps, pps) | header_flags(pps)
}

/// The flags of a slice in the order in which a decoder takes them.
pub open spec fn slice_flags(sps: SpsFields, pps: PpsFields) -> u32 {
    flag_bit(pps.lists_modification_present_flag, 0) | flag_bit(
        sps.long_term_ref_pics_present_flag,
        1,
    ) | flag_bit(sps.sps_temporal_mvp_enabled_flag, 2) | flag_bit(pps.cabac_init_present_flag, 3)
        | flag_bit(pps.output_flag_present_flag, 4) | flag_bit(
        pps.dependent_slice_segments_enabled_flag,
        5,
    ) | flag_bit(pps.pps_slice_chroma_qp_offsets_present_flag, 6) | flag_bit(
        sps.sample_adaptive_offset_enabled_flag,
        7,
    ) | flag_bit(pps.deblocking_filter_override_enabled_flag, 10) | flag_bit(
        pps.pps_disable_deblocking_filter_flag,
        11,
    ) | flag_bit(pps.slice_segment_header_extension_present_flag, 12)
}

/// What the parameter sets say of a picture.
pub open spec fn pic_params_of(
    width: u16,
    height: u16,
    sps: SpsFields,
    pps: PpsFields,
) -> ConcealmentPicParams {
    ConcealmentPicParams {
        width,
        height,
        log2_max_poc_lsb_minus4: sps.log2_max_poc_lsb_minus4,
        log2_min_luma_coding_block_size_minus3: sps.log2_min_luma_coding_block_size_minus3,
        log2_diff_max_min_luma_coding_block_size: sps.log2_diff_max_min_luma_coding_block_size,
        log2_min_transform_block_size_minus2: sps.log2_min_transform_block_size_minus2,
        log2_diff_max_min_transform_block_size: sps.log2_diff_max_min_transform_block_size,
        max_transform_hierarchy_depth_intra: sps.max_transform_hierarchy_depth_intra,
        max_transform_hierarchy_depth_inter: sps.max_transform_hierarchy_depth_inter,
        init_qp_minus26: pps.init_qp_minus26,
        num_short_term_ref_pic_sets: sps.num_short_term_ref_pic_sets,
        pps_id: pps.pps_pic_parameter_set_id,
        num_ref_idx_l0_default_active_minus1: pps.num_ref_idx_l0_default_active_minus1,
        pic_fields: pic_flags(sps, pps),
        slice_parsing_fields: slice_flags(sps, pps),
        deblocking_filter_override_enabled: pps.deblocking_filter_override_enabled_flag,
        pps_disable_deblocking_filter: pps.pps_disable_deblocking_filter_flag,
        sps_temporal_mvp_enabled: sps.sps_temporal_mvp_enabled_flag,
        sao_enabled: sps.sample_adaptive_offset_enabled_flag,
        cabac_init_present: pps.cabac_init_present_flag,
        slice_chroma_qp_offsets_present: pps.pps_slice_chroma_qp_offsets_present_flag,
        pps_cb_qp_offset: pps.pps_cb_qp_offset,
        pps_cr_qp_offset: pps.pps_cr_qp_offset,
        pps_beta_offset_div2: pps.pps_beta_offset_div2,
        pps_tc_offset_div2: pps.pps_tc_offset_div2,
        log2_parallel_merge_level_minus2: pps.log2_parallel_merge_level_minus2,
        num_extra_slice_header_bits: pps.num_extra_slice_header_bits,
        diff_cu_qp_delta_depth: pps.diff_cu_qp_delta_depth,
    }
}

/// Gathers the flags of a picture that concern its blocks.
#[verifier::spinoff_prover]
fn gather_block_flags(sps: &SpsFields, pps: &PpsFields) -> (r: u32)
    ensures
        r == block_flags(*sps, *pps),
{
    let mut r: u32 = put_flag(pps.tiles_enabled_flag, 0);
    r = r | put_flag(pps.entropy_coding_sync_enabled_flag, 1);
    r = r | put_flag(pps.sign_data_hiding_enabled_flag, 2);
    r = r | put_flag(sps.scaling_list_enabled_flag, 3);
    r = r | put_flag(pps.transform_skip_enabled_flag, 4);
    r = r | put_flag(sps.amp_enabled_flag, 5);
    r = r | put_flag(sps.strong_intra_smoothing_enabled_flag, 6);
    r = r | put_flag(sps.pcm_enabled_flag, 7);
    r = r | put_flag(pps.weighted_pred_flag, 9);
    r = r | put_flag(pps.weighted_bipred_flag, 10);
    r
}

/// Gathers the flags of a picture that concern its slices.
#[verifier::spinoff_prover]
fn gather_header_flags(pps: &PpsFields) -> (r: u32)
    ensures
        r == header_flags(*pps),
{
    let mut r: u32 = put_flag(pps.loop_filter_across_slices_enabled_flag, 12);
    r = r | put_flag(pps.output_flag_present_flag, 13);
    r = r | put_flag(pps.num_extra_slice_header_bits > 0, 14);
    r = r | put_flag(pps.pps_slice_chroma_qp_offsets_present_flag, 15);
    r = r | put_flag(pps.deblocking_filter_override_enabled_flag, 16);
    r = r | put_flag(pps.pps_disable_deblocking_filter_flag, 17);
    r = r | put_flag(pps.lists_modification_present_flag, 18);
    r = r | put_flag(pps.slice_segment_header_extension_present_flag, 19);
    r
}

/// Gathers the flags of a slice.
#[verifier::spinoff_prover]
fn gather_slice_flags(sps: &SpsFields, pps: &PpsFields) -> (r: u32)
    ensures
        r == slice_flags(*sps, *pps),
{
    let mut r: u32 = put_flag(pps.lists_modification_present_flag, 0);
    r = r | put_flag(sps.long_term_ref_pics_present_flag, 1);
    r = r | put_flag(sps.sps_temporal_mvp_enabled_flag, 2);
    r = r | put_flag(pps.cabac_init_present_flag, 3);
    r = r | put_flag(pps.output_flag_present_flag, 4);
    r = r | put_flag(pps.dependent_slice_segments_enabled_flag, 5);
    r = r | put_flag(pps.pps_slice_chroma_qp_offsets_present_flag, 6);
    r = r | put_flag(sps.sample_adaptive_offset_enabled_flag, 7);
    r = r | put_flag(pps.deblocking_filter_override_enabled_flag, 10);
    r = r | put_flag(pps.pps_disable_deblocking_filter_flag, 11);
    r = r | put_flag(pps.slice_segment_header_extension_present_flag, 12);
    r
}

/// Gathers what the parameter sets say of a picture.
pub fn build_concealment_pic_params(
    width: u16,
    height: u16,
    sps: &SpsFields,
    pps: &PpsFields,
) -> (r: ConcealmentPicParams)
    ensures
        r == pic_params_of(width, height, *sps, *pps),
{
    let pic_fields: u32 = gather_block_flags(sps, pps) | gather_header_flags(pps);
    let slice_parsing_fields: u32 = gather_slice_flags(sps, pps);
    ConcealmentPicParams {
        width,
        height,
        log2_max_poc_lsb_minus4: sps.log2_max_poc_lsb_minus4,
        log2_min_luma_coding_block_size_minus3: sps.log2_min_luma_coding_block_size_minus3,
        log2_diff_max_min_luma_coding_block_size: sps.log2_diff_max_min_luma_coding_block_size,
        log2_min_transform_block_size_minus2: sps.log2_min_transform_block_size_minus2,
        log2_diff_max_min_transform_block_size: sps.log2_diff_max_min_transform_block_size,
        max_transform_hierarchy_depth_intra: sps.max_transform_hierarchy_depth_intra,
        max_transform_hierarchy_depth_inter: sps.max_transform_hierarchy_depth_inter,
        init_qp_minus26: pps.init_qp_minus26,
        num_short_term_ref_pic_sets: sps.num_short_term_ref_pic_sets,
        pps_id: pps.pps_pic_parameter_set_id,
        num_ref_idx_l0_default_active_minus1: pps.num_ref_idx_l0_default_active_minus1,
        pic_fields,
        slice_parsing_fields,
        deblocking_filter_override_enabled: pps.deblocking_filter_override_enabled_flag,
        pps_disable_deblocking_filter: pps.pps_disable_deblocking_filter_flag,
        sps_temporal_mvp_enabled: sps.sps_temporal_mvp_enabled_flag,
        sao_enabled: sps.sample_adaptive_offset_enabled_flag,
        cabac_init_present: pps.cabac_init_present_flag,
        slice_chroma_qp_offsets_present: pps.pps_slice_chroma_qp_offsets_present_flag,
        pps_cb_qp_offset: pps.pps_cb_qp_offset,
        pps_cr_qp_offset: pps.pps_cr_qp_offset,
        pps_beta_offset_div2: pps.pps_beta_offset_div2,
        pps_tc_offset_div2: pps.pps_tc_offset_div2,
        log2_parallel_merge_level_minus2: pps.log2_parallel_merge_level_minus2,
        num_extra_slice_header_bits: pps.num_extra_slice_header_bits,
        diff_cu_qp_delta_depth: pps.diff_cu_qp_delta_depth,
    }
}

/// What is assumed of a picture while no parameter sets have come: asymmetric partitions,
/// strong smoothing and filtering across slices, blocks of 8 to 64 samples, transforms of 4
/// to 32 samples, and nothing else switched on.
pub open spec fn default_pic_params(width: u16, height: u16, log2: u8, pps_id: u8) -> ConcealmentPicParams {
    ConcealmentPicParams {
        width,
        height,
        log2_max_poc_lsb_minus4: (if log2 < 4 {
            0
        } else {
            log2 - 4
        }) as u8,
        log2_min_luma_coding_block_size_minus3: 0,
        log2_diff_max_min_luma_coding_block_size: 3,
        log2_min_transform_block_size_minus2: 0,
        log2_diff_max_min_transform_block_size: 3,
        max_transform_hierarchy_depth_intra: 2,
        max_transform_hierarchy_depth_inter: 2,
        init_qp_minus26: 0,
        num_short_term_ref_pic_sets: 0,
        pps_id,
        num_ref_idx_l0_default_active_minus1: 0,
        pic_fields: 0x1060,
        slice_parsing_fields: 0,
        deblocking_filter_override_enabled: false,
        pps_disable_deblocking_filter: false,
        sps_temporal_mvp_enabled: false,
        sao_enabled: false,
        cabac_init_present: false,
        slice_chroma_qp_offsets_present: false,
        pps_cb_qp_offset: 0,
        pps_cr_qp_offset: 0,
        pps_beta_offset_div2: 0,
        pps_tc_offset_div2: 0,
        log2_parallel_merge_level_minus2: 0,
        num_extra_slice_header_bits: 0,
        diff_cu_qp_delta_depth: 0,
    }
}

/// What is assumed of a picture while no parameter sets have come.
pub fn make_default_pic_params(width: u16, height: u16, log2_max_poc_lsb: u8, pps_id: u8) -> (r:
    ConcealmentPicParams)
    ensures
        r == default_pic_params(width, height, log2_max_poc_lsb, pps_id),
{
    ConcealmentPicParams {
        width,
        height,
        log2_max_poc_lsb_minus4: log2_max_poc_lsb.saturating_sub(4),
        log2_min_luma_coding_block_size_minus3: 0,
        log2_diff_max_min_luma_coding_block_size: 3,
        log2_min_transform_block_size_minus2: 0,
        log2_diff_max_min_transform_block_size: 3,
        max_transform_hierarchy_depth_intra: 2,
        max_transform_hierarchy_depth_inter: 2,
        init_qp_minus26: 0,
        num_short_term_ref_pic_sets: 0,
        pps_id,
        num_ref_idx_l0_default_active_minus1: 0,
        pic_fields: 0x1060,
        slice_parsing_fields: 0,
        deblocking_filter_override_enabled: false,
        pps_disable_deblocking_filter: false,
        sps_temporal_mvp_enabled: false,
        sao_enabled: false,
        cabac_init_present: false,
        slice_chroma_qp_offsets_present: false,
        pps_cb_qp_offset: 0,
        pps_cr_qp_offset: 0,
        pps_beta_offset_div2: 0,
        pps_tc_offset_div2: 0,
        log2_parallel_merge_level_minus2: 0,
        num_extra_slice_header_bits: 0,
        diff_cu_qp_delta_depth: 0,
    }
}

/// Whoever reads the header of a slice that stands in for a picture finds the order count
/// and the picture parameter set that were put into it.
pub proof fn law_slice_says_its_order_count(
    nalu: Seq<u8>,
    pps_id: u8,
    poc_lsb: u32,
    log2: u8,
    rps: RpsModel,
    params: ConcealmentPicParams,
)
    requires
        log2 <= 32,
        unit_of(nalu, slice_bits(pps_id, poc_lsb, log2, rps, params)),
        slice_header(nalu.skip(4), log2) is Some,
    ensures
        slice_header(nalu.skip(4), log2)->0.poc_lsb == poc_lsb as nat % pow2(log2 as nat),
        slice_header(nalu.skip(4), log2)->0.pps_id == pps_id,
{
    let bits = slice_bits(pps_id, poc_lsb, log2, rps, params);
    let rbsp = choose|rbsp: Seq<u8>| #[trigger]
        packs(rbsp, stopped(bits)) && nalu == unit_begin() + escaped(rbsp);
    let unit = nalu.skip(4);
    assert(unit =~= seq![2u8, 1u8] + escaped(rbsp));
    assert(unit.skip(2) =~= escaped(rbsp));
    law_unescaping_undoes_escaping(rbsp);
    assert(stands_at(rbsp, 0, bits)) by {
        assert(crate::hevc::bits::bits_from(rbsp, 0, bits.len()) =~= bits);
    }
    let begin = slice_begin(pps_id, poc_lsb, log2);
    lemma_begin_stands(rbsp, begin + rps.bits(), params);
    lemma_stands_split(rbsp, 0, begin, rps.bits());
    lemma_header(unit, rbsp, pps_id, poc_lsb, log2);
}

/// The header of a unit with this payload says what was written.
proof fn lemma_header(unit: Seq<u8>, rbsp: Seq<u8>, pps_id: u8, poc_lsb: u32, log2: u8)
    requires
        log2 <= 32,
        unit.len() >= 2,
        unit[0] == 2,
        ReaderModel::of_unit(unit).bytes == rbsp,
        stands_at(rbsp, 0, slice_begin(pps_id, poc_lsb, log2)),
        slice_header(unit, log2) is Some,
    ensures
        slice_header(unit, log2)->0.poc_lsb == poc_lsb as nat % pow2(log2 as nat),
        slice_header(unit, log2)->0.pps_id == pps_id,
{
    let c = ReaderModel::of_unit(unit);
    let first = unit[0];
    assert((first >> 1) & 0x3F == 1) by (bit_vector)
        requires
            first == 2,
    ;
    assert(unit_type(unit) == 1);
    lemma_begin_is_read(rbsp, pps_id, poc_lsb, log2);
    assert(header_pps(unit) == c.skip(1));
    assert(header_poc(unit) == c.skip(1).after_ue().after_ue());
    vstd::arithmetic::power2::lemma2_to64();
    vstd::arithmetic::power2::lemma_pow2_pos(log2 as nat);
    if log2 < 32 {
        vstd::arithmetic::power2::lemma_pow2_strictly_increases(log2 as nat, 32);
    }
    let m = poc_lsb as nat % pow2(log2 as nat);
    assert(m < pow2(log2 as nat) <= 0x1_0000_0000);
    assert(header_poc(unit).bits(log2 as nat) == m);
}

/// The beginning of a slice is read as it was written.
proof fn lemma_begin_is_read(rbsp: Seq<u8>, pps_id: u8, poc_lsb: u32, log2: u8)
    requires
        stands_at(rbsp, 0, slice_begin(pps_id, poc_lsb, log2)),
    ensures
        bit_at(rbsp, 0),
        ue_at(rbsp, 1) == pps_id,
        ue_end(rbsp, 1) == 1 + ue_bits(pps_id as nat).len(),
        ue_end(rbsp, ue_end(rbsp, 1)) == 1 + ue_bits(pps_id as nat).len() + ue_bits(1).len(),
        number_at(rbsp, ue_end(rbsp, ue_end(rbsp, 1)), log2 as nat) == poc_lsb as nat % pow2(
            log2 as nat,
        ),
{
    let id = ue_bits(pps_id as nat);
    let ty = ue_bits(1);
    let num = number_bits(poc_lsb as nat, log2 as nat);
    lemma_stands_split(rbsp, 0, seq![true] + id + ty + num, seq![false]);
    lemma_stands_split(rbsp, 0, seq![true] + id + ty, num);
    lemma_stands_split(rbsp, 0, seq![true] + id, ty);
    lemma_stands_split(rbsp, 0, seq![true], id);
    law_written_number_is_read(rbsp, 1, pps_id as nat);
    law_written_number_is_read(rbsp, (1 + id.len()) as int, 1);
    law_written_bits_are_read(rbsp, (1 + id.len() + ty.len()) as int, poc_lsb as nat, log2 as nat);
    assert(crate::hevc::bits::bits_from(rbsp, 0, 1)[0] == seq![true][0]);
}

/// Where the whole slice stands its beginning does.
proof fn lemma_begin_stands(rbsp: Seq<u8>, begin: Seq<bool>, params: ConcealmentPicParams)
    requires
        stands_at(rbsp, 0, with_coding(with_prediction(begin, params), params)),
    ensures
        stands_at(rbsp, 0, begin),
{
    lemma_coding_stands(rbsp, with_prediction(begin, params), params);
    lemma_prediction_stands(rbsp, begin, params);
}

#[verifier::spinoff_prover]
proof fn lemma_prediction_stands(rbsp: Seq<u8>, begin: Seq<bool>, params: ConcealmentPicParams)
    requires
        stands_at(rbsp, 0, with_prediction(begin, params)),
    ensures
        stands_at(rbsp, 0, begin),
{
    let z = ue_bits(0);
    let f = seq![false];
    let l = params.slice_parsing_fields & 2 != 0;
    let x1 = begin + only_if(l, z);
    let x2 = x1 + only_if(l, z);
    let x3 = x2 + only_if(params.sps_temporal_mvp_enabled, f);
    let x4 = x3 + only_if(params.sao_enabled, f);
    let x5 = x4 + only_if(params.sao_enabled, f);
    let x6 = x5 + only_if(true, f);
    lemma_stands_split(rbsp, 0, x6, only_if(params.cabac_init_present, f));
    lemma_stands_split(rbsp, 0, x5, only_if(true, f));
    lemma_stands_split(rbsp, 0, x4, only_if(params.sao_enabled, f));
    lemma_stands_split(rbsp, 0, x3, only_if(params.sao_enabled, f));
    lemma_stands_split(rbsp, 0, x2, only_if(params.sps_temporal_mvp_enabled, f));
    lemma_stands_split(rbsp, 0, x1, only_if(l, z));
    lemma_stands_split(rbsp, 0, begin, only_if(l, z));
}

#[verifier::spinoff_prover]
proof fn lemma_coding_stands(rbsp: Seq<u8>, begin: Seq<bool>, params: ConcealmentPicParams)
    requires
        stands_at(rbsp, 0, with_coding(begin, params)),
    ensures
        stands_at(rbsp, 0, begin),
{
    let z = ue_bits(0);
    let s = se_bits(0);
    let f = seq![false];
    let x1 = begin + ue_bits(4);
    let x2 = x1 + only_if(true, s);
    let x3 = x2 + only_if(params.slice_chroma_qp_offsets_present, s);
    let x4 = x3 + only_if(params.slice_chroma_qp_offsets_present, s);
    let x5 = x4 + only_if(params.deblocking_filter_override_enabled, f);
    let x6 = x5 + only_if(params.pic_fields & 3 != 0, z);
    let x7 = x6 + only_if(params.slice_parsing_fields & 0x1000 != 0, z);
    lemma_stands_split(rbsp, 0, x7, number_bits(0, 8));
    lemma_stands_split(rbsp, 0, x6, only_if(params.slice_parsing_fields & 0x1000 != 0, z));
    lemma_stands_split(rbsp, 0, x5, only_if(params.pic_fields & 3 != 0, z));
    lemma_stands_split(rbsp, 0, x4, only_if(params.deblocking_filter_override_enabled, f));
    lemma_stands_split(rbsp, 0, x3, only_if(params.slice_chroma_qp_offsets_present, s));
    lemma_stands_split(rbsp, 0, x2, only_if(params.slice_chroma_qp_offsets_present, s));
    lemma_stands_split(rbsp, 0, x1, only_if(true, s));
    lemma_stands_split(rbsp, 0, begin, ue_bits(4));
}

} // verus!
