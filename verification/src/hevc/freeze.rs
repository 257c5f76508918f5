//! Freezing of the last good picture in place of a lost one.
use crate::hevc::concealment::{
    generate_concealment_slice, slice_bits, unit_of, ConcealmentPicParams, ConcealmentSlice,
};
use crate::hevc::escape::{count_emulation_prevention_bytes, escapes};
use crate::hevc::params::SpsFields;
use crate::hevc::pps::PpsFields;
use crate::hevc::refs::{RefPic, RpsModel, ShortTermRps};
use crate::hevc::state::{fits_i32, HevcState, StateModel};
use vstd::prelude::*;

verus! {

/// No surface.
pub const VA_INVALID_SURFACE: u32 = 0xFFFF_FFFF;

/// No object.
pub const VA_INVALID_ID: u32 = 0xFFFF_FFFF;

/// The picture is not there.
pub const VA_PICTURE_HEVC_INVALID: u32 = 0x0000_0001;

/// The picture is an earlier one that is used.
pub const VA_PICTURE_HEVC_RPS_ST_CURR_BEFORE: u32 = 0x0000_0004;

/// The picture is a later one that is used.
pub const VA_PICTURE_HEVC_RPS_ST_CURR_AFTER: u32 = 0x0000_0008;

/// How many references a decoder takes.
pub const REFERENCE_SLOTS: usize = 15;

/// A picture as a decoder takes it.
#[derive(Debug, Clone, Copy, PartialEq, Eq, Structural)]
pub struct VAPictureHEVC {
    pub picture_id: u32,
    pub pic_order_cnt: i32,
    pub flags: u32,
}

/// What a decoder is told of a picture. The sizes of tiles are all zero and left out.
#[allow(non_snake_case)]
#[derive(Debug)]
pub struct VAPictureParameterBufferHEVC {
    pub CurrPic: VAPictureHEVC,
    pub ReferenceFrames: Vec<VAPictureHEVC>,
    pub pic_width_in_luma_samples: u16,
    pub pic_height_in_luma_samples: u16,
    pub pic_fields: u32,
    pub sps_max_dec_pic_buffering_minus1: u8,
    pub bit_depth_luma_minus8: u8,
    pub bit_depth_chroma_minus8: u8,
    pub pcm_sample_bit_depth_luma_minus1: u8,
    pub pcm_sample_bit_depth_chroma_minus1: u8,
    pub log2_min_luma_coding_block_size_minus3: u8,
    pub log2_diff_max_min_luma_coding_block_size: u8,
    pub log2_min_transform_block_size_minus2: u8,
    pub log2_diff_max_min_transform_block_size: u8,
    pub log2_min_pcm_luma_coding_block_size_minus3: u8,
    pub log2_diff_max_min_pcm_luma_coding_block_size: u8,
    pub max_transform_hierarchy_depth_intra: u8,
    pub max_transform_hierarchy_depth_inter: u8,
    pub init_qp_minus26: i8,
    pub diff_cu_qp_delta_depth: u8,
    pub pps_cb_qp_offset: i8,
    pub pps_cr_qp_offset: i8,
    pub log2_parallel_merge_level_minus2: u8,
    pub num_tile_columns_minus1: u8,
    pub num_tile_rows_minus1: u8,
    pub slice_parsing_fields: u32,
    pub log2_max_pic_order_cnt_lsb_minus4: u8,
    pub num_short_term_ref_pic_sets: u8,
    pub num_long_term_ref_pic_sps: u8,
    pub num_ref_idx_l0_default_active_minus1: u8,
    pub num_ref_idx_l1_default_active_minus1: u8,
    pub pps_beta_offset_div2: i8,
    pub pps_tc_offset_div2: i8,
    pub num_extra_slice_header_bits: u8,
    pub st_rps_bits: u32,
}

/// What a decoder is told of a slice. The weights of weighted prediction are all zero and
/// left out.
#[allow(non_snake_case)]
#[derive(Debug)]
pub struct VASliceParameterBufferHEVC {
    pub slice_data_size: u32,
    pub slice_data_offset: u32,
    pub slice_data_flag: u32,
    pub slice_data_byte_offset: u32,
    pub slice_segment_address: u32,
    pub RefPicList0: Vec<u8>,
    pub RefPicList1: Vec<u8>,
    pub LongSliceFlags: u32,
    pub collocated_ref_idx: u8,
    pub num_ref_idx_l0_active_minus1: u8,
    pub num_ref_idx_l1_active_minus1: u8,
    pub slice_qp_delta: i8,
    pub slice_cb_qp_offset: i8,
    pub slice_cr_qp_offset: i8,
    pub slice_beta_offset_div2: i8,
    pub slice_tc_offset_div2: i8,
    pub five_minus_max_num_merge_cand: u8,
    pub num_entry_point_offsets: u16,
    pub entry_offset_to_subset_array: u16,
    pub slice_data_num_emu_prevn_bytes: u16,
}

/// A reference that is not there.
pub open spec fn no_picture() -> VAPictureHEVC {
    VAPictureHEVC {
        picture_id: VA_INVALID_SURFACE,
        pic_order_cnt: 0,
        flags: VA_PICTURE_HEVC_INVALID,
    }
}

/// A reference to an earlier picture.
pub open spec fn picture_before(surface: u32, poc: i32) -> VAPictureHEVC {
    VAPictureHEVC {
        picture_id: surface,
        pic_order_cnt: poc,
        flags: VA_PICTURE_HEVC_RPS_ST_CURR_BEFORE,
    }
}

/// A reference to a later picture.
pub open spec fn picture_after(surface: u32, poc: i32) -> VAPictureHEVC {
    VAPictureHEVC {
        picture_id: surface,
        pic_order_cnt: poc,
        flags: VA_PICTURE_HEVC_RPS_ST_CURR_AFTER,
    }
}

/// All references, the earlier pictures first, each with the same surface. Where there are
/// none the last good picture is referred to.
pub open spec fn references(surface: u32, last_poc: i32, rps: RpsModel) -> Seq<VAPictureHEVC> {
    if rps.empty() {
        seq![picture_before(surface, last_poc)]
    } else {
        Seq::new(
            rps.negative.len(),
            |i: int| picture_before(surface, rps.negative[i].abs_poc),
        ) + Seq::new(
            rps.positive.len(),
            |i: int| picture_after(surface, rps.positive[i].abs_poc),
        )
    }
}

/// As many references as a decoder takes, filled up with such as are not there.
pub open spec fn slots(refs: Seq<VAPictureHEVC>) -> Seq<VAPictureHEVC> {
    Seq::new(
        REFERENCE_SLOTS as nat,
        |i: int|
            if i < refs.len() {
                refs[i]
            } else {
                no_picture()
            },
    )
}

impl VAPictureParameterBufferHEVC {
    /// The parts that the parameters of the picture settle.
    pub open spec fn has_params(self, params: ConcealmentPicParams, st_rps_bits: u32) -> bool {
        &&& self.pic_width_in_luma_samples == params.width
        &&& self.pic_height_in_luma_samples == params.height
        &&& self.pic_fields == params.pic_fields
        &&& self.bit_depth_luma_minus8 == 0
        &&& self.bit_depth_chroma_minus8 == 0
        &&& self.pcm_sample_bit_depth_luma_minus1 == 7
        &&& self.pcm_sample_bit_depth_chroma_minus1 == 7
        &&& self.log2_min_luma_coding_block_size_minus3
            == params.log2_min_luma_coding_block_size_minus3
        &&& self.log2_diff_max_min_luma_coding_block_size
            == params.log2_diff_max_min_luma_coding_block_size
        &&& self.log2_min_transform_block_size_minus2
            == params.log2_min_transform_block_size_minus2
        &&& self.log2_diff_max_min_transform_block_size
            == params.log2_diff_max_min_transform_block_size
        &&& self.log2_min_pcm_luma_coding_block_size_minus3 == 0
        &&& self.log2_diff_max_min_pcm_luma_coding_block_size == 0
        &&& self.max_transform_hierarchy_depth_intra == params.max_transform_hierarchy_depth_intra
        &&& self.max_transform_hierarchy_depth_inter == params.max_transform_hierarchy_depth_inter
        &&& self.init_qp_minus26 == params.init_qp_minus26
        &&& self.diff_cu_qp_delta_depth == params.diff_cu_qp_delta_depth
        &&& self.pps_cb_qp_offset == params.pps_cb_qp_offset
        &&& self.pps_cr_qp_offset == params.pps_cr_qp_offset
        &&& self.log2_parallel_merge_level_minus2 == params.log2_parallel_merge_level_minus2
        &&& self.num_tile_columns_minus1 == 0
        &&& self.num_tile_rows_minus1 == 0
        &&& self.slice_parsing_fields == params.slice_parsing_fields & 0xFFFF_1FFF
        &&& self.log2_max_pic_order_cnt_lsb_minus4 == params.log2_max_poc_lsb_minus4
        &&& self.num_short_term_ref_pic_sets == params.num_short_term_ref_pic_sets
        &&& self.num_long_term_ref_pic_sps == 0
        &&& self.num_ref_idx_l0_default_active_minus1
            == params.num_ref_idx_l0_default_active_minus1
        &&& self.num_ref_idx_l1_default_active_minus1 == 0
        &&& self.pps_beta_offset_div2 == params.pps_beta_offset_div2
        &&& self.pps_tc_offset_div2 == params.pps_tc_offset_div2
        &&& self.num_extra_slice_header_bits == params.num_extra_slice_header_bits
        &&& self.st_rps_bits == st_rps_bits
    }
}

/// Builds what a decoder is told of a picture.
fn pic_param(
    current: VAPictureHEVC,
    frames: Vec<VAPictureHEVC>,
    buffering: u8,
    params: &ConcealmentPicParams,
    st_rps_bits: u32,
) -> (r: VAPictureParameterBufferHEVC)
    ensures
        r.CurrPic == current,
        r.ReferenceFrames@ == frames@,
        r.sps_max_dec_pic_buffering_minus1 == buffering,
        r.has_params(*params, st_rps_bits),
{
    VAPictureParameterBufferHEVC {
        CurrPic: current,
        ReferenceFrames: frames,
        pic_width_in_luma_samples: params.width,
        pic_height_in_luma_samples: params.height,
        pic_fields: params.pic_fields,
        sps_max_dec_pic_buffering_minus1: buffering,
        bit_depth_luma_minus8: 0,
        bit_depth_chroma_minus8: 0,
        pcm_sample_bit_depth_luma_minus1: 7,
        pcm_sample_bit_depth_chroma_minus1: 7,
        log2_min_luma_coding_block_size_minus3: params.log2_min_luma_coding_block_size_minus3,
        log2_diff_max_min_luma_coding_block_size: params.log2_diff_max_min_luma_coding_block_size,
        log2_min_transform_block_size_minus2: params.log2_min_transform_block_size_minus2,
        log2_diff_max_min_transform_block_size: params.log2_diff_max_min_transform_block_size,
        log2_min_pcm_luma_coding_block_size_minus3: 0,
        log2_diff_max_min_pcm_luma_coding_block_size: 0,
        max_transform_hierarchy_depth_intra: params.max_transform_hierarchy_depth_intra,
        max_transform_hierarchy_depth_inter: params.max_transform_hierarchy_depth_inter,
        init_qp_minus26: params.init_qp_minus26,
        diff_cu_qp_delta_depth: params.diff_cu_qp_delta_depth,
        pps_cb_qp_offset: params.pps_cb_qp_offset,
        pps_cr_qp_offset: params.pps_cr_qp_offset,
        log2_parallel_merge_level_minus2: params.log2_parallel_merge_level_minus2,
        num_tile_columns_minus1: 0,
        num_tile_rows_minus1: 0,
        slice_parsing_fields: params.slice_parsing_fields & 0xFFFF_1FFF,
        log2_max_pic_order_cnt_lsb_minus4: params.log2_max_poc_lsb_minus4,
        num_short_term_ref_pic_sets: params.num_short_term_ref_pic_sets,
        num_long_term_ref_pic_sps: 0,
        num_ref_idx_l0_default_active_minus1: params.num_ref_idx_l0_default_active_minus1,
        num_ref_idx_l1_default_active_minus1: 0,
        pps_beta_offset_div2: params.pps_beta_offset_div2,
        pps_tc_offset_div2: params.pps_tc_offset_div2,
        num_extra_slice_header_bits: params.num_extra_slice_header_bits,
        st_rps_bits,
    }
}

/// Fills references up.
fn fill_slots(refs: Vec<VAPictureHEVC>) -> (r: Vec<VAPictureHEVC>)
    requires
        refs@.len() <= REFERENCE_SLOTS,
    ensures
        r@ == slots(refs@),
{
    let mut out: Vec<VAPictureHEVC> = refs;
    while out.len() < REFERENCE_SLOTS
        invariant
            refs@.len() <= out@.len() <= REFERENCE_SLOTS,
            forall|i: int|
                0 <= i < out@.len() ==> #[trigger] out@[i] == if i < refs@.len() {
                    refs@[i]
                } else {
                    no_picture()
                },
        decreases REFERENCE_SLOTS - out@.len(),
    {
        out.push(
            VAPictureHEVC {
                picture_id: VA_INVALID_SURFACE,
                pic_order_cnt: 0,
                flags: VA_PICTURE_HEVC_INVALID,
            },
        );
    }
    assert(out@ =~= slots(refs@));
    out
}

/// Appends references to `pics` as far as there is room.
fn append_refs(out: &mut Vec<VAPictureHEVC>, pics: &Vec<RefPic>, surface: u32, flags: u32)
    requires
        old(out)@.len() <= REFERENCE_SLOTS,
    ensures
        final(out)@ == (old(out)@ + Seq::new(
            pics@.len(),
            |i: int|
                VAPictureHEVC { picture_id: surface, pic_order_cnt: pics@[i].abs_poc, flags },
        )).take(
            if old(out)@.len() + pics@.len() < REFERENCE_SLOTS {
                (old(out)@.len() + pics@.len()) as int
            } else {
                REFERENCE_SLOTS as int
            },
        ),
{
    let ghost start = out@;
    let ghost all = start + Seq::new(
        pics@.len(),
        |i: int| VAPictureHEVC { picture_id: surface, pic_order_cnt: pics@[i].abs_poc, flags },
    );
    let mut i: usize = 0;
    assert(out@ =~= all.take(start.len() as int));
    while i < pics.len() && out.len() < REFERENCE_SLOTS
        invariant
            i <= pics@.len(),
            out@.len() == start.len() + i,
            out@.len() <= REFERENCE_SLOTS,
            all == start + Seq::new(
                pics@.len(),
                |i: int|
                    VAPictureHEVC { picture_id: surface, pic_order_cnt: pics@[i].abs_poc, flags },
            ),
            out@ == all.take(start.len() + i),
        decreases pics@.len() - i,
    {
        out.push(
            VAPictureHEVC { picture_id: surface, pic_order_cnt: pics[i].abs_poc, flags },
        );
        i = i + 1;
        assert(out@ =~= all.take(start.len() + i));
    }
}

/// What a decoder is told of a picture that refers to the pictures of `rps`, all of them
/// with the last good surface.
pub fn fill_pic_param_hevc(
    last_surface: u32,
    concealment_surface: u32,
    last_abs_poc: i32,
    curr_abs_poc: i32,
    state: &HevcState,
    rps: &ShortTermRps,
    params: &ConcealmentPicParams,
    st_rps_bits: u32,
) -> (r: VAPictureParameterBufferHEVC)
    ensures
        r.CurrPic == (VAPictureHEVC {
            picture_id: concealment_surface,
            pic_order_cnt: curr_abs_poc,
            flags: 0,
        }),
        r.ReferenceFrames@ == slots(references(last_surface, last_abs_poc, rps@)),
        r.sps_max_dec_pic_buffering_minus1 == (if state@.dpb.len() == 0 {
            0
        } else if state@.dpb.len() > 16 {
            15
        } else {
            state@.dpb.len() - 1
        }),
        r.has_params(*params, st_rps_bits),
{
    let mut refs: Vec<VAPictureHEVC> = Vec::new();
    append_refs(&mut refs, &rps.negative, last_surface, VA_PICTURE_HEVC_RPS_ST_CURR_BEFORE);
    append_refs(&mut refs, &rps.positive, last_surface, VA_PICTURE_HEVC_RPS_ST_CURR_AFTER);
    if refs.len() == 0 {
        refs.push(
            VAPictureHEVC {
                picture_id: last_surface,
                pic_order_cnt: last_abs_poc,
                flags: VA_PICTURE_HEVC_RPS_ST_CURR_BEFORE,
            },
        );
    }
    assert(slots(refs@) =~= slots(references(last_surface, last_abs_poc, rps@)));
    let frames: Vec<VAPictureHEVC> = fill_slots(refs);
    let kept: usize = state.dpb.len().saturating_sub(1);
    let buffering: u8 = if kept < 15 {
        kept as u8
    } else {
        15
    };
    pic_param(
        VAPictureHEVC {
            picture_id: concealment_surface,
            pic_order_cnt: curr_abs_poc,
            flags: 0,
        },
        frames,
        buffering,
        params,
        st_rps_bits,
    )
}

/// What a decoder is told of a picture that refers to the last good one.
pub fn fill_pic_param_hevc_self(
    curr_surface: u32,
    curr_abs_poc: i32,
    last_surface: u32,
    last_abs_poc: i32,
    params: &ConcealmentPicParams,
    st_rps_bits: u32,
) -> (r: VAPictureParameterBufferHEVC)
    ensures
        r.CurrPic == (VAPictureHEVC {
            picture_id: curr_surface,
            pic_order_cnt: curr_abs_poc,
            flags: 0,
        }),
        r.ReferenceFrames@ == slots(seq![picture_before(last_surface, last_abs_poc)]),
        r.sps_max_dec_pic_buffering_minus1 == 0,
        r.has_params(*params, st_rps_bits),
{
    let mut refs: Vec<VAPictureHEVC> = Vec::new();
    refs.push(
        VAPictureHEVC {
            picture_id: last_surface,
            pic_order_cnt: last_abs_poc,
            flags: VA_PICTURE_HEVC_RPS_ST_CURR_BEFORE,
        },
    );
    assert(refs@ =~= seq![picture_before(last_surface, last_abs_poc)]);
    let frames: Vec<VAPictureHEVC> = fill_slots(refs);
    pic_param(
        VAPictureHEVC { picture_id: curr_surface, pic_order_cnt: curr_abs_poc, flags: 0 },
        frames,
        0,
        params,
        st_rps_bits,
    )
}

/// How many earlier references a slice uses.
pub open spec fn l0_len(rps: RpsModel) -> nat {
    if rps.negative.len() < REFERENCE_SLOTS {
        rps.negative.len()
    } else {
        REFERENCE_SLOTS as nat
    }
}

/// The references of a slice in their order; where there are none, the first one.
pub open spec fn l0_list(rps: RpsModel) -> Seq<u8> {
    Seq::new(
        REFERENCE_SLOTS as nat,
        |i: int|
            if i < l0_len(rps) || i == 0 {
                i as u8
            } else {
                0xFFu8
            },
    )
}

/// How many bytes of a unit there are behind its start code.
pub open spec fn bytes_behind_start(nalu: Seq<u8>) -> nat {
    if nalu.len() >= 4 {
        (nalu.len() - 4) as nat
    } else {
        0
    }
}

/// What a decoder is told of a slice with these references: that it is the only one of its
/// picture, predicted from earlier pictures, with one merge candidate, and where its data
/// begins: behind the unit's header and the header of the slice.
pub open spec fn slice_param_of(
    p: VASliceParameterBufferHEVC,
    slice: ConcealmentSlice,
    rps: RpsModel,
) -> bool {
    &&& p.slice_data_size == bytes_behind_start(slice.nalu_bytes@) as u32
    &&& p.slice_data_offset == 4
    &&& p.slice_data_flag == 1
    &&& p.slice_data_byte_offset == 2 + (slice.header_bits + 7) / 8
    &&& p.slice_segment_address == 0
    &&& p.RefPicList0@ == l0_list(rps)
    &&& p.RefPicList1@ == Seq::new(REFERENCE_SLOTS as nat, |i: int| 0xFFu8)
    &&& p.LongSliceFlags == 0x1805
    &&& p.collocated_ref_idx == 0xFF
    &&& p.num_ref_idx_l0_active_minus1 == (if l0_len(rps) > 0 {
        l0_len(rps) - 1
    } else {
        0
    })
    &&& p.num_ref_idx_l1_active_minus1 == 0
    &&& p.slice_qp_delta == 0
    &&& p.slice_cb_qp_offset == 0
    &&& p.slice_cr_qp_offset == 0
    &&& p.slice_beta_offset_div2 == 0
    &&& p.slice_tc_offset_div2 == 0
    &&& p.five_minus_max_num_merge_cand == 4
    &&& p.num_entry_point_offsets == 0
    &&& p.entry_offset_to_subset_array == 0
    &&& p.slice_data_num_emu_prevn_bytes == escapes(
        slice.nalu_bytes@,
        slice.nalu_bytes@.len(),
    ) as u16
}

/// What a decoder is told of a slice: the only one of its picture, predicted from earlier
/// pictures, with one merge candidate.
pub fn fill_slice_param_hevc(slice: &ConcealmentSlice, rps: &ShortTermRps) -> (r:
    VASliceParameterBufferHEVC)
    ensures
        slice_param_of(r, *slice, rps@),
{
    let num_l0: usize = if rps.negative.len() < REFERENCE_SLOTS {
        rps.negative.len()
    } else {
        REFERENCE_SLOTS
    };
    let mut l0: Vec<u8> = Vec::new();
    let mut l1: Vec<u8> = Vec::new();
    let mut i: usize = 0;
    while i < REFERENCE_SLOTS
        invariant
            i <= REFERENCE_SLOTS,
            num_l0 == l0_len(rps@),
            l0@ == l0_list(rps@).take(i as int),
            l1@ == Seq::new(i as nat, |i: int| 0xFFu8),
        decreases REFERENCE_SLOTS - i,
    {
        if i < num_l0 || i == 0 {
            l0.push(i as u8);
        } else {
            l0.push(0xFF);
        }
        l1.push(0xFF);
        i = i + 1;
        assert(l0@ =~= l0_list(rps@).take(i as int));
        assert(l1@ =~= Seq::new(i as nat, |i: int| 0xFFu8));
    }
    assert(l0@ =~= l0_list(rps@));
    let emu: usize = count_emulation_prevention_bytes(slice.nalu_bytes.as_slice());
    let header_bytes: u32 = if slice.header_bits % 8 == 0 {
        slice.header_bits / 8
    } else {
        slice.header_bits / 8 + 1
    };
    VASliceParameterBufferHEVC {
        slice_data_size: #[verifier::truncate]
        (slice.nalu_bytes.len().saturating_sub(4) as u32),
        slice_data_offset: 4,
        slice_data_flag: 0x01,
        slice_data_byte_offset: 2 + header_bytes,
        slice_segment_address: 0,
        RefPicList0: l0,
        RefPicList1: l1,
        LongSliceFlags: 0x1805,
        collocated_ref_idx: 0xFF,
        num_ref_idx_l0_active_minus1: num_l0.saturating_sub(1) as u8,
        num_ref_idx_l1_active_minus1: 0,
        slice_qp_delta: 0,
        slice_cb_qp_offset: 0,
        slice_cr_qp_offset: 0,
        slice_beta_offset_div2: 0,
        slice_tc_offset_div2: 0,
        five_minus_max_num_merge_cand: 4,
        num_entry_point_offsets: 0,
        entry_offset_to_subset_array: 0,
        slice_data_num_emu_prevn_bytes: #[verifier::truncate]
        (emu as u16),
    }
}

/// Why the last good picture cannot be frozen.
#[derive(Debug, Clone, Copy, PartialEq, Eq, Structural)]
pub enum FreezeError {
    NoSurface,
    NoDisplay,
    NoContext,
    NoParams,
    NoOutput,
    SamePicture,
}

/// The words for a reason.
pub open spec fn freeze_message(e: FreezeError) -> Seq<char> {
    match e {
        FreezeError::NoSurface => "No good surface captured yet"@,
        FreezeError::NoDisplay => "VADisplay not initialized"@,
        FreezeError::NoContext => "VAContext not initialized"@,
        FreezeError::NoParams => "PicParams template not captured"@,
        FreezeError::NoOutput => "Concealment output surface not created"@,
        FreezeError::SamePicture => "last_good_poc == curr_abs_poc, cannot build RPS"@,
    }
}

impl FreezeError {
    /// The words for the reason.
    pub fn message(&self) -> (r: &'static str)
        ensures
            r@ == freeze_message(*self),
    {
        match self {
            FreezeError::NoSurface => "No good surface captured yet",
            FreezeError::NoDisplay => "VADisplay not initialized",
            FreezeError::NoContext => "VAContext not initialized",
            FreezeError::NoParams => "PicParams template not captured",
            FreezeError::NoOutput => "Concealment output surface not created",
            FreezeError::SamePicture => "last_good_poc == curr_abs_poc, cannot build RPS",
        }
    }
}

/// All that a decoder needs to repeat the last good picture.
#[derive(Debug)]
pub struct FreezePlan {
    /// The order count of the picture that is made.
    pub curr_abs_poc: i32,
    pub slice: ConcealmentSlice,
    pub pic_param: VAPictureParameterBufferHEVC,
    pub slice_param: VASliceParameterBufferHEVC,
}

/// What has been learnt of the decoder and its last good picture. Objects of the decoder are
/// known by their numbers, a display by its address.
#[derive(Debug)]
pub struct VaapiConcealment {
    pub last_good_surface: u32,
    pub last_good_abs_poc: i32,
    pub va_context: u32,
    pub va_config: u32,
    pub va_display: u64,
    pub pic_params_template: Option<ConcealmentPicParams>,
    pub concealment_surface: u32,
}

impl Default for VaapiConcealment {
    fn default() -> (r: VaapiConcealment)
        ensures
            r == (VaapiConcealment {
                last_good_surface: VA_INVALID_SURFACE,
                last_good_abs_poc: 0,
                va_context: VA_INVALID_ID,
                va_config: VA_INVALID_ID,
                va_display: 0,
                pic_params_template: None,
                concealment_surface: VA_INVALID_SURFACE,
            }),
    {
        VaapiConcealment {
            last_good_surface: VA_INVALID_SURFACE,
            last_good_abs_poc: 0,
            va_context: VA_INVALID_ID,
            va_config: VA_INVALID_ID,
            va_display: 0,
            pic_params_template: None,
            concealment_surface: VA_INVALID_SURFACE,
        }
    }
}

/// The set with the last good picture alone.
pub open spec fn last_good_rps(last: i32, curr: i32) -> RpsModel {
    RpsModel {
        negative: seq![
            RefPic {
                abs_poc: last,
                delta_poc: (last - curr) as i32,
                used_by_curr: true,
                is_long_term: false,
            },
        ],
        positive: Seq::empty(),
    }
}

impl VaapiConcealment {
    /// There is no context yet.
    pub open spec fn lacks_context(self) -> bool {
        self.va_context == VA_INVALID_ID || self.va_context == 0
    }

    /// Why the picture with this order count cannot be made, if so.
    pub open spec fn obstacle(self, curr: int) -> Option<FreezeError> {
        if self.last_good_surface == VA_INVALID_SURFACE {
            Some(FreezeError::NoSurface)
        } else if self.va_display == 0 {
            Some(FreezeError::NoDisplay)
        } else if self.lacks_context() {
            Some(FreezeError::NoContext)
        } else if self.pic_params_template is None {
            Some(FreezeError::NoParams)
        } else if self.concealment_surface == VA_INVALID_SURFACE {
            Some(FreezeError::NoOutput)
        } else if self.last_good_abs_poc == curr {
            Some(FreezeError::SamePicture)
        } else {
            None
        }
    }

    /// The order counts and their distance fit into 32 bits, and the lower part of an order
    /// count into 64 bits.
    pub open spec fn plannable(self, state: StateModel, poc_lsb: u32) -> bool {
        &&& state.derivable(poc_lsb)
        &&& fits_i32(self.last_good_abs_poc - state.poc(poc_lsb))
        &&& self.last_good_abs_poc - state.poc(poc_lsb) > i32::MIN
        &&& self.pic_params_template is Some
            ==> self.pic_params_template->0.log2_max_poc_lsb_minus4 <= 60
    }

    /// Plans the picture with the order count whose lower part is `poc_lsb`: it repeats the
    /// last good one.
    pub fn plan_freeze(&self, state: &HevcState, poc_lsb: u32) -> (r: Result<
        FreezePlan,
        FreezeError,
    >)
        requires
            self.plannable(state@, poc_lsb),
        ensures
            ({
                let curr = state@.poc(poc_lsb) as i32;
                let params = self.pic_params_template->0;
                let rps = last_good_rps(self.last_good_abs_poc, curr);
                match r {
                    Err(e) => self.obstacle(curr as int) == Some(e),
                    Ok(plan) => {
                        &&& self.obstacle(curr as int) is None
                        &&& plan.curr_abs_poc == curr
                        &&& unit_of(
                            plan.slice.nalu_bytes@,
                            slice_bits(
                                params.pps_id,
                                poc_lsb,
                                (params.log2_max_poc_lsb_minus4 + 4) as u8,
                                rps,
                                params,
                            ),
                        )
                        &&& plan.slice.rbsp_offset == 6
                        &&& plan.slice.st_rps_bits == rps.bits().len()
                        &&& plan.slice.header_bits == slice_bits(
                            params.pps_id,
                            poc_lsb,
                            (params.log2_max_poc_lsb_minus4 + 4) as u8,
                            rps,
                            params,
                        ).len()
                        &&& plan.pic_param.CurrPic == (VAPictureHEVC {
                            picture_id: self.concealment_surface,
                            pic_order_cnt: curr,
                            flags: 0,
                        })
                        &&& plan.pic_param.ReferenceFrames@ == slots(
                            seq![picture_before(self.last_good_surface, self.last_good_abs_poc)],
                        )
                        &&& plan.pic_param.sps_max_dec_pic_buffering_minus1 == 0
                        &&& plan.pic_param.has_params(params, plan.slice.st_rps_bits)
                        &&& slice_param_of(plan.slice_param, plan.slice, rps)
                    },
                }
            }),
    {
        if self.last_good_surface == VA_INVALID_SURFACE {
            return Err(FreezeError::NoSurface);
        }
        if self.va_display == 0 {
            return Err(FreezeError::NoDisplay);
        }
        if self.va_context == VA_INVALID_ID || self.va_context == 0 {
            return Err(FreezeError::NoContext);
        }
        let params: ConcealmentPicParams = match self.pic_params_template {
            Some(params) => params,
            None => {
                return Err(FreezeError::NoParams);
            },
        };
        if self.concealment_surface == VA_INVALID_SURFACE {
            return Err(FreezeError::NoOutput);
        }
        let curr_abs_poc: i32 = state.derive_abs_poc(poc_lsb);
        let last_good_poc: i32 = self.last_good_abs_poc;
        let delta: i32 = last_good_poc - curr_abs_poc;
        if delta == 0 {
            return Err(FreezeError::SamePicture);
        }
        let mut negative: Vec<RefPic> = Vec::new();
        negative.push(
            RefPic {
                abs_poc: last_good_poc,
                delta_poc: delta,
                used_by_curr: true,
                is_long_term: false,
            },
        );
        let rps: ShortTermRps = ShortTermRps { negative, positive: Vec::new() };
        assert(rps@ =~= last_good_rps(last_good_poc, curr_abs_poc));
        let slice: ConcealmentSlice = generate_concealment_slice(
            params.pps_id,
            poc_lsb,
            params.log2_max_poc_lsb_minus4 + 4,
            &rps,
            &params,
        );
        let pic_param: VAPictureParameterBufferHEVC = fill_pic_param_hevc_self(
            self.concealment_surface,
            curr_abs_poc,
            self.last_good_surface,
            last_good_poc,
            &params,
            slice.st_rps_bits,
        );
        let slice_param: VASliceParameterBufferHEVC = fill_slice_param_hevc(&slice, &rps);
        Ok(FreezePlan { curr_abs_poc, slice, pic_param, slice_param })
    }

    /// The planned picture has been made.
    pub fn frozen(&mut self, curr_abs_poc: i32)
        ensures
            *final(self) == (VaapiConcealment { last_good_abs_poc: curr_abs_poc, ..*old(self) }),
    {
        self.last_good_abs_poc = curr_abs_poc;
    }

    /// Notes what a decoded picture shows: its surface, if it has one, and the display, if
    /// none is known yet. Returns whether a context has to be made.
    pub fn capture(
        &mut self,
        surface: Option<u32>,
        display: Option<u64>,
        curr_abs_poc: i32,
        frame_present: bool,
    ) -> (wants_context: bool)
        ensures
            ({
                let good = surface is Some && surface->0 != VA_INVALID_SURFACE;
                *final(self) == (VaapiConcealment {
                    last_good_surface: if good {
                        surface->0
                    } else {
                        old(self).last_good_surface
                    },
                    last_good_abs_poc: if good {
                        curr_abs_poc
                    } else {
                        old(self).last_good_abs_poc
                    },
                    va_display: if old(self).va_display == 0 && display is Some {
                        display->0
                    } else {
                        old(self).va_display
                    },
                    ..*old(self)
                })
            }),
            wants_context == (old(self).lacks_context() && final(self).va_display != 0
                && frame_present),
    {
        match surface {
            Some(id) => {
                if id != VA_INVALID_SURFACE {
                    self.last_good_surface = id;
                    self.last_good_abs_poc = curr_abs_poc;
                }
            },
            None => {},
        }
        if self.va_display == 0 {
            match display {
                Some(d) => {
                    self.va_display = d;
                },
                None => {},
            }
        }
        (self.va_context == VA_INVALID_ID || self.va_context == 0) && self.va_display != 0
            && frame_present
    }

    /// A context and a surface to draw on have been made.
    pub fn set_context(&mut self, config: u32, context: u32, surface: u32)
        ensures
            *final(self) == (VaapiConcealment {
                va_config: config,
                va_context: context,
                concealment_surface: surface,
                ..*old(self)
            }),
    {
        self.va_config = config;
        self.va_context = context;
        self.concealment_surface = surface;
    }
}

/// The profiles that are tried, in this order.
pub open spec fn profile_candidates() -> Seq<i32> {
    seq![19i32, 21i32, 23i32, 4i32]
}

/// The profile that is tried after `tried` others have failed.
pub fn next_profile(tried: usize) -> (r: Option<i32>)
    ensures
        r == (if tried < profile_candidates().len() {
            Some(profile_candidates()[tried as int])
        } else {
            None
        }),
{
    if tried == 0 {
        Some(19)
    } else if tried == 1 {
        Some(21)
    } else if tried == 2 {
        Some(23)
    } else if tried == 3 {
        Some(4)
    } else {
        None
    }
}

/// `unit` behind a start code.
pub open spec fn with_start_code(unit: Seq<u8>) -> Seq<u8> {
    seq![0u8, 0u8, 0u8, 1u8] + unit
}

/// A stream of a slice and the parameter sets before it, each behind a start code.
pub open spec fn debug_stream(
    vps: Seq<u8>,
    sps: Option<SpsFields>,
    pps: Option<PpsFields>,
    slice: Seq<u8>,
) -> Seq<u8> {
    with_start_code(vps) + (match sps {
        Some(s) => with_start_code(s.raw@),
        None => Seq::empty(),
    }) + (match pps {
        Some(p) => with_start_code(p.raw@),
        None => Seq::empty(),
    }) + with_start_code(slice)
}

/// Appends a unit behind a start code.
fn append_unit(out: &mut Vec<u8>, unit: &[u8])
    ensures
        final(out)@ == old(out)@ + with_start_code(unit@),
{
    let ghost start = out@;
    out.push(0);
    out.push(0);
    out.push(0);
    out.push(1);
    let ghost mid = out@;
    out.extend_from_slice(unit);
    assert(out@ =~= start + with_start_code(unit@));
}

/// A stream of a slice and the parameter sets before it, to be looked at with other tools.
pub fn dump_debug_hevc(
    vps: &[u8],
    sps: &Option<SpsFields>,
    pps: &Option<PpsFields>,
    slice: &[u8],
) -> (r: Vec<u8>)
    ensures
        r@ == debug_stream(vps@, *sps, *pps, slice@),
{
    let mut out: Vec<u8> = Vec::new();
    append_unit(&mut out, vps);
    assert(out@ =~= with_start_code(vps@));
    let ghost first = out@;
    match sps {
        Some(s) => append_unit(&mut out, s.raw.as_slice()),
        None => {
            assert(out@ =~= first + Seq::<u8>::empty());
        },
    }
    let ghost second = out@;
    match pps {
        Some(p) => append_unit(&mut out, p.raw.as_slice()),
        None => {
            assert(out@ =~= second + Seq::<u8>::empty());
        },
    }
    append_unit(&mut out, slice);
    out
}

} // verus!
