use stream_core::hevc::concealment::{
    build_concealment_pic_params, generate_concealment_slice, make_default_pic_params,
};
use stream_core::hevc::freeze::{
    dump_debug_hevc, fill_pic_param_hevc, fill_pic_param_hevc_self, fill_slice_param_hevc,
    next_profile, FreezeError, VaapiConcealment, VA_INVALID_SURFACE,
};
use stream_core::hevc::params::{HevcSpsInfo, SliceHeaderInfo};
use stream_core::hevc::refs::{RefPic, ShortTermRps};
use stream_core::hevc::state::HevcState;

fn one_before() -> ShortTermRps {
    ShortTermRps {
        negative: vec![RefPic { abs_poc: 4, delta_poc: -1, used_by_curr: true, is_long_term: false }],
        positive: vec![],
    }
}

#[test]
fn slice_tells_its_order_count() {
    let params = make_default_pic_params(1920, 1080, 8, 0);
    let s = generate_concealment_slice(0, 5, 8, &one_before(), &params);
    assert_eq!(&s.nalu_bytes[..6], &[0, 0, 0, 1, 2, 1]);
    assert_eq!(s.rbsp_offset, 6);
    assert!(s.st_rps_bits > 0 && s.header_bits > s.st_rps_bits);
    let h = SliceHeaderInfo::parse(&s.nalu_bytes[4..], &HevcSpsInfo { log2_max_poc_lsb: 8 }).unwrap();
    assert_eq!((h.poc_lsb, h.pps_id), (5, 0));
}

#[test]
fn default_parameters_have_the_size() {
    let p = make_default_pic_params(640, 480, 8, 3);
    assert_eq!((p.width, p.height, p.pps_id), (640, 480, 3));
    assert_eq!(p.log2_max_poc_lsb_minus4, 4);
}

#[test]
fn slice_parameters_list_the_references() {
    let params = make_default_pic_params(640, 480, 8, 0);
    let s = generate_concealment_slice(0, 5, 8, &one_before(), &params);
    let p = fill_slice_param_hevc(&s, &one_before());
    assert_eq!(p.slice_data_size as usize, s.nalu_bytes[4..].len());
    assert_eq!((p.slice_data_offset, p.slice_data_flag), (4, 1));
    assert_eq!(s.header_bits, 36);
    assert_eq!(p.slice_data_byte_offset, 7);
    assert_eq!(p.RefPicList0.len(), 15);
    assert_eq!((p.RefPicList0[0], p.RefPicList0[1], p.RefPicList1[0]), (0, 0xff, 0xff));
    assert_eq!(p.LongSliceFlags, 0b1_1000_0000_0101);
    assert_eq!(p.five_minus_max_num_merge_cand, 4);
}

#[test]
fn picture_parameters_name_the_pictures() {
    let params = make_default_pic_params(640, 480, 8, 0);
    let p = fill_pic_param_hevc_self(7, 5, 6, 4, &params, 9);
    assert_eq!((p.CurrPic.picture_id, p.CurrPic.pic_order_cnt), (7, 5));
    assert_eq!(p.ReferenceFrames.len(), 15);
    assert_eq!((p.ReferenceFrames[0].picture_id, p.ReferenceFrames[0].pic_order_cnt), (6, 4));
    assert_eq!(p.ReferenceFrames[1].picture_id, VA_INVALID_SURFACE);
    assert_eq!((p.pic_width_in_luma_samples, p.pic_height_in_luma_samples), (640, 480));
    assert_eq!(p.st_rps_bits, 9);
    let state = HevcState::new(8);
    let q = fill_pic_param_hevc(6, 7, 4, 5, &state, &one_before(), &params, 9);
    assert_eq!((q.CurrPic.picture_id, q.CurrPic.pic_order_cnt), (7, 5));
}

#[test]
fn freeze_is_planned_once_all_is_known() {
    let state = HevcState::new(8);
    let mut c = VaapiConcealment::default();
    assert_eq!(c.plan_freeze(&state, 5).err(), Some(FreezeError::NoSurface));
    c.capture(Some(6), None, 4, true);
    assert_eq!(c.plan_freeze(&state, 5).err(), Some(FreezeError::NoDisplay));
    c.capture(Some(6), Some(99), 4, true);
    assert_eq!(c.plan_freeze(&state, 5).err(), Some(FreezeError::NoContext));
    c.set_context(1, 2, VA_INVALID_SURFACE);
    assert_eq!(c.plan_freeze(&state, 5).err(), Some(FreezeError::NoParams));
    c.pic_params_template = Some(make_default_pic_params(640, 480, 8, 0));
    assert_eq!(c.plan_freeze(&state, 5).err(), Some(FreezeError::NoOutput));
    c.set_context(1, 2, 7);
    c.last_good_abs_poc = 5;
    assert_eq!(c.plan_freeze(&state, 5).err(), Some(FreezeError::SamePicture));
    c.last_good_abs_poc = 4;
    let plan = c.plan_freeze(&state, 5).unwrap();
    assert_eq!(plan.curr_abs_poc, 5);
    assert_eq!(plan.pic_param.CurrPic.picture_id, 7);
    assert_eq!(plan.pic_param.ReferenceFrames[0].picture_id, 6);
    assert_eq!(plan.slice_param.slice_data_size as usize, plan.slice.nalu_bytes[4..].len());
    assert_eq!((plan.slice_param.slice_data_offset, plan.slice_param.slice_data_byte_offset), (4, 7));
    assert_eq!(plan.slice_param.LongSliceFlags, 0x1805);
    assert_eq!(plan.slice_param.five_minus_max_num_merge_cand, 4);
    c.frozen(plan.curr_abs_poc);
    assert_eq!(c.last_good_abs_poc, 5);
}

#[test]
fn reasons_have_words() {
    assert_eq!(FreezeError::NoSurface.message(), "No good surface captured yet");
    assert_eq!(FreezeError::NoDisplay.message(), "VADisplay not initialized");
    assert_eq!(FreezeError::NoContext.message(), "VAContext not initialized");
    assert_eq!(FreezeError::NoParams.message(), "PicParams template not captured");
    assert_eq!(FreezeError::NoOutput.message(), "Concealment output surface not created");
    assert_eq!(
        FreezeError::SamePicture.message(),
        "last_good_poc == curr_abs_poc, cannot build RPS"
    );
}

#[test]
fn profiles_are_tried_in_order() {
    let all: Vec<i32> = (0..5).filter_map(next_profile).collect();
    assert_eq!(all, vec![19, 21, 23, 4]);
}

#[test]
fn stream_can_be_looked_at() {
    assert_eq!(
        dump_debug_hevc(&[9], &None, &None, &[8, 7]),
        vec![0, 0, 0, 1, 9, 0, 0, 0, 1, 8, 7]
    );
}

#[test]
fn parameters_come_from_the_parameter_sets() {
    let sps_unit = [0x42u8, 0x01, 0xff, 0xff, 0xff, 0xff, 0xff, 0xff, 0xff, 0xff, 0xff, 0xff, 0xff, 0xff,
        0xff, 0xff, 0xff, 0xff, 0xff, 0xff, 0xff, 0xff];
    let sps = stream_core::hevc::params::SpsFields::parse(&sps_unit).unwrap();
    let pps = stream_core::hevc::pps::PpsFields::parse(&[0x44, 1, 0xff, 0xff, 0xff, 0xff, 0xff, 0xff]).unwrap();
    let p = build_concealment_pic_params(320, 240, &sps, &pps);
    assert_eq!((p.width, p.height), (320, 240));
    assert_eq!(p.log2_max_poc_lsb_minus4, sps.log2_max_poc_lsb_minus4);
    assert_eq!(p.pps_id, pps.pps_pic_parameter_set_id);
    assert_eq!(p.init_qp_minus26, pps.init_qp_minus26);
    assert_eq!(p.cabac_init_present, pps.cabac_init_present_flag);
}
