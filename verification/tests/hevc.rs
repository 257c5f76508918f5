use stream_core::hevc::bits::{bits_to_bytes, get_bit, splice_bits, write_bits, BitWriter};
use stream_core::hevc::escape::{apply_emulation_prevention, count_emulation_prevention_bytes};
use stream_core::hevc::params::{HevcSpsInfo, SliceHeaderInfo, SpsFields};
use stream_core::hevc::pps::PpsFields;
use stream_core::hevc::reader::RbspReader;
use stream_core::hevc::refs::{DpbEntry, RefPic, ShortTermRps};
use stream_core::hevc::state::HevcState;
use stream_core::hevc::template::SkipFrameTemplate;

fn near(abs_poc: i32, delta_poc: i32) -> RefPic {
    RefPic { abs_poc, delta_poc, used_by_curr: true, is_long_term: false }
}

fn held(abs_poc: i32) -> DpbEntry {
    DpbEntry { abs_poc, lsb: abs_poc as u32, long_term: false, is_reference: true, output_marked: false }
}

#[test]
fn bits_are_written_from_the_top() {
    let mut w = BitWriter::new();
    w.write_bit(true);
    w.write_bits(0b0110, 4);
    assert_eq!(w.bit_len(), 5);
    w.write_ue(0);
    w.write_ue(3);
    assert_eq!(w.bit_len(), 11);
    assert_eq!(w.into_bytes(), vec![0b10110100, 0b10000000]);
}

#[test]
fn signed_codes_are_written() {
    for (v, bits) in [(0, vec![0x80]), (1, vec![0x40]), (-1, vec![0x60]), (2, vec![0x20])] {
        let mut w = BitWriter::default();
        w.write_se(v);
        assert_eq!(w.into_bytes(), bits);
    }
}

#[test]
fn written_numbers_are_read() {
    let mut w = BitWriter::new();
    w.write_ue(17);
    w.write_se(-9);
    w.write_bits(0x2a5, 10);
    w.write_bit(true);
    w.write_bit(true);
    let mut r = RbspReader::new(&w.into_bytes());
    assert_eq!(r.read_ue(), 17);
    assert_eq!(r.read_se(), -9);
    assert_eq!(r.read_bits(10), 0x2a5);
    assert_eq!(r.read_bit(), 1);
    assert!(r.read_flag());
    assert_eq!(r.current_bit_pos(), 9 + 9 + 12);
}

#[test]
fn reader_ends_in_zeros() {
    let mut r = RbspReader::new(&[0xff]);
    assert_eq!(r.read_bits(8), 0xff);
    assert_eq!(r.read_bits(8), 0);
}

#[test]
fn codes_are_skipped() {
    let mut w = BitWriter::new();
    w.write_ue(5);
    w.write_ue(6);
    w.write_ue(7);
    let mut r = RbspReader::new(&w.into_bytes());
    r.skip_ues(2);
    assert_eq!(r.read_ue(), 7);
}

#[test]
fn reader_drops_escapes() {
    let mut r = RbspReader::new(&[0, 0, 3, 1]);
    assert_eq!(r.read_bits(24), 1);
}

#[test]
fn single_bits_are_got() {
    assert_eq!(get_bit(&[0b0100_0000], 1), 1);
    assert_eq!(get_bit(&[0b0100_0000], 2), 0);
    assert_eq!(get_bit(&[0b0100_0000], 9), 0);
    assert_eq!(bits_to_bytes(&[1, 0, 1, 0, 0, 0, 0, 0, 1]), vec![0xa0, 0x80]);
}

#[test]
fn bits_are_replaced() {
    assert_eq!(splice_bits(&[0b1111_0000], 2, 2, &[0b0000_0000], 4), vec![0b1100_0000, 0]);
    let mut buf = vec![0u8, 0xff];
    write_bits(&mut buf, 6, 4, 0b1001);
    assert_eq!(buf, vec![0b0000_0010, 0b0111_1111]);
}

#[test]
fn start_codes_are_escaped() {
    let raw = [0u8, 0, 0, 0, 0, 1, 0, 0, 3, 0, 0, 4];
    let escaped = apply_emulation_prevention(&raw);
    assert_eq!(escaped, vec![0, 0, 3, 0, 0, 3, 0, 1, 0, 0, 3, 3, 0, 0, 4]);
    let mut unit = vec![2u8, 1];
    unit.extend_from_slice(&escaped);
    assert_eq!(count_emulation_prevention_bytes(&unit), 3);
    let mut r = RbspReader::new(&escaped);
    let back: Vec<u8> = (0..raw.len()).map(|_| r.read_bits(8) as u8).collect();
    assert_eq!(back, raw);
}

#[test]
fn order_counts_wrap_around() {
    let mut s = HevcState::new(4);
    assert_eq!(s.max_poc_lsb, 16);
    assert_eq!(s.remember_picture(7, true, false, false), 7);
    assert_eq!(s.remember_picture(14, true, false, false), 14);
    assert_eq!(s.derive_abs_poc(15), 15);
    assert_eq!(s.derive_abs_poc(1), 17);
    assert_eq!(s.remember_picture(1, true, false, false), 17);
    assert_eq!(s.derive_abs_poc(15), 15);
    assert_eq!((s.prev_poc_msb, s.prev_poc_lsb), (16, 1));
}

#[test]
fn buffer_keeps_the_latest_pictures() {
    let mut s = HevcState::new(8);
    for i in 0..20 {
        s.remember_picture(i, true, false, false);
    }
    assert_eq!(s.dpb.len(), 16);
    assert_eq!(s.dpb[0].abs_poc, 4);
    s.mark_output_and_prune(5);
    assert!(s.dpb.iter().any(|e| e.abs_poc == 5 && e.output_marked));
    assert_eq!(s.remember_picture(20, false, false, false), 20);
    assert_eq!(s.dpb.len(), 16);
}

#[test]
fn references_are_the_closest_first() {
    let mut s = HevcState::new(8);
    s.dpb = vec![held(1), held(9), held(5), held(12)];
    assert_eq!(s.build_short_term_reference_list(8, 3), vec![9, 5, 12]);
    let rps = s.build_short_term_rps(8);
    assert_eq!(rps.negative.iter().map(|r| r.delta_poc).collect::<Vec<i32>>(), vec![-3, -7]);
    assert_eq!(rps.positive.iter().map(|r| r.delta_poc).collect::<Vec<i32>>(), vec![1, 4]);
    assert_eq!(rps.total_refs(), 4);
    assert!(!rps.is_empty());
    assert_eq!(rps.duplicate().total_refs(), 4);
}

#[test]
fn saved_set_is_cut_to_what_is_there() {
    let mut s = HevcState::new(8);
    s.dpb = vec![held(1), held(5)];
    assert!(s.rebuild_last_valid_rps(8).is_some());
    s.dpb = vec![held(5)];
    let rps = s.current_concealment_rps(9).unwrap();
    assert_eq!(rps.negative.len(), 1);
    assert_eq!(rps.negative[0].delta_poc, -3);
    let filtered = s.filter_rps_to_dpb(&ShortTermRps { negative: vec![near(1, -7)], positive: vec![] });
    assert!(filtered.is_empty());
    s.dpb = vec![];
    assert!(s.current_concealment_rps(9).is_none());
}

#[test]
fn set_is_written_inline() {
    let rps = ShortTermRps { negative: vec![near(7, -1), near(5, -3)], positive: vec![near(9, 1)] };
    let mut w = BitWriter::new();
    rps.encode_inline(&mut w);
    let n = w.bit_len();
    let mut r = RbspReader::new(&w.into_bytes());
    let mut seen = vec![];
    while r.current_bit_pos() < n {
        seen.push(r.read_bit());
    }
    assert_eq!(seen.len(), n);
    let (bytes, len) = rps.serialize_inline_compact(n).unwrap();
    assert_eq!(len, n);
    assert_eq!(bytes.len(), (n + 7) / 8);
    let (_, shorter) = rps.serialize_inline_compact(n - 1).unwrap();
    assert!(shorter < n);
    assert!(rps.serialize_inline_compact(0).is_none());
}

#[test]
fn set_of_the_state_is_serialised() {
    let mut s = HevcState::new(8);
    s.dpb = vec![held(7)];
    assert!(s.serialize_inline_short_term_rps(8).is_some());
    s.dpb = vec![];
    assert!(s.serialize_inline_short_term_rps(8).is_none());
}

#[test]
fn set_without_references_is_empty() {
    assert!(ShortTermRps::default().is_empty());
    let rps = ShortTermRps { negative: vec![near(7, -1)], positive: vec![near(9, 1)] };
    let kept = rps.filter_by_dpb(&vec![held(9)]);
    assert_eq!((kept.negative.len(), kept.positive.len()), (0, 1));
}

fn slice_header(poc_lsb: u64) -> Vec<u8> {
    let mut w = BitWriter::new();
    w.write_bit(true);
    w.write_ue(2);
    w.write_ue(1);
    w.write_bits(poc_lsb, 8);
    w.write_bit(false);
    w.write_ue(1);
    w.write_ue(0);
    w.write_ue(0);
    w.write_bit(true);
    w.write_bits(0x55, 8);
    let mut unit = vec![0x02, 0x01];
    unit.extend_from_slice(&w.into_bytes());
    unit
}

#[test]
fn slice_header_is_read() {
    let h = SliceHeaderInfo::parse(&slice_header(0x5a), &HevcSpsInfo { log2_max_poc_lsb: 8 }).unwrap();
    assert_eq!(h.poc_lsb, 0x5a);
    assert_eq!(h.pps_id, 2);
    assert_eq!(h.poc_lsb_len, 8);
    assert_eq!(h.poc_lsb_bit_offset, 16 + 1 + 3 + 3);
    assert_eq!(h.rps_bit_offset, 16 + 1 + 3 + 3 + 8);
    assert_eq!(h.rps_original_bit_len, 1 + 3 + 1 + 1 + 1);
    assert!(SliceHeaderInfo::parse(&[2, 1], &HevcSpsInfo { log2_max_poc_lsb: 8 }).is_none());
}

#[test]
fn skip_frame_is_made_from_a_slice() {
    let unit = slice_header(0x5a);
    let h = SliceHeaderInfo::parse(&unit, &HevcSpsInfo { log2_max_poc_lsb: 8 }).unwrap();
    let template = SkipFrameTemplate {
        data: unit,
        poc_lsb_bit_offset: h.poc_lsb_bit_offset,
        poc_lsb_len: h.poc_lsb_len,
        max_poc_lsb: 256,
        rps_bit_offset: h.rps_bit_offset,
        rps_original_bit_len: h.rps_original_bit_len + 8,
        pps_id: h.pps_id,
    };
    let mut s = HevcState::new(8);
    assert!(template.make_frame(9, &s).is_none());
    s.remember_picture(8, true, false, false);
    let frame = template.make_frame(9, &s);
    match frame {
        Some(f) => {
            assert_eq!(&f[..4], &[0, 0, 0, 1]);
            let back = SliceHeaderInfo::parse(&f[4..], &HevcSpsInfo { log2_max_poc_lsb: 8 }).unwrap();
            assert_eq!(back.poc_lsb, 9);
        }
        None => assert!(s.current_concealment_rps(9).is_none()),
    }
}

fn sps_bits(w: &mut BitWriter) {
    w.write_bits(0, 4);
    w.write_bits(0, 3);
    w.write_bit(true);
    w.write_bits(0, 64);
    w.write_bits(0, 24);
    w.write_bits(93, 8);
    w.write_ue(0);
    w.write_ue(1);
    w.write_ue(1920);
    w.write_ue(1080);
    w.write_bit(false);
    w.write_ue(0);
    w.write_ue(0);
    w.write_ue(4);
    w.write_bit(true);
    w.write_ue(5);
    w.write_ue(0);
    w.write_ue(0);
    for v in [1, 2, 3, 1, 2, 0] {
        w.write_ue(v);
    }
    w.write_bit(false);
    w.write_bit(true);
    w.write_bit(false);
    w.write_bit(false);
    w.write_ue(0);
    w.write_bit(false);
    w.write_bit(true);
    w.write_bit(false);
    w.write_bit(true);
}

#[test]
fn sequence_parameters_are_read() {
    let mut w = BitWriter::new();
    sps_bits(&mut w);
    let mut unit = vec![0x42, 0x01];
    unit.extend_from_slice(&apply_emulation_prevention(&w.into_bytes()));
    let sps = SpsFields::parse(&unit).unwrap();
    assert_eq!(sps.log2_max_poc_lsb_minus4, 4);
    assert_eq!(sps.sps_max_dec_pic_buffering_minus1, 5);
    assert_eq!(sps.log2_min_luma_coding_block_size_minus3, 1);
    assert_eq!(sps.log2_diff_max_min_luma_coding_block_size, 2);
    assert_eq!(sps.log2_min_transform_block_size_minus2, 3);
    assert_eq!(sps.log2_diff_max_min_transform_block_size, 1);
    assert_eq!(sps.max_transform_hierarchy_depth_inter, 2);
    assert_eq!(sps.max_transform_hierarchy_depth_intra, 0);
    assert!(!sps.scaling_list_enabled_flag && sps.amp_enabled_flag);
    assert!(!sps.sample_adaptive_offset_enabled_flag && !sps.pcm_enabled_flag);
    assert_eq!(sps.num_short_term_ref_pic_sets, 0);
    assert!(!sps.long_term_ref_pics_present_flag && sps.sps_temporal_mvp_enabled_flag);
    assert!(!sps.strong_intra_smoothing_enabled_flag);
    assert_eq!(sps.raw, unit);
    assert_eq!(SkipFrameTemplate::parse_sps_poc_bits(&unit), Some(4));
    assert!(SpsFields::parse(&unit[..3]).is_none());
    assert!(SkipFrameTemplate::parse_sps_poc_bits(&unit[..2]).is_none());
}

#[test]
fn picture_parameters_are_read() {
    let mut w = BitWriter::new();
    w.write_ue(3);
    w.write_ue(1);
    w.write_bit(false);
    w.write_bit(true);
    w.write_bits(2, 3);
    w.write_bit(true);
    w.write_bit(false);
    w.write_ue(1);
    w.write_ue(2);
    w.write_se(-4);
    w.write_bit(true);
    w.write_bit(false);
    w.write_bit(true);
    w.write_ue(2);
    w.write_se(3);
    w.write_se(-3);
    w.write_bit(true);
    w.write_bit(false);
    w.write_bit(true);
    w.write_bit(false);
    w.write_bit(false);
    w.write_bit(true);
    w.write_bit(true);
    w.write_bit(true);
    w.write_bit(true);
    w.write_bit(false);
    w.write_se(2);
    w.write_se(-1);
    w.write_bit(false);
    w.write_bit(true);
    w.write_ue(1);
    w.write_bit(true);
    w.write_bit(true);
    let mut unit = vec![0x44, 0x01];
    unit.extend_from_slice(&apply_emulation_prevention(&w.into_bytes()));
    let p = PpsFields::parse(&unit).unwrap();
    assert_eq!((p.pps_pic_parameter_set_id, p.pps_seq_parameter_set_id), (3, 1));
    assert!(!p.dependent_slice_segments_enabled_flag && p.output_flag_present_flag);
    assert_eq!(p.num_extra_slice_header_bits, 2);
    assert!(p.sign_data_hiding_enabled_flag && !p.cabac_init_present_flag);
    assert_eq!((p.num_ref_idx_l0_default_active_minus1, p.num_ref_idx_l1_default_active_minus1), (1, 2));
    assert_eq!(p.init_qp_minus26, -4);
    assert!(p.constrained_intra_pred_flag && !p.transform_skip_enabled_flag);
    assert!(p.cu_qp_delta_enabled_flag);
    assert_eq!(p.diff_cu_qp_delta_depth, 2);
    assert_eq!((p.pps_cb_qp_offset, p.pps_cr_qp_offset), (3, -3));
    assert!(p.pps_slice_chroma_qp_offsets_present_flag && !p.weighted_pred_flag);
    assert!(p.weighted_bipred_flag && !p.transquant_bypass_enabled_flag);
    assert!(!p.tiles_enabled_flag && p.entropy_coding_sync_enabled_flag);
    assert!(p.loop_filter_across_slices_enabled_flag);
    assert!(p.deblocking_filter_override_enabled_flag && !p.pps_disable_deblocking_filter_flag);
    assert_eq!((p.pps_beta_offset_div2, p.pps_tc_offset_div2), (2, -1));
    assert!(!p.pps_scaling_list_data_present_flag && p.lists_modification_present_flag);
    assert_eq!(p.log2_parallel_merge_level_minus2, 1);
    assert!(p.slice_segment_header_extension_present_flag);
    assert!(PpsFields::parse(&[0x44, 1]).is_none());
}

#[test]
fn two_writes_are_one() {
    let mut parts = BitWriter::new();
    parts.write_bits(0xab5, 7);
    parts.write_bits(0b011, 3);
    let mut whole = BitWriter::new();
    whole.write_bits((0xab5 << 3) | 0b011, 10);
    assert_eq!(parts.bit_len(), 10);
    let bytes = parts.into_bytes();
    assert_eq!(bytes, vec![0b0110_1010, 0b1100_0000]);
    assert_eq!(bytes, whole.into_bytes());
}

#[test]
fn two_reads_are_one() {
    let data = [0xd2, 0x39, 0x5c];
    let mut parts = RbspReader::new(&data);
    let x = parts.read_bits(5);
    let y = parts.read_bits(7);
    assert_eq!((x, y), (0b11010, 0b0100011));
    let mut whole = RbspReader::new(&data);
    assert_eq!(whole.read_bits(12), (x << 7) | y);
    assert_eq!((parts.current_bit_pos(), whole.current_bit_pos()), (12, 12));
    assert_eq!(whole.read_bits(0), 0);
}

#[test]
fn signed_codes_are_codes_of_numbers() {
    for (signed, number) in [(0, 0), (1, 1), (-1, 2), (2, 3), (-2, 4)] {
        let mut a = BitWriter::new();
        a.write_se(signed);
        let mut b = BitWriter::new();
        b.write_ue(number);
        assert_eq!(a.bit_len(), b.bit_len());
        assert_eq!(a.into_bytes(), b.into_bytes());
    }
}

#[test]
fn code_is_read_from_its_unit() {
    let mut w = BitWriter::new();
    w.write_ue(0x0100_0000);
    let n = w.bit_len();
    let unit = apply_emulation_prevention(&w.into_bytes());
    assert_eq!(unit[..4], [0, 0, 3, 0]);
    let mut r = RbspReader::new(&unit);
    assert_eq!(r.read_ue(), 0x0100_0000);
    assert_eq!(r.current_bit_pos(), n);
}

#[test]
fn many_zeros_are_read_as_zero() {
    let mut r = RbspReader::new(&[0, 1]);
    r.read_bits(16);
    assert_eq!(r.read_ue(), 0);
    assert_eq!(r.current_bit_pos(), 48);
}
