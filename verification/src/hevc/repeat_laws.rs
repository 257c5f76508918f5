//! Laws of the frames that repeat an earlier picture.
use crate::hevc::bits::{bit_at, lemma_number_len, number_bits};
use crate::hevc::concealment::{ConcealmentPicParams, ConcealmentSlice};
use crate::hevc::flag_laws::has_bit;
use crate::hevc::freeze::{
    debug_stream, last_good_rps, references, slice_param_of, slots, VAPictureHEVC,
    VAPictureParameterBufferHEVC, VASliceParameterBufferHEVC, VaapiConcealment,
};
use crate::hevc::header_laws::{kept_part, law_set_is_cut_from_the_end};
use crate::hevc::params::SpsFields;
use crate::hevc::pps::PpsFields;
use crate::hevc::refs::RpsModel;
use crate::hevc::template::SkipFrameTemplate;
use vstd::prelude::*;

verus! {

/// A repeated frame is the slice of the template with two places changed. Its order count
/// stands in the place for it. In the place of the reference picture set stand a bit that is
/// not set and the new set. What stands before, between and behind is that of the template.
pub proof fn law_repeated_frame_differs_in_two_places(
    t: SkipFrameTemplate,
    poc: u32,
    set: Seq<bool>,
    i: int,
)
    requires
        t.poc_lsb_bit_offset + t.poc_lsb_len <= t.rps_bit_offset,
        t.rps_bit_offset + t.rps_original_bit_len <= 8 * t.data@.len(),
        0 <= i,
    ensures
        ({
            let b = t.frame_bits(poc, set);
            let date = t.poc_lsb_bit_offset as int;
            let place = t.rps_bit_offset as int;
            let behind = place + 1 + set.len();
            &&& b.len() == 8 * t.data@.len() - t.rps_original_bit_len + 1 + set.len()
            &&& i < date ==> b[i] == bit_at(t.data@, i)
            &&& b.subrange(date, date + t.poc_lsb_len) == number_bits(
                poc as nat,
                t.poc_lsb_len as nat,
            )
            &&& date + t.poc_lsb_len <= i < place ==> b[i] == bit_at(t.data@, i)
            &&& !b[place]
            &&& b.subrange(place + 1, behind) == set
            &&& behind <= i < b.len() ==> b[i] == bit_at(
                t.data@,
                i - behind + place + t.rps_original_bit_len,
            )
        }),
{
    let b = t.frame_bits(poc, set);
    let date = t.poc_lsb_bit_offset as int;
    let place = t.rps_bit_offset as int;
    lemma_number_len(poc as nat, t.poc_lsb_len as nat);
    assert(b.subrange(date, date + t.poc_lsb_len) =~= number_bits(
        poc as nat,
        t.poc_lsb_len as nat,
    ));
    assert(b.subrange(place + 1, place + 1 + set.len()) =~= set);
}

/// When a set is too large the farthest of its last references goes; of two that are equally
/// far the earlier picture goes.
pub proof fn law_farthest_reference_goes(rps: RpsModel)
    requires
        !rps.empty(),
        rps.writable(),
    ensures
        ({
            let less = rps.reduced();
            let n = rps.negative.len() as int;
            let p = rps.positive.len() as int;
            ||| {
                &&& less.positive == rps.positive
                &&& n > 0
                &&& less.negative == rps.negative.take(n - 1)
                &&& p > 0 ==> abs(rps.negative[n - 1].delta_poc as int) >= abs(
                    rps.positive[p - 1].delta_poc as int,
                )
            }
            ||| {
                &&& less.negative == rps.negative
                &&& p > 0
                &&& less.positive == rps.positive.take(p - 1)
                &&& n > 0 ==> abs(rps.negative[n - 1].delta_poc as int) < abs(
                    rps.positive[p - 1].delta_poc as int,
                )
            }
        }),
{
    let n = rps.negative.len() as int;
    let p = rps.positive.len() as int;
    if n > 0 {
        assert(rps.negative.drop_last() =~= rps.negative.take(n - 1));
    }
    if p > 0 {
        assert(rps.positive.drop_last() =~= rps.positive.take(p - 1));
    }
}

/// The absolute value of a number.
pub open spec fn abs(x: int) -> int {
    if x < 0 {
        -x
    } else {
        x
    }
}

/// The picture that repeats the last good one refers to it and to nothing else, by its
/// distance in order.
pub proof fn law_frozen_picture_refers_to_the_last_good_one(last: i32, curr: i32)
    requires
        i32::MIN <= last - curr <= i32::MAX,
    ensures
        ({
            let rps = last_good_rps(last, curr);
            &&& rps.positive.len() == 0
            &&& rps.negative.len() == 1
            &&& rps.negative[0].abs_poc == last
            &&& curr + rps.negative[0].delta_poc == last
            &&& rps.negative[0].used_by_curr
            &&& !rps.negative[0].is_long_term
        }),
{
}

/// A picture can be made only when a good one, a display, a context, the parameters and a
/// surface to draw on are there, and not in the place of the good one itself.
pub proof fn law_freezing_needs_all(c: VaapiConcealment, curr: int)
    ensures
        c.obstacle(curr) is None <==> {
            &&& c.last_good_surface != 0xFFFF_FFFF
            &&& c.va_display != 0
            &&& c.va_context != 0xFFFF_FFFF
            &&& c.va_context != 0
            &&& c.pic_params_template is Some
            &&& c.concealment_surface != 0xFFFF_FFFF
            &&& c.last_good_abs_poc != curr
        },
{
}

/// Every reference is drawn from the one surface. The earlier pictures come first and are
/// marked as earlier, the later ones follow and are marked as later; without any there is the
/// last good picture. The places left over are marked as empty.
pub proof fn law_references_fill_the_places(surface: u32, last_poc: i32, rps: RpsModel, i: int)
    requires
        0 <= i < 15,
    ensures
        ({
            let n = rps.negative.len() as int;
            let p = rps.positive.len() as int;
            let s = slots(references(surface, last_poc, rps));
            &&& s.len() == 15
            &&& i < n ==> s[i] == (VAPictureHEVC {
                picture_id: surface,
                pic_order_cnt: rps.negative[i].abs_poc,
                flags: 4,
            })
            &&& n <= i < n + p ==> s[i] == (VAPictureHEVC {
                picture_id: surface,
                pic_order_cnt: rps.positive[i - n].abs_poc,
                flags: 8,
            })
            &&& n + p == 0 && i == 0 ==> s[i] == (VAPictureHEVC {
                picture_id: surface,
                pic_order_cnt: last_poc,
                flags: 4,
            })
            &&& i >= n + p && i > 0 ==> s[i].picture_id == 0xFFFF_FFFF && s[i].flags == 1
        }),
{
}

/// What a decoder is told of a slice fits it. The unit is that long behind its start code,
/// the data begin at the first whole byte behind the headers, the list names as many
/// references as are said to be active, the slice is the last of its picture, predicted from
/// earlier pictures with motion from the first list, not deblocked, and one merge candidate
/// is left of five.
pub proof fn law_slice_is_told_as_it_is(
    q: VASliceParameterBufferHEVC,
    slice: ConcealmentSlice,
    rps: RpsModel,
)
    requires
        slice_param_of(q, slice, rps),
        4 <= slice.nalu_bytes@.len() <= u32::MAX,
        slice.header_bits <= u32::MAX - 7,
    ensures
        q.slice_data_size + q.slice_data_offset == slice.nalu_bytes@.len(),
        q.slice_data_offset == 4,
        8 * (q.slice_data_byte_offset - 2) >= slice.header_bits,
        8 * (q.slice_data_byte_offset - 2) < slice.header_bits + 8,
        q.RefPicList0@.len() == 15,
        q.RefPicList1@.len() == 15,
        forall|i: int|
            0 <= i < 15 ==> (#[trigger] q.RefPicList0@[i]) == (if i
                <= q.num_ref_idx_l0_active_minus1 {
                i
            } else {
                0xFF
            }),
        forall|i: int| 0 <= i < 15 ==> (#[trigger] q.RefPicList1@[i]) == 0xFF,
        rps.negative.len() >= 1 ==> q.num_ref_idx_l0_active_minus1 + 1 == (
        if rps.negative.len() < 15 {
            rps.negative.len() as int
        } else {
            15
        }),
        forall|n: u32|
            n < 32 ==> (#[trigger] has_bit(q.LongSliceFlags, n) <==> n == 0 || n == 2 || n == 11
                || n == 12),
        5 - q.five_minus_max_num_merge_cand == 1,
        q.slice_segment_address == 0,
        q.slice_qp_delta == 0,
{
    assert forall|n: u32| n < 32 implies (#[trigger] has_bit(0x1805u32, n) <==> n == 0 || n == 2
        || n == 11 || n == 12) by {
        assert(((0x1805u32 >> n) & 1 == 1) == (n == 0 || n == 2 || n == 11 || n == 12))
            by (bit_vector)
            requires
                n < 32,
        ;
    }
}

/// Of the flags of a slice a decoder gets all but three that are not for it.
pub proof fn law_slice_flags_are_handed_on(
    q: VAPictureParameterBufferHEVC,
    params: ConcealmentPicParams,
    st_rps_bits: u32,
    n: u32,
)
    requires
        q.has_params(params, st_rps_bits),
        n < 32,
    ensures
        has_bit(q.slice_parsing_fields, n) <==> has_bit(params.slice_parsing_fields, n) && !(13 <= n
            <= 15),
        has_bit(q.pic_fields, n) <==> has_bit(params.pic_fields, n),
        q.pic_width_in_luma_samples == params.width,
        q.pic_height_in_luma_samples == params.height,
        q.st_rps_bits == st_rps_bits,
        q.log2_max_pic_order_cnt_lsb_minus4 == params.log2_max_poc_lsb_minus4,
        q.init_qp_minus26 == params.init_qp_minus26,
        q.pps_cb_qp_offset == params.pps_cb_qp_offset,
        q.pps_cr_qp_offset == params.pps_cr_qp_offset,
        q.pps_beta_offset_div2 == params.pps_beta_offset_div2,
        q.pps_tc_offset_div2 == params.pps_tc_offset_div2,
{
    let w = params.slice_parsing_fields;
    assert((((w & 0xFFFF_1FFF) >> n) & 1 == 1) == ((w >> n) & 1 == 1 && !(13 <= n <= 15)))
        by (bit_vector)
        requires
            n < 32,
    ;
}

/// A repeated frame does not grow: the set that stands in it, with the bit before it, takes no
/// more room than the one of the template.
pub proof fn law_repeated_frame_does_not_grow(t: SkipFrameTemplate, rps: RpsModel)
    requires
        t.rps_original_bit_len > 0,
    ensures
        t.set_bits(rps) matches Some(set) ==> 1 + set.len() <= t.rps_original_bit_len,
        1 + rps.bits().len() <= t.rps_original_bit_len ==> t.set_bits(rps) == Some(rps.bits()),
{
    let room = (t.rps_original_bit_len - 1) as nat;
    law_set_is_cut_from_the_end(rps, room);
    if let Some(set) = t.set_bits(rps) {
        let (a, b) = choose|a: int, b: int| #[trigger] kept_part(rps, set, room, a, b);
        assert(kept_part(rps, set, room, a, b));
    }
}

/// In a stream to be looked at the units follow each other, each behind a start code: the video,
/// sequence and picture parameter sets, and the slice.
pub proof fn law_units_follow_each_other(
    vps: Seq<u8>,
    sps: SpsFields,
    pps: PpsFields,
    slice: Seq<u8>,
)
    ensures
        ({
            let code = seq![0u8, 0u8, 0u8, 1u8];
            let all = debug_stream(vps, Some(sps), Some(pps), slice);
            let a = 4 + vps.len() as int;
            let b = a + 4 + sps.raw@.len() as int;
            let c = b + 4 + pps.raw@.len() as int;
            &&& all.len() == c + 4 + slice.len()
            &&& all.subrange(0, 4) == code
            &&& all.subrange(4, a) == vps
            &&& all.subrange(a, a + 4) == code
            &&& all.subrange(a + 4, b) == sps.raw@
            &&& all.subrange(b, b + 4) == code
            &&& all.subrange(b + 4, c) == pps.raw@
            &&& all.subrange(c, c + 4) == code
            &&& all.subrange(c + 4, all.len() as int) == slice
        }),
{
    let code = seq![0u8, 0u8, 0u8, 1u8];
    let all = debug_stream(vps, Some(sps), Some(pps), slice);
    let a = 4 + vps.len() as int;
    let b = a + 4 + sps.raw@.len() as int;
    let c = b + 4 + pps.raw@.len() as int;
    assert(all.subrange(0, 4) =~= code);
    assert(all.subrange(4, a) =~= vps);
    assert(all.subrange(a, a + 4) =~= code);
    assert(all.subrange(a + 4, b) =~= sps.raw@);
    assert(all.subrange(b, b + 4) =~= code);
    assert(all.subrange(b + 4, c) =~= pps.raw@);
    assert(all.subrange(c, c + 4) =~= code);
    assert(all.subrange(c + 4, all.len() as int) =~= slice);
}

} // verus!
