//! Laws of the buffer of decoded pictures.
use crate::hevc::refs::{in_dpb, DpbEntry, RefPic, RpsModel};
use crate::hevc::state::{
    by_poc, fits_i32, lemma_filter_members, lemma_members, output_marked, poc_distance, pruned,
    reachable, ref_pics, short_term, short_term_rps, StateModel,
};
use crate::hevc::template::SkipFrameTemplate;
use crate::jitter::video::lemma_filter_all;
use crate::sorting::{law_sort_orders, sort_by};
use vstd::arithmetic::power2::{lemma_pow2_pos, pow2};
use vstd::bits::{lemma_u32_low_bits_mask_is_mod, low_bits_mask};
use vstd::prelude::*;

verus! {

/// A picture of the buffer is a short-term reference with this order count.
pub open spec fn is_short_term(dpb: Seq<DpbEntry>, poc: i32) -> bool {
    exists|i: int|
        0 <= i < dpb.len() && (#[trigger] dpb[i]).abs_poc == poc && dpb[i].is_reference
            && !dpb[i].long_term
}

/// The references hold the picture with this order count, as one that is used.
pub open spec fn refers_to(pics: Seq<RefPic>, poc: i32, delta: int) -> bool {
    exists|i: int|
        0 <= i < pics.len() && (#[trigger] pics[i]).abs_poc == poc && pics[i].delta_poc == delta
            && pics[i].used_by_curr && !pics[i].is_long_term
}

proof fn lemma_short_term(dpb: Seq<DpbEntry>, poc: i32)
    ensures
        short_term(dpb).contains(poc) <==> is_short_term(dpb, poc),
    decreases dpb.len(),
{
    if dpb.len() > 0 {
        let front = dpb.drop_last();
        lemma_short_term(front, poc);
        let before = short_term(front);
        let last = dpb.last();
        if is_short_term(front, poc) {
            let i = choose|i: int|
                0 <= i < front.len() && (#[trigger] front[i]).abs_poc == poc
                    && front[i].is_reference && !front[i].long_term;
            assert(dpb[i] == front[i]);
        }
        if is_short_term(dpb, poc) {
            let i = choose|i: int|
                0 <= i < dpb.len() && (#[trigger] dpb[i]).abs_poc == poc && dpb[i].is_reference
                    && !dpb[i].long_term;
            if i < front.len() {
                assert(front[i] == dpb[i]);
            }
        }
        if last.is_reference && !last.long_term {
            let all = before.push(last.abs_poc);
            if before.contains(poc) {
                let j = choose|j: int| 0 <= j < before.len() && before[j] == poc;
                assert(all[j] == poc);
            }
            if all.contains(poc) {
                let j = choose|j: int| 0 <= j < all.len() && all[j] == poc;
                if j < before.len() {
                    assert(before[j] == poc);
                } else {
                    assert(dpb[dpb.len() - 1].abs_poc == poc);
                }
            }
            assert(all[before.len() as int] == last.abs_poc);
        }
    } else {
        assert(!short_term(dpb).contains(poc));
    }
}

proof fn lemma_side(pocs: Seq<i32>, keep: spec_fn(i32) -> bool, curr: i32, poc: i32)
    requires
        fits_i32(poc - curr),
    ensures
        refers_to(
            ref_pics(sort_by(pocs.filter(keep), poc_distance(curr)), curr),
            poc,
            poc - curr,
        ) <==> pocs.contains(poc) && keep(poc),
{
    let side = pocs.filter(keep);
    let s = sort_by(side, poc_distance(curr));
    let pics = ref_pics(s, curr);
    law_sort_orders(side, poc_distance(curr));
    lemma_members(s, side);
    lemma_members(side, s);
    lemma_filter_members(pocs, keep);
    if pocs.contains(poc) && keep(poc) {
        let i = choose|i: int| 0 <= i < pocs.len() && pocs[i] == poc;
        pocs.lemma_filter_contains(keep, i);
        let j = choose|j: int| 0 <= j < side.len() && side[j] == poc;
        assert(s.contains(side[j]));
        let k = choose|k: int| 0 <= k < s.len() && s[k] == poc;
        assert(pics[k].abs_poc == poc);
    }
    if refers_to(pics, poc, poc - curr) {
        let k = choose|k: int|
            0 <= k < pics.len() && (#[trigger] pics[k]).abs_poc == poc && pics[k].delta_poc == poc
                - curr && pics[k].used_by_curr && !pics[k].is_long_term;
        assert(s[k] == poc);
        assert(side.contains(s[k]));
        let j = choose|j: int| 0 <= j < side.len() && side[j] == poc;
        assert(keep(side[j]) && pocs.contains(side[j]));
    }
}

/// The references of a picture are all short-term references of the buffer and no others:
/// those that come before it among the earlier ones, those that come after it among the later
/// ones, each with its distance from it.
pub proof fn law_references_are_those_of_the_buffer(dpb: Seq<DpbEntry>, curr: i32, poc: i32)
    requires
        fits_i32(poc - curr),
    ensures
        ({
            let rps = short_term_rps(dpb, curr);
            &&& refers_to(rps.negative, poc, poc - curr) <==> is_short_term(dpb, poc) && poc < curr
            &&& refers_to(rps.positive, poc, poc - curr) <==> is_short_term(dpb, poc) && poc > curr
        }),
{
    lemma_short_term(dpb, poc);
    lemma_side(short_term(dpb), |p: i32| p < curr, curr, poc);
    lemma_side(short_term(dpb), |p: i32| p > curr, curr, poc);
}

/// Of the pictures with an order count the first one is marked as shown; all else stays.
pub proof fn law_shown_picture_is_marked(dpb: Seq<DpbEntry>, poc: i32, i: int)
    requires
        0 <= i < dpb.len(),
    ensures
        output_marked(dpb, poc).len() == dpb.len(),
        ({
            let e = output_marked(dpb, poc)[i];
            let first = dpb[i].abs_poc == poc && forall|j: int|
                0 <= j < i ==> (#[trigger] dpb[j]).abs_poc != poc;
            &&& e.abs_poc == dpb[i].abs_poc
            &&& e.lsb == dpb[i].lsb
            &&& e.long_term == dpb[i].long_term
            &&& e.is_reference == dpb[i].is_reference
            &&& e.output_marked == (dpb[i].output_marked || first)
        }),
    decreases dpb.len(),
{
    let rest = dpb.drop_first();
    if dpb[0].abs_poc != poc {
        if rest.len() == 0 {
            assert(output_marked(rest, poc) == rest);
        }
        if i > 0 {
            law_shown_picture_is_marked(rest, poc, i - 1);
            assert(rest[i - 1] == dpb[i]);
            let first = dpb[i].abs_poc == poc && forall|j: int|
                0 <= j < i ==> (#[trigger] dpb[j]).abs_poc != poc;
            let first_of_rest = rest[i - 1].abs_poc == poc && forall|j: int|
                0 <= j < i - 1 ==> (#[trigger] rest[j]).abs_poc != poc;
            if first {
                assert forall|j: int| 0 <= j < i - 1 implies (#[trigger] rest[j]).abs_poc != poc by {
                    assert(rest[j] == dpb[j + 1]);
                }
            }
            if first_of_rest {
                assert forall|j: int| 0 <= j < i implies (#[trigger] dpb[j]).abs_poc != poc by {
                    if j > 0 {
                        assert(rest[j - 1] == dpb[j]);
                    }
                }
            }
        } else if rest.len() > 0 {
            law_shown_picture_is_marked(rest, poc, 0);
        }
    } else if i > 0 {
        assert(dpb[0].abs_poc == poc);
    }
}

/// The order count of a picture is kept as an upper and a lower part that make it up, and the
/// period stays.
pub proof fn law_order_count_is_kept(
    state: StateModel,
    poc_lsb: u32,
    is_reference: bool,
    output: bool,
    long_term: bool,
)
    requires
        state.rememberable(poc_lsb, is_reference, output, long_term),
        state.max_poc_lsb < 0x8000_0000,
        poc_lsb < 0x8000_0000,
    ensures
        ({
            let t = state.remembered(poc_lsb, is_reference, output, long_term);
            &&& t.max_poc_lsb == state.max_poc_lsb
            &&& t.prev_poc_msb + t.prev_poc_lsb == state.poc(poc_lsb)
            &&& t.prev_poc_lsb < state.max_poc_lsb
            &&& !is_reference ==> t.dpb == state.dpb && t.last_valid_rps == state.last_valid_rps
            &&& is_reference ==> t.last_valid_rps == Some(
                short_term_rps(t.dpb, state.poc(poc_lsb) as i32),
            )
        }),
{
    let low = (state.max_poc_lsb - 1) as u32;
    let lsb = poc_lsb & low;
    assert(lsb <= low && lsb <= poc_lsb) by (bit_vector)
        requires
            lsb == poc_lsb & low,
    ;
}

/// A picture that is a reference and comes later than all others is in the buffer from then
/// on, under its order count.
pub proof fn law_new_picture_is_kept(
    state: StateModel,
    poc_lsb: u32,
    output: bool,
    long_term: bool,
)
    requires
        state.rememberable(poc_lsb, true, output, long_term),
        forall|i: int| 0 <= i < state.dpb.len() ==> (#[trigger] state.dpb[i]).abs_poc < state.poc(
            poc_lsb,
        ),
    ensures
        ({
            let t = state.remembered(poc_lsb, true, output, long_term);
            &&& t.dpb.len() > 0
            &&& t.dpb.last() == (DpbEntry {
                abs_poc: state.poc(poc_lsb) as i32,
                lsb: state.lsb(poc_lsb),
                long_term,
                is_reference: true,
                output_marked: output,
            })
            &&& in_dpb(t.dpb, state.poc(poc_lsb) as i32)
        }),
{
    let e = DpbEntry {
        abs_poc: state.poc(poc_lsb) as i32,
        lsb: state.lsb(poc_lsb),
        long_term,
        is_reference: true,
        output_marked: output,
    };
    let all = state.dpb.push(e);
    let keep = |x: DpbEntry| x.is_reference;
    let front = state.dpb.filter(keep);
    let refs = all.filter(keep);
    reveal(Seq::filter);
    assert(all.drop_last() =~= state.dpb);
    assert(refs == front.push(e));
    lemma_filter_members(state.dpb, keep);
    let sorted = sort_by(front, by_poc());
    law_sort_orders(front, by_poc());
    lemma_members(sorted, front);
    assert(refs.drop_last() =~= front);
    if sorted.len() > 0 {
        let x = sorted.last();
        assert(front.contains(sorted[sorted.len() - 1]));
        let j = choose|j: int| 0 <= j < front.len() && front[j] == x;
        assert(state.dpb.contains(front[j]));
        let i = choose|i: int| 0 <= i < state.dpb.len() && state.dpb[i] == x;
        assert(state.dpb[i].abs_poc < state.poc(poc_lsb));
    }
    assert(sort_by(refs, by_poc()).last() == e);
    law_sort_orders(refs, by_poc());
    let t = state.remembered(poc_lsb, true, output, long_term);
    assert(t.dpb == pruned(all));
    assert(t.dpb.last() == e);
    assert(t.dpb[t.dpb.len() - 1].abs_poc == e.abs_poc);
}

/// A picture that has to be made up refers to pictures of the buffer alone.
pub proof fn law_made_up_picture_refers_to_the_buffer(state: StateModel, curr: i32)
    requires
        reachable(state.dpb, curr),
    ensures
        ({
            let rps = state.concealment_rps(curr);
            &&& forall|i: int|
                0 <= i < rps.negative.len() ==> in_dpb(
                    state.dpb,
                    (#[trigger] rps.negative[i]).abs_poc,
                )
            &&& forall|i: int|
                0 <= i < rps.positive.len() ==> in_dpb(
                    state.dpb,
                    (#[trigger] rps.positive[i]).abs_poc,
                )
            &&& state.last_valid_rps is None ==> rps == short_term_rps(state.dpb, curr)
        }),
{
    let rps = state.concealment_rps(curr);
    if state.saved_usable() {
        let saved = state.last_valid_rps->0;
        let there = |p: RefPic| in_dpb(state.dpb, p.abs_poc);
        lemma_filter_members(saved.negative, there);
        lemma_filter_members(saved.positive, there);
        assert(rps.negative =~= saved.negative.filter(there));
        assert(rps.positive =~= saved.positive.filter(there));
    } else {
        lemma_pics_there(state.dpb, |p: i32| p < curr, curr);
        lemma_pics_there(state.dpb, |p: i32| p > curr, curr);
    }
}

proof fn lemma_pics_there(dpb: Seq<DpbEntry>, keep: spec_fn(i32) -> bool, curr: i32)
    ensures
        ({
            let pics = ref_pics(sort_by(short_term(dpb).filter(keep), poc_distance(curr)), curr);
            forall|i: int| 0 <= i < pics.len() ==> in_dpb(dpb, (#[trigger] pics[i]).abs_poc)
        }),
{
    let pocs = short_term(dpb);
    let side = pocs.filter(keep);
    let s = sort_by(side, poc_distance(curr));
    let pics = ref_pics(s, curr);
    law_sort_orders(side, poc_distance(curr));
    lemma_members(s, side);
    lemma_filter_members(pocs, keep);
    assert forall|i: int| 0 <= i < pics.len() implies in_dpb(dpb, (#[trigger] pics[i]).abs_poc) by {
        assert(side.contains(s[i]));
        let j = choose|j: int| 0 <= j < side.len() && side[j] == s[i];
        assert(pocs.contains(side[j]));
        lemma_short_term(dpb, s[i]);
        let k = choose|k: int|
            0 <= k < dpb.len() && (#[trigger] dpb[k]).abs_poc == s[i] && dpb[k].is_reference
                && !dpb[k].long_term;
        assert(dpb[k].abs_poc == pics[i].abs_poc);
    }
}

/// Of a saved set those references stay whose pictures are still there, and no others.
pub proof fn law_saved_references_stay(rps: RpsModel, dpb: Seq<DpbEntry>, p: RefPic)
    ensures
        rps.filtered(dpb).negative.contains(p) <==> rps.negative.contains(p) && in_dpb(
            dpb,
            p.abs_poc,
        ),
        rps.filtered(dpb).positive.contains(p) <==> rps.positive.contains(p) && in_dpb(
            dpb,
            p.abs_poc,
        ),
{
    let there = |x: RefPic| in_dpb(dpb, x.abs_poc);
    lemma_filter_members(rps.negative, there);
    lemma_filter_members(rps.positive, there);
    if rps.negative.contains(p) && there(p) {
        let i = choose|i: int| 0 <= i < rps.negative.len() && rps.negative[i] == p;
        rps.negative.lemma_filter_contains(there, i);
    }
    if rps.positive.contains(p) && there(p) {
        let i = choose|i: int| 0 <= i < rps.positive.len() && rps.positive[i] == p;
        rps.positive.lemma_filter_contains(there, i);
    }
    if rps.negative.filter(there).contains(p) {
        let i = choose|i: int|
            0 <= i < rps.negative.filter(there).len() && rps.negative.filter(there)[i] == p;
        assert(there(rps.negative.filter(there)[i]));
    }
    if rps.positive.filter(there).contains(p) {
        let i = choose|i: int|
            0 <= i < rps.positive.filter(there).len() && rps.positive.filter(there)[i] == p;
        assert(there(rps.positive.filter(there)[i]));
    }
}

/// A buffer of references that has room stays as it is.
pub proof fn law_small_buffer_stays(dpb: Seq<DpbEntry>)
    requires
        dpb.len() <= 16,
        forall|i: int| 0 <= i < dpb.len() ==> (#[trigger] dpb[i]).is_reference,
    ensures
        pruned(dpb) == dpb,
{
    let keep = |e: DpbEntry| e.is_reference;
    assert forall|i: int| 0 <= i < dpb.len() implies keep(#[trigger] dpb[i]) by {}
    lemma_filter_all(dpb, keep);
}

/// The lower part of an order count is what is left of it within a period.
pub proof fn law_lower_part_is_within_a_period(
    state: StateModel,
    t: SkipFrameTemplate,
    poc_lsb: u32,
    k: nat,
)
    requires
        1 <= k < 32,
        state.max_poc_lsb == pow2(k),
        t.max_poc_lsb == pow2(k),
    ensures
        state.lsb(poc_lsb) == poc_lsb as int % (state.max_poc_lsb as int),
        t.lsb(poc_lsb) == poc_lsb as int % (t.max_poc_lsb as int),
{
    lemma_pow2_pos(k);
    lemma_u32_low_bits_mask_is_mod(poc_lsb, k);
    assert(low_bits_mask(k) == pow2(k) - 1);
}

} // verus!
