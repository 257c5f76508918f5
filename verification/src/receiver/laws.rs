//! What becomes of frames around the decoder.
use crate::clock::ClockModel;
use crate::hevc::refs::DpbEntry;
use crate::hevc::state::{law_buffer_is_bounded, output_marked};
use crate::hevc::state_laws::{
    law_new_picture_is_kept, law_shown_picture_is_marked, law_small_buffer_stays,
};
use crate::packet::FrameTrace;
use crate::receiver::decoder::{
    after_submission, frame_found, nothing_collected, showing, shown_after, submission, taken_out,
    trace_horizon, CollectorModel, Concealer, FrameRate, OutputSeen, ShowDecision, SubmitDecision,
};
use vstd::arithmetic::power2::{lemma_pow2_pos, pow2};
use vstd::bits::{lemma_u32_low_bits_mask_is_mod, low_bits_mask};
use vstd::prelude::*;

verus! {

/// A frame that is ready goes to the decoder if it came at most 160 milliseconds ago or if
/// nothing is known of it; after more than 500 milliseconds all that is in the decoder goes
/// too. While there is nothing to draw on it waits.
pub proof fn law_old_frames_are_not_decoded(ready: bool, t: FrameTrace, now_us: u64)
    ensures
        submission(ready, Some(t), now_us) is Wait <==> !ready,
        submission(ready, None, now_us) is Submit <==> ready,
        ready ==> (submission(ready, Some(t), now_us) is Submit <==> now_us <= t.receive_us
            + 160_000),
        ready ==> (submission(ready, Some(t), now_us) is Flush <==> now_us > t.receive_us
            + 500_000),
        submission(ready, Some(t), now_us) matches SubmitDecision::Drop { age_us } ==> age_us
            == now_us - t.receive_us,
        submission(ready, Some(t), now_us) matches SubmitDecision::Flush { age_us } ==> age_us
            == now_us - t.receive_us,
{
}

/// A picture is shown if it left the decoder at most 220 milliseconds ago.
pub proof fn law_old_pictures_are_not_shown(t: FrameTrace, now_us: u64)
    ensures
        showing(Some(t), now_us) is Show <==> now_us <= t.decode_us + 220_000,
        showing(Some(t), now_us) matches ShowDecision::Drop { age_us } ==> age_us == Some(
            (now_us - t.decode_us) as u64,
        ),
        showing(None, now_us) == (ShowDecision::Drop { age_us: None }),
{
}

/// The decoder is asked on as long as it gives pictures that can be handed on, up to 32 of
/// them; one that is passed over does not count.
pub proof fn law_draining_ends(drained: u32, seen: OutputSeen)
    requires
        drained < 32,
    ensures
        taken_out(drained, seen) matches Some(n) ==> n < 32 && (n == drained || n == drained + 1),
        taken_out(drained, seen) == Some(drained) <==> seen is Passed,
        taken_out(drained, seen) is None <==> {
            ||| seen is Pending
            ||| seen is Failed
            ||| seen == (OutputSeen::Picture { sent: false })
            ||| seen is Picture && drained == 31
        },
{
}

/// Every frame is counted once: it is told with those since the last report once a second is
/// over, and counts for the next report until then.
pub proof fn law_frames_are_counted(f: FrameRate, now_us: u64)
    requires
        f.count < u64::MAX,
    ensures
        f.ticked(now_us).1 is Some <==> now_us >= f.since_us + 1_000_000,
        f.ticked(now_us).1 matches Some((n, elapsed)) ==> {
            &&& n == f.count + 1
            &&& elapsed == now_us - f.since_us
            &&& f.ticked(now_us).0.count == 0
            &&& f.ticked(now_us).0.since_us == now_us
        },
        f.ticked(now_us).1 is None ==> {
            &&& f.ticked(now_us).0.count == f.count + 1
            &&& f.ticked(now_us).0.since_us == f.since_us
        },
{
}

/// It is remembered for two seconds which frame went to the decoder.
pub proof fn law_traces_are_remembered(then_us: u64, now_us: u64)
    ensures
        then_us >= trace_horizon(now_us) <==> then_us + 2_000_000 >= now_us,
{
}

/// What slices have been collected, in their order.
pub open spec fn collected(slices: Seq<(Seq<u8>, Option<FrameTrace>)>) -> CollectorModel
    decreases slices.len(),
{
    if slices.len() == 0 {
        nothing_collected()
    } else {
        collected(slices.drop_last()).with_slice(slices.last().0, slices.last().1)
    }
}

/// The slices of a frame follow each other in its bytes: slice `i` stands behind those before
/// it. The trace is that of the last slice that had one.
pub proof fn law_slices_are_collected(slices: Seq<(Seq<u8>, Option<FrameTrace>)>, i: int)
    requires
        0 <= i < slices.len(),
    ensures
        ({
            let from = collected(slices.take(i)).bytes.len() as int;
            let all = collected(slices).bytes;
            &&& from + slices[i].0.len() <= all.len()
            &&& all.subrange(from, from + slices[i].0.len()) == slices[i].0
        }),
        slices.last().1 is Some ==> collected(slices).trace == slices.last().1,
        slices.last().1 is None ==> collected(slices).trace == collected(slices.drop_last()).trace,
    decreases slices.len(),
{
    let front = slices.drop_last();
    let from = collected(slices.take(i)).bytes.len() as int;
    let all = collected(slices).bytes;
    if i < front.len() {
        law_slices_are_collected(front, i);
        assert(front.take(i) =~= slices.take(i));
        assert(all.subrange(from, from + slices[i].0.len()) =~= collected(front).bytes.subrange(
            from,
            from + slices[i].0.len(),
        ));
    } else {
        assert(slices.take(i) =~= front);
        assert(all.subrange(from, from + slices[i].0.len()) =~= slices[i].0);
    }
}

/// A frame that is captured and shown at two moments of the local clock takes the time between
/// them, whatever the offset of the sender's clock.
pub proof fn law_latency_is_the_time_between(clock: ClockModel, captured_us: u64, shown_us: u64)
    requires
        captured_us < 0x8000_0000_0000_0000,
        shown_us < 0x8000_0000_0000_0000,
        0 <= captured_us + clock.offset_us < 0x8000_0000_0000_0000,
    ensures
        shown_after(shown_us, clock.remote(captured_us), clock.offset_us) == shown_us
            - captured_us,
{
}

/// Made-up frames are numbered on: each has the order count behind that of the frame before,
/// within the period.
pub proof fn law_made_up_frames_are_numbered_on(c: Concealer, k: nat)
    requires
        1 <= k < 32,
        c.state@.max_poc_lsb == pow2(k),
        c.poc_lsb < u32::MAX,
    ensures
        c.next_poc() == (c.poc_lsb + 1) % (c.state@.max_poc_lsb as int),
        c.next_poc() < c.state@.max_poc_lsb,
{
    let x = (c.poc_lsb + 1) as u32;
    lemma_u32_low_bits_mask_is_mod(x, k);
    lemma_pow2_pos(k);
    assert(low_bits_mask(k) == pow2(k) - 1);
}

/// A made-up frame that comes behind all others is in the buffer from then on, under its order
/// count, and counts as shown.
pub proof fn law_made_up_frame_is_remembered(c: Concealer)
    requires
        c.state@.rememberable(c.next_poc(), true, false, false),
        forall|i: int|
            0 <= i < c.state@.dpb.len() ==> (#[trigger] c.state@.dpb[i]).abs_poc < c.state@.poc(
                c.next_poc(),
            ),
    ensures
        ({
            let t = c.concealed();
            let poc = c.state@.poc(c.next_poc()) as i32;
            &&& t.dpb.len() > 0
            &&& t.dpb.last().abs_poc == poc
            &&& t.dpb.last().is_reference
            &&& !t.dpb.last().long_term
            &&& t.dpb.len() == c.state@.remembered(c.next_poc(), true, false, false).dpb.len()
            &&& exists|i: int|
                0 <= i < t.dpb.len() && (#[trigger] t.dpb[i]).abs_poc == poc
                    && t.dpb[i].output_marked
        }),
{
    let poc = c.state@.poc(c.next_poc()) as i32;
    let s = c.state@.remembered(c.next_poc(), true, false, false);
    law_new_picture_is_kept(c.state@, c.next_poc(), false, false);
    law_buffer_is_bounded(c.state@.dpb.push(s.dpb.last()));
    let marked = output_marked(s.dpb, poc);
    let n = s.dpb.len() as int;
    lemma_marked_len(s.dpb, poc);
    assert forall|i: int| 0 <= i < marked.len() implies (#[trigger] marked[i]).is_reference by {
        law_shown_picture_is_marked(s.dpb, poc, i);
        assert(s.dpb[i].is_reference);
    }
    law_small_buffer_stays(marked);
    law_shown_picture_is_marked(s.dpb, poc, n - 1);
    let i = lemma_first_at(s.dpb, poc, n - 1);
    law_shown_picture_is_marked(s.dpb, poc, i);
    assert(marked[i].output_marked);
}

proof fn lemma_marked_len(dpb: Seq<DpbEntry>, poc: i32)
    ensures
        output_marked(dpb, poc).len() == dpb.len(),
{
    if dpb.len() > 0 {
        law_shown_picture_is_marked(dpb, poc, 0);
    }
}

proof fn lemma_first_at(dpb: Seq<DpbEntry>, poc: i32, n: int) -> (i: int)
    requires
        0 <= n < dpb.len(),
        dpb[n].abs_poc == poc,
    ensures
        0 <= i <= n,
        dpb[i].abs_poc == poc,
        forall|j: int| 0 <= j < i ==> (#[trigger] dpb[j]).abs_poc != poc,
    decreases n,
{
    if exists|j: int| 0 <= j < n && (#[trigger] dpb[j]).abs_poc == poc {
        let j = choose|j: int| 0 <= j < n && (#[trigger] dpb[j]).abs_poc == poc;
        lemma_first_at(dpb, poc, j)
    } else {
        n
    }
}

/// A picture finds the frame that was handed in for it: its number, and its trace with the
/// time of the decoding. Frames that are handed in up to two seconds later do not change that.
pub proof fn law_pictures_find_their_frame(
    known: Map<u64, (u64, Option<FrameTrace>)>,
    key: u64,
    id: u64,
    trace: FrameTrace,
    later: u64,
    other: u64,
    other_trace: Option<FrameTrace>,
    now_us: u64,
)
    requires
        later != key,
        later <= key + 2_000_000,
    ensures
        ({
            let one = after_submission(known, key, id, Some(trace));
            let two = after_submission(one, later, other, other_trace);
            let (found, t) = frame_found(two, key, now_us);
            &&& frame_found(one, key, now_us) == (found, t)
            &&& found == id
            &&& t.decode_us == now_us
            &&& t.receive_us == trace.receive_us
            &&& t.capture_us == trace.capture_us
            &&& t.present_us == trace.present_us
        }),
{
}

} // verus!
