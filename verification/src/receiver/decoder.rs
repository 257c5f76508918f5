//! Around the decoder: what goes in, what comes out and what is too late.
use crate::buffer::{
    bytes_mut_view, bytes_mut_with_capacity, bytes_view, clear, freeze, put_slice, split_off,
};
use crate::hevc::state::{
    output_marked, pruned, reachable, HevcState, StateModel,
};
use crate::hevc::template::SkipFrameTemplate;
use crate::packet::{no_trace, FrameTrace};
use bytes::{Bytes, BytesMut};
use std::collections::HashMap;
use vstd::prelude::*;

verus! {

broadcast use vstd::std_specs::hash::group_hash_axioms;

/// Why a frame was not decoded.
#[derive(Debug)]
pub enum BackendError {
    /// There is nothing to draw on yet.
    NotInitialized,
    /// The decoder has failed.
    DecodeError(String),
    /// The decoder could not be set up.
    ConfigError(String),
    /// The decoder takes no more; the frame is dropped.
    BufferFull,
}

/// The words for an error.
pub open spec fn error_text(e: BackendError) -> Seq<char> {
    match e {
        BackendError::NotInitialized => "Backend not initialized"@,
        BackendError::DecodeError(msg) => "Decode error: "@ + msg@,
        BackendError::ConfigError(msg) => "Config error: "@ + msg@,
        BackendError::BufferFull => "Decoder input buffer full — frame dropped"@,
    }
}

impl BackendError {
    /// The words for the error.
    pub fn message(&self) -> (r: String)
        ensures
            r@ == error_text(*self),
    {
        match self {
            BackendError::NotInitialized => "Backend not initialized".to_owned(),
            BackendError::DecodeError(msg) => {
                let mut s: String = "Decode error: ".to_owned();
                s.push_str(msg.as_str());
                s
            },
            BackendError::ConfigError(msg) => {
                let mut s: String = "Config error: ".to_owned();
                s.push_str(msg.as_str());
                s
            },
            BackendError::BufferFull => "Decoder input buffer full — frame dropped".to_owned(),
        }
    }
}

/// What became of a slice that was handed in.
#[derive(Debug, Clone, Copy, PartialEq, Eq, Structural)]
pub enum PushStatus {
    /// Its frame went to the decoder, which takes so many frames per second.
    Accepted { fps: u32 },
    /// The rest of its frame is waited for.
    Accumulating,
    /// Its frame was dropped, perhaps because it was so old, in microseconds.
    Dropped { age_us: Option<u64> },
}

/// A decoded picture: brightness, and colours at half the size.
#[derive(Debug)]
pub struct YuvFrame {
    pub frame_id: u64,
    pub trace: FrameTrace,
    pub width: u32,
    pub height: u32,
    pub y: Vec<u8>,
    pub uv: Vec<u8>,
    pub y_stride: u32,
    pub uv_stride: u32,
}

/// How many bytes the two planes of a picture take.
pub fn plane_sizes(y_stride: usize, uv_stride: usize, height: u32) -> (r: (usize, usize))
    requires
        y_stride * height <= usize::MAX,
        uv_stride * height <= usize::MAX,
    ensures
        r.0 == y_stride * height,
        r.1 == uv_stride * height / 2,
{
    (y_stride * height as usize, uv_stride * height as usize / 2)
}

/// The slices of a frame until all have come.
pub struct SliceCollector {
    slice_buffer: BytesMut,
    current_trace: Option<FrameTrace>,
}

/// What a [`SliceCollector`] holds.
#[verifier::ext_equal]
pub struct CollectorModel {
    pub bytes: Seq<u8>,
    pub trace: Option<FrameTrace>,
}

impl View for SliceCollector {
    type V = CollectorModel;

    closed spec fn view(&self) -> CollectorModel {
        CollectorModel { bytes: bytes_mut_view(self.slice_buffer), trace: self.current_trace }
    }
}

/// Nothing has come.
pub open spec fn nothing_collected() -> CollectorModel {
    CollectorModel { bytes: Seq::empty(), trace: None }
}

impl CollectorModel {
    /// With one more slice. A trace that comes with it takes the place of an earlier one.
    pub open spec fn with_slice(self, payload: Seq<u8>, trace: Option<FrameTrace>) -> CollectorModel {
        CollectorModel {
            bytes: self.bytes + payload,
            trace: if trace is Some {
                trace
            } else {
                self.trace
            },
        }
    }
}

impl SliceCollector {
    /// Room that is made for a frame at first.
    pub const INITIAL_CAPACITY: usize = 524_288;

    /// Nothing has come.
    pub fn new() -> (r: SliceCollector)
        ensures
            r@ == nothing_collected(),
    {
        SliceCollector {
            slice_buffer: bytes_mut_with_capacity(Self::INITIAL_CAPACITY),
            current_trace: None,
        }
    }

    /// Takes a slice in. Returns the whole frame and its trace with the last slice.
    pub fn push_encoded(&mut self, payload: &[u8], trace: Option<FrameTrace>, is_last: bool) -> (r:
        Option<(Bytes, Option<FrameTrace>)>)
        requires
            old(self)@.bytes.len() + payload@.len() <= isize::MAX,
        ensures
            ({
                let all = old(self)@.with_slice(payload@, trace);
                if is_last {
                    &&& r is Some
                    &&& bytes_view((r->0).0) == all.bytes
                    &&& (r->0).1 == all.trace
                    &&& final(self)@ == nothing_collected()
                } else {
                    &&& r is None
                    &&& final(self)@ == all
                }
            }),
    {
        if trace.is_some() {
            self.current_trace = trace;
        }
        put_slice(&mut self.slice_buffer, payload);
        if !is_last {
            return None;
        }
        let full: Bytes = freeze(split_off(&mut self.slice_buffer));
        let full_trace: Option<FrameTrace> = self.current_trace;
        self.current_trace = None;
        Some((full, full_trace))
    }

    /// Throws the slices of the frame away.
    pub fn clear_buffer(&mut self)
        ensures
            final(self)@ == nothing_collected(),
    {
        clear(&mut self.slice_buffer);
        self.current_trace = None;
    }
}

/// How long it is remembered which frame went to the decoder, in microseconds.
pub const TRACE_HORIZON_US: u64 = 2_000_000;

/// Which frames are in the decoder, by the times that they were handed in.
pub struct PendingTraces {
    entries: HashMap<u64, (u64, Option<FrameTrace>)>,
}

impl View for PendingTraces {
    type V = Map<u64, (u64, Option<FrameTrace>)>;

    closed spec fn view(&self) -> Map<u64, (u64, Option<FrameTrace>)> {
        self.entries@
    }
}

/// The earliest time that is remembered at `now`.
pub open spec fn trace_horizon(now: u64) -> int {
    if now >= TRACE_HORIZON_US {
        now - TRACE_HORIZON_US
    } else {
        0
    }
}

/// What is remembered after a frame has gone to the decoder.
pub open spec fn after_submission(
    known: Map<u64, (u64, Option<FrameTrace>)>,
    pts_key: u64,
    frame_id: u64,
    trace: Option<FrameTrace>,
) -> Map<u64, (u64, Option<FrameTrace>)> {
    known.insert(pts_key, (frame_id, trace)).remove_keys(
        Set::new(|k: u64| k < trace_horizon(pts_key)),
    )
}

/// The frame of a picture that comes out of the decoder at `now_us`, and its trace; frame zero
/// and an empty trace where nothing is known of it.
pub open spec fn frame_found(
    known: Map<u64, (u64, Option<FrameTrace>)>,
    pts_key: u64,
    now_us: u64,
) -> (u64, FrameTrace) {
    let (frame_id, trace) = if known.contains_key(pts_key) {
        known[pts_key]
    } else {
        (0u64, None::<FrameTrace>)
    };
    (
        frame_id,
        FrameTrace {
            decode_us: now_us,
            ..match trace {
                Some(t) => t,
                None => no_trace(),
            }
        },
    )
}

impl PendingTraces {
    /// No frame is in the decoder.
    pub fn new() -> (r: PendingTraces)
        ensures
            r@ == Map::<u64, (u64, Option<FrameTrace>)>::empty(),
    {
        PendingTraces { entries: HashMap::new() }
    }

    /// A frame goes to the decoder. What was handed in too long ago is forgotten.
    pub fn submitted(&mut self, pts_key: u64, frame_id: u64, trace: Option<FrameTrace>)
        ensures
            final(self)@ == after_submission(old(self)@, pts_key, frame_id, trace),
    {
        self.entries.insert(pts_key, (frame_id, trace));
        let ghost all = self@;
        let least: u64 = pts_key.saturating_sub(TRACE_HORIZON_US);
        let keys: Vec<u64> = self.keys();
        let ghost mut gone: Set<u64> = Set::empty();
        let mut i: usize = 0;
        assert(all.remove_keys(gone) =~= all);
        while i < keys.len()
            invariant
                i <= keys@.len(),
                least == trace_horizon(pts_key),
                self@ == all.remove_keys(gone),
                forall|x: u64| #[trigger]
                    gone.contains(x) <==> x < least && exists|j: int|
                        0 <= j < i && #[trigger] keys@[j] == x,
            decreases keys@.len() - i,
        {
            let key: u64 = keys[i];
            let ghost before = gone;
            let ghost now = self@;
            if key < least {
                self.entries.remove(&key);
                proof {
                    gone = gone.insert(key);
                    assert(self@ =~= now.remove(key));
                    assert(self@ =~= all.remove_keys(gone));
                }
            }
            i = i + 1;
            proof {
                assert forall|x: u64| #[trigger] gone.contains(x) <==> x < least && exists|j: int|
                    0 <= j < i && #[trigger] keys@[j] == x by {
                    if x == key {
                        assert(keys@[i - 1] == x);
                    }
                    if before.contains(x) {
                        let j = choose|j: int| 0 <= j < i - 1 && #[trigger] keys@[j] == x;
                        assert(keys@[j] == x);
                    }
                }
            }
        }
        proof {
            let early = Set::new(|k: u64| k < trace_horizon(pts_key));
            assert(all.remove_keys(gone) =~= all.remove_keys(early)) by {
                assert forall|x: u64| all.contains_key(x) implies gone.contains(x)
                    == early.contains(x) by {
                    assert(keys@.contains(x));
                    let j = choose|j: int| 0 <= j < keys@.len() && keys@[j] == x;
                    assert(keys@[j] == x);
                }
            }
        }
    }

    /// The times that are remembered.
    fn keys(&self) -> (r: Vec<u64>)
        ensures
            forall|x: u64| #[trigger] self@.contains_key(x) <==> r@.contains(x),
    {
        let mut out: Vec<u64> = Vec::new();
        for k in it: self.entries.keys()
            invariant
                it.seq().unref().to_set() == self.entries@.dom(),
                out@ == it.seq().unref().take(it.index()),
                forall|x: u64| #[trigger]
                    self.entries@.dom().contains(x) ==> out@.contains(x) || exists|i: int|
                        it.index() <= i < it.seq().len() && #[trigger] it.seq().unref()[i] == x,
                forall|x: u64| #[trigger] out@.contains(x) ==> self.entries@.dom().contains(x),
        {
            let ghost before = out@;
            let ghost all = it.seq().unref();
            assert(all.to_set().contains(all[it.index()]));
            out.push(*k);
            assert(out@ =~= all.take(it.index() + 1));
            assert forall|x: u64| #[trigger] self.entries@.dom().contains(x) implies out@.contains(
                x,
            ) || exists|i: int| it.index() + 1 <= i < it.seq().len() && #[trigger] all[i] == x by {
                if before.contains(x) {
                    let i = choose|i: int| 0 <= i < before.len() && before[i] == x;
                    assert(out@[i] == x);
                } else {
                    let i = choose|i: int|
                        it.index() <= i < it.seq().len() && #[trigger] all[i] == x;
                    if i == it.index() {
                        assert(out@[before.len() as int] == x);
                    }
                }
            }
            assert forall|x: u64| #[trigger] out@.contains(x) implies self.entries@.dom().contains(
                x,
            ) by {
                let i = choose|i: int| 0 <= i < out@.len() && out@[i] == x;
                if i < before.len() {
                    assert(before[i] == x);
                }
            }
        }
        out
    }

    /// A picture comes out of the decoder at `now_us`. Returns its frame and its trace;
    /// where nothing is known of it, frame zero and an empty trace.
    pub fn decoded(&mut self, pts_key: u64, now_us: u64) -> (r: (u64, FrameTrace))
        ensures
            final(self)@ == old(self)@.remove(pts_key),
            r == frame_found(old(self)@, pts_key, now_us),
    {
        let ghost start = self@;
        let found: Option<(u64, Option<FrameTrace>)> = self.entries.remove(&pts_key);
        proof {
            if !start.contains_key(pts_key) {
                assert(start.remove(pts_key) =~= start);
            }
        }
        let (frame_id, raw): (u64, Option<FrameTrace>) = match found {
            Some(e) => e,
            None => (0, None),
        };
        let mut trace: FrameTrace = match raw {
            Some(t) => t,
            None => FrameTrace::default(),
        };
        trace.decode_us = now_us;
        (frame_id, trace)
    }
}

/// A frame older than this is not handed to the decoder, in microseconds.
pub const MAX_AGE_PUSH_US: u64 = 160_000;

/// A picture that was in the decoder for longer than this is not shown, in microseconds.
pub const MAX_AGE_POLL_US: u64 = 220_000;

/// When a frame is older than this, all that is in the decoder is thrown away too, in
/// microseconds.
pub const CRITICAL_AGE_US: u64 = 500_000;

/// What is done with a frame that is ready for the decoder.
#[derive(Debug, Clone, Copy, PartialEq, Eq, Structural)]
pub enum SubmitDecision {
    /// There is nothing to draw on yet.
    Wait,
    /// The frame and all in the decoder is too old.
    Flush { age_us: u64 },
    /// The frame is too old.
    Drop { age_us: u64 },
    Submit,
}

/// The time between two moments, zero if they are the other way round.
pub open spec fn span(from_us: u64, to_us: u64) -> u64 {
    if to_us >= from_us {
        (to_us - from_us) as u64
    } else {
        0
    }
}

/// What is done with a frame that is ready for the decoder at `now_us`.
pub open spec fn submission(ready: bool, trace: Option<FrameTrace>, now_us: u64) -> SubmitDecision {
    if !ready {
        SubmitDecision::Wait
    } else {
        match trace {
            Some(t) => {
                let age_us = span(t.receive_us, now_us);
                if age_us > CRITICAL_AGE_US {
                    SubmitDecision::Flush { age_us }
                } else if age_us > MAX_AGE_PUSH_US {
                    SubmitDecision::Drop { age_us }
                } else {
                    SubmitDecision::Submit
                }
            },
            None => SubmitDecision::Submit,
        }
    }
}

/// Decides what is done with a frame that is ready for the decoder at `now_us`.
pub fn submit_decision(ready: bool, trace: Option<FrameTrace>, now_us: u64) -> (r: SubmitDecision)
    ensures
        r == submission(ready, trace, now_us),
{
    if !ready {
        return SubmitDecision::Wait;
    }
    match trace {
        Some(t) => {
            let age_us: u64 = now_us.saturating_sub(t.receive_us);
            if age_us > CRITICAL_AGE_US {
                SubmitDecision::Flush { age_us }
            } else if age_us > MAX_AGE_PUSH_US {
                SubmitDecision::Drop { age_us }
            } else {
                SubmitDecision::Submit
            }
        },
        None => SubmitDecision::Submit,
    }
}

/// What is done with a picture that comes out of the decoder.
#[derive(Debug, Clone, Copy, PartialEq, Eq, Structural)]
pub enum ShowDecision {
    Show,
    /// It is too old, or nothing is known of it.
    Drop { age_us: Option<u64> },
}

/// What is done with a picture that comes out of the decoder at `now_us`.
pub open spec fn showing(trace: Option<FrameTrace>, now_us: u64) -> ShowDecision {
    match trace {
        Some(t) => if span(t.decode_us, now_us) > MAX_AGE_POLL_US {
            ShowDecision::Drop { age_us: Some(span(t.decode_us, now_us)) }
        } else {
            ShowDecision::Show
        },
        None => ShowDecision::Drop { age_us: None },
    }
}

/// Decides what is done with a picture that comes out of the decoder at `now_us`.
pub fn show_decision(trace: Option<FrameTrace>, now_us: u64) -> (r: ShowDecision)
    ensures
        r == showing(trace, now_us),
{
    match trace {
        Some(t) => {
            let age_us: u64 = now_us.saturating_sub(t.decode_us);
            if age_us > MAX_AGE_POLL_US {
                ShowDecision::Drop { age_us: Some(age_us) }
            } else {
                ShowDecision::Show
            }
        },
        None => ShowDecision::Drop { age_us: None },
    }
}

/// Counts frames over whole seconds.
#[derive(Debug, Clone, Copy, PartialEq, Eq, Structural)]
pub struct FrameRate {
    pub count: u64,
    pub since_us: u64,
}

impl FrameRate {
    /// A span over which frames are counted, in microseconds.
    pub const SPAN_US: u64 = 1_000_000;

    /// Counts from `now_us` on.
    pub fn new(now_us: u64) -> (r: FrameRate)
        ensures
            r == (FrameRate { count: 0, since_us: now_us }),
    {
        FrameRate { count: 0, since_us: now_us }
    }

    /// After one more frame: after a whole span it is told how many there were in how many
    /// microseconds, and the count begins anew.
    pub open spec fn ticked(self, now_us: u64) -> (FrameRate, Option<(u64, u64)>) {
        let elapsed = span(self.since_us, now_us);
        let count = (self.count + 1) as u64;
        if elapsed >= Self::SPAN_US {
            (FrameRate { count: 0, since_us: now_us }, Some((count, elapsed)))
        } else {
            (FrameRate { count, ..self }, None)
        }
    }

    /// Counts a frame. After a whole span returns how many there were in how many
    /// microseconds, and begins anew.
    pub fn tick(&mut self, now_us: u64) -> (r: Option<(u64, u64)>)
        requires
            old(self).count < u64::MAX,
        ensures
            (*final(self), r) == old(self).ticked(now_us),
    {
        self.count = self.count + 1;
        let elapsed: u64 = now_us.saturating_sub(self.since_us);
        if elapsed >= Self::SPAN_US {
            let n: u64 = self.count;
            self.count = 0;
            self.since_us = now_us;
            Some((n, elapsed))
        } else {
            None
        }
    }
}

/// Most pictures that are taken out of the decoder in one go.
pub const MAX_DRAIN: u32 = 32;

/// What the decoder gave when it was asked for a picture.
#[derive(Debug, Clone, Copy, PartialEq, Eq, Structural)]
pub enum OutputSeen {
    /// Nothing is ready.
    Pending,
    /// A picture was dropped, or shown directly.
    Passed,
    /// A picture was handed on, or could not be.
    Picture { sent: bool },
    /// The decoder has failed.
    Failed,
}

/// How many pictures have been taken out after this one; `None` when no more is asked for.
pub open spec fn taken_out(drained: u32, seen: OutputSeen) -> Option<u32> {
    match seen {
        OutputSeen::Pending => None,
        OutputSeen::Failed => None,
        OutputSeen::Passed => Some(drained),
        OutputSeen::Picture { sent } => if sent && drained + 1 < MAX_DRAIN {
            Some((drained + 1) as u32)
        } else {
            None
        },
    }
}

/// How many pictures have been taken out after this one; `None` when no more is asked for.
pub fn drain_step(drained: u32, seen: OutputSeen) -> (r: Option<u32>)
    requires
        drained < MAX_DRAIN,
    ensures
        r == taken_out(drained, seen),
{
    match seen {
        OutputSeen::Pending => None,
        OutputSeen::Failed => None,
        OutputSeen::Passed => Some(drained),
        OutputSeen::Picture { sent } => if sent && drained + 1 < MAX_DRAIN {
            Some(drained + 1)
        } else {
            None
        },
    }
}

/// Most sound that waits to be played: 200 milliseconds of two channels.
pub const MAX_AUDIO_SAMPLES: usize = 19_200;

/// How many of the oldest samples are thrown away when so many wait.
pub fn excess_samples(waiting: usize) -> (r: usize)
    ensures
        r == (if waiting > MAX_AUDIO_SAMPLES {
            waiting - MAX_AUDIO_SAMPLES
        } else {
            0
        }),
{
    if waiting > MAX_AUDIO_SAMPLES {
        waiting - MAX_AUDIO_SAMPLES
    } else {
        0
    }
}

/// Frames that are made up for lost ones.
#[derive(Debug)]
pub struct Concealer {
    pub poc_lsb: u32,
    pub state: HevcState,
    pub template: Option<SkipFrameTemplate>,
}

impl Concealer {
    /// The lower part of the order count of the next frame.
    pub open spec fn next_poc(self) -> u32 {
        (if self.poc_lsb == u32::MAX {
            0u32
        } else {
            (self.poc_lsb + 1) as u32
        }) & ((self.state@.max_poc_lsb - 1) as u32)
    }

    /// The state after the made-up frame, which is referred to and counts as shown.
    pub open spec fn concealed(self) -> StateModel {
        let s = self.state@.remembered(self.next_poc(), true, false, false);
        StateModel {
            dpb: pruned(output_marked(s.dpb, self.state@.poc(self.next_poc()) as i32)),
            ..s
        }
    }

    /// A frame can be made for the template.
    pub open spec fn makeable(self, t: SkipFrameTemplate) -> bool {
        let poc = self.next_poc();
        let rps = t.frame_rps(poc, self.state@);
        &&& t.max_poc_lsb >= 1
        &&& t.poc_lsb_len <= 32
        &&& t.poc_lsb_bit_offset + t.poc_lsb_len <= usize::MAX
        &&& t.rps_bit_offset + t.rps_original_bit_len + 8 * t.data@.len() + 8 <= usize::MAX
        &&& self.state@.derivable(poc)
        &&& self.state@.saved_usable() || reachable(
            self.state@.dpb,
            self.state@.poc(poc) as i32,
        )
        &&& rps.writable()
        &&& 64 * (rps.negative.len() + rps.positive.len()) + 256 <= usize::MAX
    }

    /// The frame that stands in for the next one, if there is a template and something to
    /// refer to.
    pub fn skip_frame(&self) -> (r: Option<Vec<u8>>)
        requires
            self.state@.max_poc_lsb >= 1,
            self.template is Some ==> self.makeable(self.template->0),
        ensures
            match self.template {
                Some(t) => {
                    let poc = self.next_poc();
                    let rps = t.frame_rps(poc, self.state@);
                    match r {
                        Some(frame) => {
                            &&& !rps.empty()
                            &&& t.set_bits(rps) is Some
                            &&& frame@.len() >= 4
                            &&& frame@.take(4) == seq![0u8, 0u8, 0u8, 1u8]
                            &&& crate::hevc::bits::packs(
                                frame@.skip(4),
                                t.frame_bits(t.lsb(poc), t.set_bits(rps)->0),
                            )
                        },
                        None => rps.empty() || t.set_bits(rps) is None,
                    }
                },
                None => r is None,
            },
    {
        let next: u32 = self.poc_lsb.wrapping_add(1) & (self.state.max_poc_lsb - 1);
        match &self.template {
            Some(t) => t.make_frame(next, &self.state),
            None => None,
        }
    }

    /// The decoder has taken the frame.
    pub fn skip_frame_taken(&mut self)
        requires
            old(self).state@.rememberable(old(self).next_poc(), true, false, false),
        ensures
            final(self).poc_lsb == old(self).next_poc(),
            final(self).state@ == old(self).concealed(),
            final(self).template == old(self).template,
    {
        let next: u32 = self.poc_lsb.wrapping_add(1) & (self.state.max_poc_lsb - 1);
        self.poc_lsb = next;
        let abs_poc: i32 = self.state.remember_picture(next, true, false, false);
        self.state.mark_output_and_prune(abs_poc);
    }
}

/// The time from the capture of a frame to its showing, by the local clock.
pub open spec fn shown_after(present_us: u64, capture_us: u64, offset_us: i64) -> int {
    let captured = crate::clock::signed64(capture_us) - offset_us;
    crate::clock::signed64(present_us) - if captured > i64::MAX {
        i64::MAX as int
    } else if captured < i64::MIN {
        i64::MIN as int
    } else {
        captured
    }
}

/// The time from the capture of a frame to its showing, by the local clock.
pub fn latency_us(present_us: u64, capture_us: u64, offset_us: i64) -> (r: i64)
    requires
        i64::MIN <= shown_after(present_us, capture_us, offset_us) <= i64::MAX,
    ensures
        r == shown_after(present_us, capture_us, offset_us),
{
    let captured: i128 = crate::receiver::session::signed_of(capture_us) - offset_us as i128;
    let local: i128 = if captured > i64::MAX as i128 {
        i64::MAX as i128
    } else if captured < i64::MIN as i128 {
        i64::MIN as i128
    } else {
        captured
    };
    (crate::receiver::session::signed_of(present_us) - local) as i64
}

/// The trace of a frame that is shown at `now_us`; `None` where it was never captured.
pub fn presented(trace: FrameTrace, now_us: u64) -> (r: Option<FrameTrace>)
    ensures
        r == (if trace.capture_us != 0 {
            Some(FrameTrace { present_us: now_us, ..trace })
        } else {
            None
        }),
{
    if trace.capture_us != 0 {
        let mut t: FrameTrace = trace;
        t.present_us = now_us;
        Some(t)
    } else {
        None
    }
}

} // verus!
