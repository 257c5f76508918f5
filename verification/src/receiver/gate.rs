//! Which slices go to the decoder.
use vstd::prelude::*;

verus! {

/// Least time between two requests for a key frame, in microseconds.
pub const IDR_INTERVAL_US: u64 = 50_000;

/// How many of the last frames are looked at for losses.
pub const FAIL_WINDOW: usize = 26;

/// With more losses than this among the last frames a key frame is asked for.
pub const MAX_LOSSES: u32 = 4;

/// How many good frames in a row make the stream stable again.
pub const STABILIZING_FRAMES: u32 = 5;

/// How losses are dealt with.
#[derive(Debug, Clone, Copy, PartialEq, Eq, Structural)]
pub enum RecoveryState {
    /// Losses are passed over.
    Concealing,
    /// A key frame has been asked for.
    WaitingForIdr,
    /// A key frame has come; so many good frames have to follow.
    StabilizingAfterIdr { good_frames_left: u32 },
}

/// What has to be done for a slice.
#[derive(Debug, Clone, Copy, PartialEq, Eq, Structural)]
pub struct GateAction {
    /// Whether a key frame is needed, if that has changed.
    pub idr_needed: Option<bool>,
    /// The sender is told that a frame was lost.
    pub report_loss: bool,
    /// The slices of the frame before are thrown away.
    pub clear_buffer: bool,
    /// The slice goes to the decoder.
    pub push: bool,
}

/// What decides whether a slice passes.
#[derive(Debug, Clone, Copy, PartialEq, Eq, Structural)]
pub struct SliceInfo {
    pub frame_id: u64,
    pub slice_idx: u8,
    pub is_key: bool,
    pub is_last: bool,
}

impl SliceInfo {
    /// What comes after the slice can be numbered.
    pub open spec fn countable(self) -> bool {
        self.slice_idx < 255 && (self.is_last ==> self.frame_id < u64::MAX)
    }
}

/// What is expected next and how losses are dealt with.
#[derive(Debug)]
pub struct VideoState {
    pub waiting_for_key: bool,
    pub expected_frame_id: Option<u64>,
    pub expected_slice_idx: u8,
    /// When a key frame was last asked for.
    pub last_idr_us: u64,
    pub recovery: RecoveryState,
    /// For each of the last frames, whether it was lost.
    pub loss_window: Vec<bool>,
    pub loss_window_pos: usize,
    pub got_zero_slice: bool,
}

/// What a [`VideoState`] holds.
#[verifier::ext_equal]
pub struct GateModel {
    pub waiting_for_key: bool,
    pub expected_frame_id: Option<u64>,
    pub expected_slice_idx: u8,
    pub last_idr_us: u64,
    pub recovery: RecoveryState,
    pub loss_window: Seq<bool>,
    pub loss_window_pos: nat,
    pub got_zero_slice: bool,
}

impl View for VideoState {
    type V = GateModel;

    open spec fn view(&self) -> GateModel {
        GateModel {
            waiting_for_key: self.waiting_for_key,
            expected_frame_id: self.expected_frame_id,
            expected_slice_idx: self.expected_slice_idx,
            last_idr_us: self.last_idr_us,
            recovery: self.recovery,
            loss_window: self.loss_window@,
            loss_window_pos: self.loss_window_pos as nat,
            got_zero_slice: self.got_zero_slice,
        }
    }
}

/// How many frames were lost.
pub open spec fn losses(window: Seq<bool>) -> nat
    decreases window.len(),
{
    if window.len() == 0 {
        0
    } else {
        losses(window.drop_last()) + if window.last() {
            1nat
        } else {
            0nat
        }
    }
}

/// Nothing is done.
pub open spec fn no_action() -> GateAction {
    GateAction { idr_needed: None, report_loss: false, clear_buffer: false, push: false }
}

impl GateModel {
    /// The window has its size; while no key frame is waited for, the next frame is known.
    pub open spec fn valid(self) -> bool {
        &&& self.loss_window.len() == FAIL_WINDOW
        &&& self.loss_window_pos < FAIL_WINDOW
        &&& !self.waiting_for_key ==> self.expected_frame_id is Some
        &&& self.recovery is WaitingForIdr ==> self.waiting_for_key
    }

    /// One more frame was lost, or not.
    pub open spec fn recorded(self, lost: bool) -> GateModel {
        GateModel {
            loss_window: self.loss_window.update(self.loss_window_pos as int, lost),
            loss_window_pos: (self.loss_window_pos + 1) % (FAIL_WINDOW as nat),
            ..self
        }
    }

    /// A key frame may be asked for again.
    pub open spec fn may_request(self, now_us: u64) -> bool {
        now_us - self.last_idr_us >= IDR_INTERVAL_US
    }

    /// A key frame is waited for from now on, and asked for if that was not just done.
    pub open spec fn waiting(self, now_us: u64) -> GateModel {
        GateModel {
            waiting_for_key: true,
            recovery: RecoveryState::WaitingForIdr,
            last_idr_us: if self.may_request(now_us) {
                now_us
            } else {
                self.last_idr_us
            },
            ..self
        }
    }

    pub open spec fn request(self, now_us: u64) -> Option<bool> {
        if self.may_request(now_us) {
            Some(true)
        } else {
            None
        }
    }

    /// The first slice of a key frame sets what is expected and ends the waiting for it.
    pub open spec fn synced(self, s: SliceInfo) -> GateModel {
        if s.is_key && s.slice_idx == 0 {
            let at = GateModel {
                expected_frame_id: Some(s.frame_id),
                expected_slice_idx: 0,
                ..self
            };
            if self.waiting_for_key {
                GateModel {
                    loss_window: Seq::new(self.loss_window.len(), |i: int| false),
                    loss_window_pos: 0,
                    waiting_for_key: false,
                    recovery: RecoveryState::StabilizingAfterIdr {
                        good_frames_left: STABILIZING_FRAMES,
                    },
                    ..at
                }
            } else {
                at
            }
        } else {
            self
        }
    }

    /// The slice ends the waiting for a key frame.
    pub open spec fn satisfied_by(self, s: SliceInfo) -> bool {
        self.waiting_for_key && s.is_key && s.slice_idx == 0
    }

    /// A frame before the one of the slice was lost.
    pub open spec fn lost(self) -> GateModel {
        GateModel { got_zero_slice: false, ..self.recorded(true) }
    }

    /// What is expected after a gap.
    pub open spec fn moved_to(self, frame_id: u64) -> GateModel {
        GateModel { expected_frame_id: Some(frame_id), expected_slice_idx: 0, ..self }
    }

    /// After a slice of the expected frame: those before its first slice and those that come
    /// late are dropped.
    pub open spec fn sliced(self, s: SliceInfo) -> GateModel {
        let started = GateModel {
            got_zero_slice: self.got_zero_slice || s.slice_idx == 0,
            ..self
        };
        if !self.takes(s) {
            started
        } else if s.is_last {
            let done = GateModel {
                expected_frame_id: Some((s.frame_id + 1) as u64),
                expected_slice_idx: 0,
                ..started.recorded(false)
            };
            GateModel {
                recovery: match done.recovery {
                    RecoveryState::StabilizingAfterIdr { good_frames_left } => if good_frames_left
                        <= 1 {
                        RecoveryState::Concealing
                    } else {
                        RecoveryState::StabilizingAfterIdr {
                            good_frames_left: (good_frames_left - 1) as u32,
                        }
                    },
                    other => other,
                },
                ..done
            }
        } else {
            GateModel { expected_slice_idx: (s.slice_idx + 1) as u8, ..started }
        }
    }

    /// A slice of the expected frame goes to the decoder.
    pub open spec fn takes(self, s: SliceInfo) -> bool {
        (self.got_zero_slice || s.slice_idx == 0) && s.slice_idx >= self.expected_slice_idx
    }

    /// A slice of the expected frame.
    pub open spec fn in_frame(self, s: SliceInfo, action: GateAction) -> (GateModel, GateAction) {
        (self.sliced(s), GateAction { push: self.takes(s), ..action })
    }

    /// After a slice, and what has to be done for it.
    pub open spec fn passed(self, s: SliceInfo, now_us: u64) -> (GateModel, GateAction) {
        let at = self.synced(s);
        let first = GateAction {
            idr_needed: if self.satisfied_by(s) {
                Some(false)
            } else {
                None
            },
            ..no_action()
        };
        if at.waiting_for_key {
            (at, first)
        } else if at.expected_frame_id == Some(s.frame_id) {
            at.in_frame(s, first)
        } else if s.frame_id < at.expected_frame_id->0 {
            (at, first)
        } else {
            at.after_gap(s, now_us)
        }
    }

    /// After a slice of a later frame than expected: while the stream is not stable, and
    /// after too many losses, a key frame is waited for.
    pub open spec fn after_gap(self, s: SliceInfo, now_us: u64) -> (GateModel, GateAction) {
        let gap = self.lost();
        let told = GateAction { report_loss: true, ..no_action() };
        match self.recovery {
            RecoveryState::StabilizingAfterIdr { .. } => (
                gap.waiting(now_us),
                GateAction { idr_needed: gap.request(now_us), ..told },
            ),
            RecoveryState::WaitingForIdr => (gap, told),
            RecoveryState::Concealing => {
                let cleared = GateAction { clear_buffer: true, ..told };
                if losses(gap.loss_window) > MAX_LOSSES {
                    (
                        gap.waiting(now_us),
                        GateAction { idr_needed: gap.request(now_us), ..cleared },
                    )
                } else {
                    gap.moved_to(s.frame_id).in_frame(s, cleared)
                }
            },
        }
    }
}

impl VideoState {
    /// Nothing has come yet: a key frame is waited for.
    pub fn new(now_us: u64) -> (r: VideoState)
        ensures
            r@ == (GateModel {
                waiting_for_key: true,
                expected_frame_id: None,
                expected_slice_idx: 0,
                last_idr_us: now_us,
                recovery: RecoveryState::Concealing,
                loss_window: Seq::new(FAIL_WINDOW as nat, |i: int| false),
                loss_window_pos: 0,
                got_zero_slice: false,
            }),
            r@.valid(),
    {
        let r = VideoState {
            waiting_for_key: true,
            expected_frame_id: None,
            expected_slice_idx: 0,
            last_idr_us: now_us,
            recovery: RecoveryState::Concealing,
            loss_window: no_losses(),
            loss_window_pos: 0,
            got_zero_slice: false,
        };
        r
    }

    /// A frame was lost.
    pub fn record_loss(&mut self)
        requires
            old(self)@.valid(),
        ensures
            final(self)@ == old(self)@.recorded(true),
            final(self)@.valid(),
    {
        self.loss_window.set(self.loss_window_pos, true);
        self.loss_window_pos = (self.loss_window_pos + 1) % FAIL_WINDOW;
    }

    /// A frame came whole.
    pub fn record_success(&mut self)
        requires
            old(self)@.valid(),
        ensures
            final(self)@ == old(self)@.recorded(false),
            final(self)@.valid(),
    {
        self.loss_window.set(self.loss_window_pos, false);
        self.loss_window_pos = (self.loss_window_pos + 1) % FAIL_WINDOW;
    }

    /// How many of the last frames were lost.
    pub fn loss_rate(&self) -> (r: u32)
        requires
            self@.valid(),
        ensures
            r == losses(self@.loss_window),
    {
        let mut n: u32 = 0;
        let mut i: usize = 0;
        while i < self.loss_window.len()
            invariant
                i <= self.loss_window@.len(),
                self.loss_window@.len() == FAIL_WINDOW,
                n == losses(self.loss_window@.take(i as int)),
                n <= i,
            decreases self.loss_window@.len() - i,
        {
            assert(self.loss_window@.take(i + 1).drop_last() =~= self.loss_window@.take(i as int));
            if self.loss_window[i] {
                n = n + 1;
            }
            i = i + 1;
        }
        assert(self.loss_window@.take(i as int) =~= self.loss_window@);
        n
    }

    /// Asks for a key frame unless that was just done. Returns whether it is asked for.
    pub fn request_idr(&mut self, now_us: u64) -> (r: bool)
        ensures
            r == old(self)@.may_request(now_us),
            final(self)@ == (GateModel {
                last_idr_us: if r {
                    now_us
                } else {
                    old(self)@.last_idr_us
                },
                ..old(self)@
            }),
    {
        if now_us.saturating_sub(self.last_idr_us) >= IDR_INTERVAL_US {
            self.last_idr_us = now_us;
            true
        } else {
            false
        }
    }

    /// Waits for a key frame from now on. Returns whether it is asked for.
    fn wait_for_key(&mut self, now_us: u64) -> (r: Option<bool>)
        requires
            old(self)@.valid(),
        ensures
            r == old(self)@.request(now_us),
            final(self)@ == old(self)@.waiting(now_us),
            final(self)@.valid(),
    {
        self.waiting_for_key = true;
        self.recovery = RecoveryState::WaitingForIdr;
        if self.request_idr(now_us) {
            Some(true)
        } else {
            None
        }
    }

    /// Takes a slice of the expected frame in. Returns whether it goes to the decoder.
    fn take_slice(&mut self, s: SliceInfo) -> (r: bool)
        requires
            old(self)@.valid(),
            old(self)@.expected_frame_id == Some(s.frame_id),
            old(self)@.takes(s) ==> s.countable(),
        ensures
            r == old(self)@.takes(s),
            final(self)@ == old(self)@.sliced(s),
            final(self)@.valid(),
    {
        if s.slice_idx == 0 {
            self.got_zero_slice = true;
        }
        if !self.got_zero_slice {
            return false;
        }
        if s.slice_idx < self.expected_slice_idx {
            return false;
        }
        self.expected_slice_idx = s.slice_idx + 1;
        if s.is_last {
            self.record_success();
            self.expected_frame_id = Some(s.frame_id + 1);
            self.expected_slice_idx = 0;
            match self.recovery {
                RecoveryState::StabilizingAfterIdr { good_frames_left } => {
                    let left: u32 = good_frames_left.saturating_sub(1);
                    if left == 0 {
                        self.recovery = RecoveryState::Concealing;
                    } else {
                        self.recovery = RecoveryState::StabilizingAfterIdr {
                            good_frames_left: left,
                        };
                    }
                },
                _ => {},
            }
        }
        true
    }

    /// Decides what is done for a slice that is due at `now_us`.
    pub fn pass(&mut self, s: SliceInfo, now_us: u64) -> (r: GateAction)
        requires
            old(self)@.valid(),
            old(self)@.passed(s, now_us).1.push ==> s.countable(),
        ensures
            (final(self)@, r) == old(self)@.passed(s, now_us),
            final(self)@.valid(),
    {
        let ghost start = self@;
        let mut action: GateAction = GateAction {
            idr_needed: None,
            report_loss: false,
            clear_buffer: false,
            push: false,
        };
        if s.is_key && s.slice_idx == 0 {
            self.expected_frame_id = Some(s.frame_id);
            self.expected_slice_idx = 0;
            if self.waiting_for_key {
                self.loss_window = no_losses();
                self.loss_window_pos = 0;
                self.waiting_for_key = false;
                action.idr_needed = Some(false);
                self.recovery = RecoveryState::StabilizingAfterIdr {
                    good_frames_left: STABILIZING_FRAMES,
                };
            }
        }
        assert(self@ =~= start.synced(s));
        if self.waiting_for_key {
            return action;
        }
        let expected: u64 = match self.expected_frame_id {
            Some(id) => id,
            None => s.frame_id,
        };
        if s.frame_id != expected {
            if s.frame_id < expected {
                return action;
            }
            self.record_loss();
            action.report_loss = true;
            self.got_zero_slice = false;
            match self.recovery {
                RecoveryState::StabilizingAfterIdr { .. } => {
                    action.idr_needed = self.wait_for_key(now_us);
                    return action;
                },
                RecoveryState::Concealing => {
                    action.clear_buffer = true;
                    if self.loss_rate() > MAX_LOSSES {
                        action.idr_needed = self.wait_for_key(now_us);
                        return action;
                    }
                },
                RecoveryState::WaitingForIdr => {
                    return action;
                },
            }
            self.expected_frame_id = Some(s.frame_id);
            self.expected_slice_idx = 0;
        }
        action.push = self.take_slice(s);
        action
    }
}

fn no_losses() -> (r: Vec<bool>)
    ensures
        r@ == Seq::new(FAIL_WINDOW as nat, |i: int| false),
{
    let mut v: Vec<bool> = Vec::new();
    while v.len() < FAIL_WINDOW
        invariant
            v@.len() <= FAIL_WINDOW,
            v@ == Seq::new(v@.len(), |i: int| false),
        decreases FAIL_WINDOW - v@.len(),
    {
        v.push(false);
        assert(v@ =~= Seq::new(v@.len(), |i: int| false));
    }
    v
}

/// While a key frame is waited for nothing goes to the decoder but from the first slice of a
/// key frame on.
pub proof fn law_waiting_ends_with_a_key_frame(m: GateModel, s: SliceInfo, now_us: u64)
    requires
        m.valid(),
        m.waiting_for_key,
    ensures
        m.passed(s, now_us).1.push == (s.is_key && s.slice_idx == 0),
        m.passed(s, now_us).0.waiting_for_key == !(s.is_key && s.slice_idx == 0),
        m.passed(s, now_us).1.idr_needed == (if s.is_key && s.slice_idx == 0 {
            Some(false)
        } else {
            None
        }),
{
}

/// Slices go to the decoder in their order: after one of them, none of an earlier frame and
/// none up to it in its own frame, unless a key frame begins.
pub proof fn law_slices_go_in_order(
    m: GateModel,
    a: SliceInfo,
    b: SliceInfo,
    first_us: u64,
    second_us: u64,
)
    requires
        m.valid(),
        a.countable(),
        m.passed(a, first_us).1.push,
        !(b.is_key && b.slice_idx == 0),
        m.passed(a, first_us).0.passed(b, second_us).1.push,
    ensures
        b.frame_id > a.frame_id || (b.frame_id == a.frame_id && b.slice_idx > a.slice_idx),
{
    let n = m.passed(a, first_us).0;
    assert(n.expected_frame_id == Some(a.frame_id) || n.expected_frame_id == Some(
        (a.frame_id + 1) as u64,
    ));
}

/// Of each frame the first slice goes to the decoder before any other: where a slice that is
/// not the first one passes, the first one of its frame has come.
pub proof fn law_first_slice_comes_first(m: GateModel, s: SliceInfo, now_us: u64)
    requires
        m.valid(),
        m.passed(s, now_us).1.push,
        s.slice_idx > 0,
    ensures
        m.expected_frame_id == Some(s.frame_id),
        m.got_zero_slice,
{
}

/// Key frames are not asked for more often than once per interval.
pub proof fn law_requests_are_spaced(m: GateModel, s: SliceInfo, now_us: u64)
    requires
        m.valid(),
        m.passed(s, now_us).1.idr_needed == Some(true),
    ensures
        now_us - m.last_idr_us >= IDR_INTERVAL_US,
        m.passed(s, now_us).0.last_idr_us == now_us,
{
}

/// After the first slice of a key frame that was waited for, so many frames that come whole
/// and in order make the stream stable again.
pub proof fn law_stream_stabilizes(m: GateModel, id: u64, n: nat, now_us: u64)
    requires
        m.valid(),
        !m.waiting_for_key,
        m.expected_frame_id == Some(id),
        m.expected_slice_idx == 0,
        m.recovery == (RecoveryState::StabilizingAfterIdr { good_frames_left: n as u32 }),
        1 <= n <= STABILIZING_FRAMES,
        id + n <= u64::MAX,
    ensures
        whole_frames(m, id, n, now_us).recovery is Concealing,
    decreases n,
{
    let s = SliceInfo { frame_id: id, slice_idx: 0, is_key: false, is_last: true };
    let next = m.passed(s, now_us).0;
    if n > 1 {
        law_stream_stabilizes(next, (id + 1) as u64, (n - 1) as nat, now_us);
    } else {
        assert(whole_frames(next, (id + 1) as u64, 0, now_us) == next);
    }
}

/// After `n` frames of one slice each, from `id` on.
pub open spec fn whole_frames(m: GateModel, id: u64, n: nat, now_us: u64) -> GateModel
    decreases n,
{
    if n == 0 {
        m
    } else {
        whole_frames(
            m.passed(
                SliceInfo { frame_id: id, slice_idx: 0, is_key: false, is_last: true },
                now_us,
            ).0,
            (id + 1) as u64,
            (n - 1) as nat,
            now_us,
        )
    }
}

/// What was noted of one frame counts for itself.
pub proof fn law_losses_are_counted(window: Seq<bool>, i: int, lost: bool)
    requires
        0 <= i < window.len(),
    ensures
        losses(window.update(i, lost)) + (if window[i] {
            1nat
        } else {
            0nat
        }) == losses(window) + (if lost {
            1nat
        } else {
            0nat
        }),
        losses(window) <= window.len(),
        losses(window) == 0 <==> forall|k: int| 0 <= k < window.len() ==> !#[trigger] window[k],
    decreases window.len(),
{
    let front = window.drop_last();
    let next = window.update(i, lost);
    if i == window.len() - 1 {
        assert(next.drop_last() =~= front);
        if front.len() > 0 {
            law_losses_are_counted(front, 0, lost);
        }
    } else {
        assert(next.drop_last() =~= front.update(i, lost));
        law_losses_are_counted(front, i, lost);
    }
    if forall|k: int| 0 <= k < window.len() ==> !#[trigger] window[k] {
        assert forall|k: int| 0 <= k < front.len() implies !#[trigger] front[k] by {
            assert(!window[k]);
        }
    }
    if losses(window) == 0 {
        assert forall|k: int| 0 <= k < window.len() implies !#[trigger] window[k] by {
            if k < front.len() {
                assert(!front[k]);
            }
        }
    }
}

/// The window holds the last 26 frames: what is noted takes the place of what was noted 26
/// frames before, and the places follow each other.
pub proof fn law_window_holds_the_last_frames(m: GateModel, lost: bool)
    requires
        m.valid(),
    ensures
        ({
            let n = m.recorded(lost);
            let at = m.loss_window_pos as int;
            &&& n.valid()
            &&& n.loss_window.len() == 26
            &&& n.loss_window[at] == lost
            &&& forall|i: int|
                0 <= i < 26 && i != at ==> (#[trigger] n.loss_window[i]) == m.loss_window[i]
            &&& n.loss_window_pos == (if at == 25 {
                0int
            } else {
                at + 1
            })
        }),
{
}

/// A lost frame is reported exactly when a slice of a later frame comes than the one that is
/// expected, unless a key frame begins or is waited for.
pub proof fn law_gaps_are_reported(m: GateModel, s: SliceInfo, now_us: u64)
    requires
        m.valid(),
    ensures
        m.passed(s, now_us).1.report_loss <==> {
            &&& !m.waiting_for_key
            &&& !(s.is_key && s.slice_idx == 0)
            &&& s.frame_id > m.expected_frame_id->0
        },
{
}

/// A gap in a stream that is stable and has had few losses is passed over: the slices of the
/// frame before are thrown away, and the new frame is taken up if it begins. After more than
/// four losses, and while the stream is not stable, nothing goes to the decoder until a key
/// frame comes, which is asked for unless that was done in the last fifty milliseconds.
pub proof fn law_gaps_are_passed_over_or_waited_out(m: GateModel, s: SliceInfo, now_us: u64)
    requires
        m.valid(),
        !m.waiting_for_key,
        !(s.is_key && s.slice_idx == 0),
        s.frame_id > m.expected_frame_id->0,
        now_us >= m.last_idr_us,
    ensures
        ({
            let (n, action) = m.passed(s, now_us);
            let count = losses(m.loss_window) + (if m.loss_window[m.loss_window_pos as int] {
                0nat
            } else {
                1nat
            });
            if m.recovery is Concealing && count <= 4 {
                &&& !n.waiting_for_key
                &&& action.clear_buffer
                &&& action.idr_needed is None
                &&& action.push == (s.slice_idx == 0)
                &&& n.recovery is Concealing
                &&& n.last_idr_us == m.last_idr_us
                &&& s.slice_idx > 0 ==> n.expected_frame_id == Some(s.frame_id)
            } else {
                &&& n.waiting_for_key
                &&& n.recovery is WaitingForIdr
                &&& !action.push
                &&& action.clear_buffer == (m.recovery is Concealing)
                &&& if now_us - m.last_idr_us >= 50_000 {
                    action.idr_needed == Some(true) && n.last_idr_us == now_us
                } else {
                    action.idr_needed is None && n.last_idr_us == m.last_idr_us
                }
            }
        }),
{
    law_losses_are_counted(m.loss_window, m.loss_window_pos as int, true);
}

/// A slice that follows the one before goes to the decoder, and the one behind it is expected
/// then: the next one of the frame, or the first one of the next frame.
pub proof fn law_expected_slices_pass(m: GateModel, s: SliceInfo, now_us: u64)
    requires
        m.valid(),
        s.countable(),
        !m.waiting_for_key,
        m.expected_frame_id == Some(s.frame_id),
        m.expected_slice_idx == s.slice_idx,
        s.slice_idx == 0 || m.got_zero_slice,
    ensures
        ({
            let (n, action) = m.passed(s, now_us);
            &&& action == (GateAction { push: true, ..no_action() })
            &&& n.got_zero_slice
            &&& !n.waiting_for_key
            &&& n.expected_frame_id == Some(
                if s.is_last {
                    (s.frame_id + 1) as u64
                } else {
                    s.frame_id
                },
            )
            &&& n.expected_slice_idx == (if s.is_last {
                0int
            } else {
                s.slice_idx + 1
            })
            &&& s.is_last ==> !n.loss_window[m.loss_window_pos as int]
            &&& !s.is_last ==> n.loss_window == m.loss_window
        }),
{
}

/// A key frame begins the count of losses anew when it was waited for, and it takes five
/// good frames, its own among them, until losses are passed over again.
pub proof fn law_key_frame_begins_anew(m: GateModel, s: SliceInfo, now_us: u64)
    requires
        m.valid(),
        s.is_key,
        s.slice_idx == 0,
        !s.is_last,
    ensures
        ({
            let (n, action) = m.passed(s, now_us);
            &&& action.push
            &&& !action.report_loss
            &&& !n.waiting_for_key
            &&& n.expected_frame_id == Some(s.frame_id)
            &&& n.expected_slice_idx == 1
            &&& m.waiting_for_key ==> {
                &&& losses(n.loss_window) == 0
                &&& n.recovery == (RecoveryState::StabilizingAfterIdr { good_frames_left: 5 })
                &&& action.idr_needed == Some(false)
            }
            &&& !m.waiting_for_key ==> {
                &&& n.loss_window == m.loss_window
                &&& n.recovery == m.recovery
                &&& action.idr_needed is None
            }
        }),
{
    if m.waiting_for_key {
        let n = m.passed(s, now_us).0;
        law_losses_are_counted(n.loss_window, 0, false);
    }
}

} // verus!
