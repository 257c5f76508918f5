//! The offset between the clocks of the two sides.
use crate::packet::FrameTrace;
use crate::time::reading_us;
use std::time::{Duration, Instant};
use vstd::prelude::*;

verus! {

/// A point of the monotonic clock of the standard library.
#[verifier::external_type_specification]
#[verifier::external_body]
pub struct ExInstant(std::time::Instant);

/// `Instant::elapsed`: the time that has passed. Nothing is claimed of it.
pub assume_specification[ Instant::elapsed ](t: &Instant) -> (r: Duration)
;

/// A 64-bit number read as a signed one.
pub open spec fn signed64(x: u64) -> int {
    if x < 0x8000_0000_0000_0000 {
        x as int
    } else {
        x - 0x1_0000_0000_0000_0000
    }
}

pub open spec fn fits_i64(x: int) -> bool {
    i64::MIN <= x <= i64::MAX
}

fn to_signed64(x: u64) -> (r: i64)
    ensures
        r == signed64(x),
{
    if x < 0x8000_0000_0000_0000 {
        x as i64
    } else {
        (x as i128 - 0x1_0000_0000_0000_0000) as i64
    }
}

/// How many measurements are weighed heavily before the offset counts as settled.
pub const SETTLING_SYNCS: u64 = 50;

/// What a measurement of the offset calls for.
#[derive(Debug, Clone, Copy, PartialEq, Eq, Structural)]
pub enum SyncStep {
    /// The first one is taken as it is.
    Taken,
    /// The offset is to be moved towards the measured one, by a larger part of the way while
    /// it is not `settled`.
    Smooth { raw_offset_us: i64, settled: bool },
}

/// Which side of the connection this is.
#[derive(Debug, Clone, Copy, PartialEq, Eq, Structural)]
pub enum Side {
    Sender,
    Receiver,
}

/// A clock that knows how far the remote one is ahead of it.
#[derive(Debug)]
pub struct Clock {
    offset_us: i64,
    sync_count: u64,
}

/// What a [`Clock`] knows.
pub struct ClockModel {
    pub offset_us: i64,
    pub sync_count: u64,
}

impl View for Clock {
    type V = ClockModel;

    closed spec fn view(&self) -> ClockModel {
        ClockModel { offset_us: self.offset_us, sync_count: self.sync_count }
    }
}

impl ClockModel {
    /// The offset that a measurement shows: the remote clock stood at `server_now` half a
    /// round trip after the local one had stood at `client_now`.
    pub open spec fn measured(server_now: u64, client_now: u64, rtt: u64) -> int {
        signed64(server_now) - signed64((client_now + rtt / 2) as u64)
    }

    /// One more measurement has been counted.
    pub open spec fn counted(self) -> ClockModel {
        ClockModel {
            sync_count: if self.sync_count == u64::MAX {
                0
            } else {
                (self.sync_count + 1) as u64
            },
            ..self
        }
    }

    pub open spec fn with_offset(self, offset_us: i64) -> ClockModel {
        ClockModel { offset_us, ..self }
    }

    /// After a measurement that shows this offset, and what it calls for.
    pub open spec fn synced(self, raw_offset_us: i64) -> (ClockModel, SyncStep) {
        if self.sync_count == 0 {
            (self.counted().with_offset(raw_offset_us), SyncStep::Taken)
        } else {
            (
                self.counted(),
                SyncStep::Smooth { raw_offset_us, settled: self.sync_count >= SETTLING_SYNCS },
            )
        }
    }

    /// The remote time at a local time, modulo the range of the clock.
    pub open spec fn remote(self, local_us: u64) -> u64 {
        ((local_us + self.offset_us) % 0x1_0000_0000_0000_0000) as u64
    }
}

impl Clock {
    /// A clock that knows no offset.
    pub fn new() -> (r: Clock)
        ensures
            r@ == (ClockModel { offset_us: 0, sync_count: 0 }),
    {
        Clock { offset_us: 0, sync_count: 0 }
    }

    /// Takes a measurement in. The first one sets the offset; what the later ones call for
    /// is returned.
    pub fn sync(&mut self, server_now: u64, client_now: u64, rtt: u64) -> (r: SyncStep)
        requires
            client_now + rtt / 2 <= u64::MAX,
            fits_i64(ClockModel::measured(server_now, client_now, rtt)),
        ensures
            (final(self)@, r) == old(self)@.synced(
                ClockModel::measured(server_now, client_now, rtt) as i64,
            ),
    {
        let client_point_in_time: i64 = to_signed64(client_now + rtt / 2);
        let new_offset: i64 = to_signed64(server_now) - client_point_in_time;
        let count: u64 = self.sync_count;
        self.sync_count = count.wrapping_add(1);
        if count == 0 {
            self.offset_us = new_offset;
            SyncStep::Taken
        } else {
            SyncStep::Smooth { raw_offset_us: new_offset, settled: count >= SETTLING_SYNCS }
        }
    }

    /// The local time in microseconds since `start`, where the time line of all clocks of the
    /// process begins: [`reading_us`] of the span since then. That span depends on the machine,
    /// so nothing is claimed of the result.
    pub fn local_now_us(&self, start: &Instant) -> (r: u64) {
        reading_us(Some(start.elapsed().as_micros()))
    }

    /// The remote time when the local one is `local_us`.
    pub fn remote_at(&self, local_us: u64) -> (r: u64)
        ensures
            r == self@.remote(local_us),
    {
        if self.offset_us >= 0 {
            let off: u64 = self.offset_us as u64;
            local_us.wrapping_add(off)
        } else {
            let off: u64 = (-(self.offset_us + 1)) as u64 + 1;
            local_us.wrapping_sub(off)
        }
    }

    /// The remote time now, on the time line that begins at `start`.
    pub fn remote_now_us(&self, start: &Instant) -> (r: u64)
        ensures
            exists|local_us: u64| r == #[trigger] self@.remote(local_us),
    {
        let local: u64 = self.local_now_us(start);
        self.remote_at(local)
    }

    /// A time of the client by the server's clock.
    pub fn client_to_server(&self, us: u64) -> (r: i64)
        requires
            fits_i64(signed64(us) + self@.offset_us),
        ensures
            r == signed64(us) + self@.offset_us,
    {
        to_signed64(us) + self.offset_us
    }

    /// Takes over an offset that the remote side has worked out.
    pub fn apply_remote_offset(&mut self, new_offset: i64)
        ensures
            final(self)@ == old(self)@.counted().with_offset(new_offset),
    {
        self.offset_us = new_offset;
        self.sync_count = self.sync_count.wrapping_add(1);
    }

    /// A time of the server by the client's clock.
    pub fn server_to_client(&self, remote_us: u64) -> (r: i64)
        requires
            fits_i64(signed64(remote_us) - self@.offset_us),
        ensures
            r == signed64(remote_us) - self@.offset_us,
    {
        to_signed64(remote_us) - self.offset_us
    }

    /// Sets the offset.
    pub fn set_offset(&mut self, offset: i64)
        ensures
            final(self)@ == old(self)@.with_offset(offset),
    {
        self.offset_us = offset;
    }

    /// The offset.
    pub fn get_offset(&self) -> (r: i64)
        ensures
            r == self@.offset_us,
    {
        self.offset_us
    }
}

impl Default for Clock {
    fn default() -> (r: Clock)
        ensures
            r@ == (ClockModel { offset_us: 0, sync_count: 0 }),
    {
        Clock::new()
    }
}

/// The stages that a frame passes, in their order.
#[derive(Debug, Clone, Copy, PartialEq, Eq, Structural)]
pub enum FrameStep {
    Capture,
    Encode,
    Serialize,
    Receive,
    Reassembled,
    JitterOut,
    DecoderSubmit,
    Decode,
    Present,
}

/// The stage is passed on the sender.
pub open spec fn on_sender(step: FrameStep) -> bool {
    step is Capture || step is Encode || step is Serialize
}

impl FrameTrace {
    /// When the frame passed a stage, by the clock of the side on which the stage is.
    pub open spec fn stamp(self, step: FrameStep) -> u64 {
        match step {
            FrameStep::Capture => self.capture_us,
            FrameStep::Encode => self.encode_us,
            FrameStep::Serialize => self.serialize_us,
            FrameStep::Receive => self.receive_us,
            FrameStep::Reassembled => self.reassembled_us,
            FrameStep::JitterOut => self.jitter_out_us,
            FrameStep::DecoderSubmit => self.decoder_submit_us,
            FrameStep::Decode => self.decode_us,
            FrameStep::Present => self.present_us,
        }
    }

    /// When the frame passed a stage, by the clock of `side`. The sender's clock is the
    /// server's and the receiver's is the client's.
    pub open spec fn local_stamp(self, step: FrameStep, clock: ClockModel, side: Side) -> int {
        let val = signed64(self.stamp(step));
        if side == Side::Sender && !on_sender(step) {
            val + clock.offset_us
        } else if side == Side::Receiver && on_sender(step) {
            val - clock.offset_us
        } else {
            val
        }
    }

    fn raw(&self, step: FrameStep) -> (r: u64)
        ensures
            r == self.stamp(step),
    {
        match step {
            FrameStep::Capture => self.capture_us,
            FrameStep::Encode => self.encode_us,
            FrameStep::Serialize => self.serialize_us,
            FrameStep::Receive => self.receive_us,
            FrameStep::Reassembled => self.reassembled_us,
            FrameStep::JitterOut => self.jitter_out_us,
            FrameStep::DecoderSubmit => self.decoder_submit_us,
            FrameStep::Decode => self.decode_us,
            FrameStep::Present => self.present_us,
        }
    }

    /// When the frame passed a stage, by the local clock.
    pub fn get_local(&self, step: FrameStep, clock: &Clock, side: Side) -> (r: i64)
        requires
            fits_i64(self.local_stamp(step, clock@, side)),
        ensures
            r == self.local_stamp(step, clock@, side),
    {
        let val: u64 = self.raw(step);
        let sent: bool = match step {
            FrameStep::Capture => true,
            FrameStep::Encode => true,
            FrameStep::Serialize => true,
            _ => false,
        };
        match side {
            Side::Sender => if sent {
                to_signed64(val)
            } else {
                clock.client_to_server(val)
            },
            Side::Receiver => if sent {
                clock.server_to_client(val)
            } else {
                to_signed64(val)
            },
        }
    }
}

/// Taking a time to the other side and back gives the same time.
pub proof fn law_conversions_undo_each_other(clock: ClockModel, us: u64)
    requires
        us < 0x8000_0000_0000_0000,
        0 <= us + clock.offset_us <= i64::MAX,
    ensures
        signed64((signed64(us) + clock.offset_us) as u64) - clock.offset_us == us,
{
}

/// A measurement made while the offset is `d` and both ways take equally long shows `d`.
pub proof fn law_symmetric_measurement_is_exact(d: int, client_now: u64, half_trip: u64)
    requires
        client_now + half_trip < 0x8000_0000_0000_0000,
        0 <= client_now + half_trip + d < 0x8000_0000_0000_0000,
        2 * half_trip <= u64::MAX,
    ensures
        ClockModel::measured(
            (client_now + half_trip + d) as u64,
            client_now,
            (2 * half_trip) as u64,
        ) == d,
{
}

/// The time between two stages is the same by either clock, as long as the offset stays.
pub proof fn law_spans_do_not_depend_on_the_side(
    trace: FrameTrace,
    a: FrameStep,
    b: FrameStep,
    clock: ClockModel,
)
    ensures
        trace.local_stamp(b, clock, Side::Sender) - trace.local_stamp(a, clock, Side::Sender)
            == trace.local_stamp(b, clock, Side::Receiver) - trace.local_stamp(
            a,
            clock,
            Side::Receiver,
        ),
{
}

/// A stage that is passed at one moment has one stamp on each side, whoever took it: the
/// client's clock shows the moment as it is and the server's as the remote time. Capture,
/// encoding and serialisation are stamped by the sender, what follows by the receiver.
pub proof fn law_stamps_tell_the_moment(
    trace: FrameTrace,
    step: FrameStep,
    clock: ClockModel,
    at_us: u64,
)
    requires
        at_us < 0x8000_0000_0000_0000,
        0 <= at_us + clock.offset_us < 0x8000_0000_0000_0000,
        step is Capture ==> trace.capture_us == clock.remote(at_us),
        step is Encode ==> trace.encode_us == clock.remote(at_us),
        step is Serialize ==> trace.serialize_us == clock.remote(at_us),
        step is Receive ==> trace.receive_us == at_us,
        step is Reassembled ==> trace.reassembled_us == at_us,
        step is JitterOut ==> trace.jitter_out_us == at_us,
        step is DecoderSubmit ==> trace.decoder_submit_us == at_us,
        step is Decode ==> trace.decode_us == at_us,
        step is Present ==> trace.present_us == at_us,
    ensures
        trace.local_stamp(step, clock, Side::Receiver) == at_us,
        trace.local_stamp(step, clock, Side::Sender) == at_us + clock.offset_us,
{
}

/// Each measurement is counted.
pub proof fn law_measurements_are_counted(clock: ClockModel)
    requires
        clock.sync_count < u64::MAX,
    ensures
        clock.counted().sync_count == clock.sync_count + 1,
        clock.counted().offset_us == clock.offset_us,
{
}

/// The first measurement sets the offset. Each later one leaves it and is handed on; the
/// offset counts as settled once there were fifty before.
pub proof fn law_first_measurement_is_taken(clock: ClockModel, raw_offset_us: i64)
    requires
        clock.sync_count < u64::MAX,
    ensures
        ({
            let (after, step) = clock.synced(raw_offset_us);
            &&& after.sync_count == clock.sync_count + 1
            &&& step is Taken <==> clock.sync_count == 0
            &&& step is Taken ==> after.offset_us == raw_offset_us
            &&& step matches SyncStep::Smooth { raw_offset_us: raw, settled } ==> {
                &&& after.offset_us == clock.offset_us
                &&& raw == raw_offset_us
                &&& settled <==> clock.sync_count >= 50
            }
        }),
{
}

} // verus!
