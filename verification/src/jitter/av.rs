//! Video and audio released by one timeline.
use crate::jitter::audio::{audio_views, AudioFrame, AudioFrameModel, AudioJitterBuffer, AudioModel};
use crate::jitter::video::{listing, packet_views, JitterBuffer, JitterModel};
use crate::jitter::INTER_PACKET_GAP_US;
use crate::packet::{PacketModel, VideoPacket};
use vstd::prelude::*;

verus! {

/// Buffers for video and audio that share one timeline: the first packet of either fixes how
/// the sender's clock maps to the local one.
pub struct AvJitterBuffer {
    video: JitterBuffer,
    audio: AudioJitterBuffer,
    target_us: u64,
    anchor: Option<(u64, u64)>,
}

/// What an [`AvJitterBuffer`] holds. The anchor is a time by the sender's clock and the local
/// time that stands for it.
#[verifier::ext_equal]
pub struct AvModel {
    pub video: JitterModel,
    pub audio: AudioModel,
    pub target_us: u64,
    pub anchor: Option<(u64, u64)>,
}

impl View for AvJitterBuffer {
    type V = AvModel;

    closed spec fn view(&self) -> AvModel {
        AvModel {
            video: self.video@,
            audio: self.audio@,
            target_us: self.target_us,
            anchor: self.anchor,
        }
    }
}

/// The smaller one of two times, as far as there are any.
pub open spec fn earlier(a: Option<u64>, b: Option<u64>) -> Option<u64> {
    match (a, b) {
        (Some(x), Some(y)) => Some(
            if x <= y {
                x
            } else {
                y
            },
        ),
        (Some(x), None) => Some(x),
        (None, y) => y,
    }
}

fn pick_earlier(a: Option<u64>, b: Option<u64>) -> (r: Option<u64>)
    ensures
        r == earlier(a, b),
{
    match (a, b) {
        (Some(x), Some(y)) => if x <= y {
            Some(x)
        } else {
            Some(y)
        },
        (Some(x), None) => Some(x),
        (None, y) => y,
    }
}

impl AvModel {
    pub open spec fn valid(self) -> bool {
        self.video.valid() && self.audio.valid()
    }

    /// The anchor, which is now if there was none.
    pub open spec fn anchored(self, capture_us: u64, now_us: u64) -> (u64, u64) {
        match self.anchor {
            Some(a) => a,
            None => (capture_us, now_us),
        }
    }

    /// When what was captured at `capture_us` is due: as long after the anchor as it was
    /// captured after it, and held for the target time.
    pub open spec fn release(self, capture_us: u64, now_us: u64) -> int {
        let (sender, local) = self.anchored(capture_us, now_us);
        let delta = if capture_us >= sender {
            capture_us - sender
        } else {
            0
        };
        (if local + delta <= u64::MAX {
            local + delta
        } else {
            u64::MAX as int
        }) + self.target_us
    }

    /// When a slice was captured; one without a trace counts as captured now.
    pub open spec fn captured(p: PacketModel, now_us: u64) -> u64 {
        match p.trace {
            Some(t) => t.capture_us,
            None => now_us,
        }
    }

    pub open spec fn video_pushed(self, p: PacketModel, now_us: u64) -> AvModel {
        let at = Self::captured(p, now_us);
        AvModel {
            video: self.video.pushed(p, self.release(at, now_us) as u64),
            anchor: Some(self.anchored(at, now_us)),
            ..self
        }
    }

    pub open spec fn audio_pushed(self, f: AudioFrameModel, now_us: u64) -> AvModel {
        AvModel {
            audio: self.audio.pushed(f, self.release(f.capture_us, now_us) as u64),
            anchor: Some(self.anchored(f.capture_us, now_us)),
            ..self
        }
    }
}

impl AvJitterBuffer {
    /// Empty buffers.
    pub fn new(target_ms: u64) -> (r: AvJitterBuffer)
        requires
            target_ms * 1_000 <= u64::MAX,
        ensures
            r@.video.entries.len() == 0,
            r@.video.packets == Map::<u128, PacketModel>::empty(),
            r@.video.target_us == target_ms * 1_000,
            r@.video.last_scheduled_us == 0,
            r@.audio.entries.len() == 0,
            r@.audio.target_us == target_ms * 1_000,
            r@.target_us == target_ms * 1_000,
            r@.anchor is None,
            r@.valid(),
    {
        AvJitterBuffer {
            video: JitterBuffer::new(target_ms),
            audio: AudioJitterBuffer::new(target_ms),
            target_us: target_ms * 1_000,
            anchor: None,
        }
    }

    /// Takes what is due at `now_us`.
    pub fn drain_ready_with(&mut self, now_us: u64) -> (r: (Vec<VideoPacket>, Vec<AudioFrame>))
        requires
            old(self)@.valid(),
        ensures
            listing(packet_views(r.0@), old(self)@.video.released(now_us)),
            audio_views(r.1@) == old(self)@.audio.released(now_us),
            final(self)@ == (AvModel {
                video: old(self)@.video.drained(now_us),
                audio: old(self)@.audio.drained(now_us),
                ..old(self)@
            }),
            final(self)@.valid(),
    {
        let video: Vec<VideoPacket> = self.video.drain_ready_with(now_us);
        let audio: Vec<AudioFrame> = self.audio.drain_ready_with(now_us);
        (video, audio)
    }

    /// When the first entry of either buffer is due.
    pub fn time_to_next_us(&self) -> (r: Option<u64>)
        ensures
            r == earlier(
                if self@.video.entries.len() == 0 {
                    None
                } else {
                    Some(self@.video.entries[0].release_us)
                },
                if self@.audio.entries.len() == 0 {
                    None
                } else {
                    Some(self@.audio.entries[0].release_us)
                },
            ),
    {
        pick_earlier(self.video.next_release_us(), self.audio.next_release_us())
    }

    /// When what was captured at `capture_us` is due.
    fn to_local_release(&mut self, capture_us: u64, now_us: u64) -> (r: u64)
        requires
            old(self)@.release(capture_us, now_us) <= u64::MAX,
        ensures
            r == old(self)@.release(capture_us, now_us),
            final(self)@ == (AvModel {
                anchor: Some(old(self)@.anchored(capture_us, now_us)),
                ..old(self)@
            }),
    {
        let (anchor_sender, anchor_local): (u64, u64) = match self.anchor {
            Some(a) => a,
            None => (capture_us, now_us),
        };
        self.anchor = Some((anchor_sender, anchor_local));
        let delta: u64 = capture_us.saturating_sub(anchor_sender);
        anchor_local.saturating_add(delta) + self.target_us
    }

    /// Holds a slice until it is due.
    pub fn push_video(&mut self, packet: VideoPacket, now_us: u64)
        requires
            old(self)@.valid(),
            old(self)@.video.last_scheduled_us + INTER_PACKET_GAP_US <= u64::MAX,
            old(self)@.release(AvModel::captured(packet@, now_us), now_us) <= u64::MAX,
        ensures
            final(self)@ == old(self)@.video_pushed(packet@, now_us),
            final(self)@.valid(),
    {
        let capture_us: u64 = match packet.trace {
            Some(t) => t.capture_us,
            None => now_us,
        };
        let release_us: u64 = self.to_local_release(capture_us, now_us);
        self.video.push_with_release(packet, release_us);
    }

    /// Holds a piece of sound until it is due.
    pub fn push_audio(&mut self, frame: AudioFrame, now_us: u64)
        requires
            old(self)@.valid(),
            old(self)@.release(frame@.capture_us, now_us) <= u64::MAX,
        ensures
            final(self)@ == old(self)@.audio_pushed(frame@, now_us),
            final(self)@.valid(),
    {
        let release_us: u64 = self.to_local_release(frame.capture_us, now_us);
        self.audio.push_with_release(frame, release_us);
    }

    /// How long it is by the clock until either buffer has something due, in microseconds.
    pub fn time_to_next(&mut self) -> (r: Option<u64>)
        requires
            old(self)@.valid(),
        ensures
            exists|video_us: u64, audio_us: u64|
                r == earlier(
                    #[trigger] old(self)@.video.wait(video_us),
                    #[trigger] old(self)@.audio.wait(audio_us),
                ),
            final(self)@ == (AvModel { video: old(self)@.video.cleaned(), ..old(self)@ }),
            final(self)@.valid(),
    {
        let v: Option<u64> = self.video.time_to_next();
        let a: Option<u64> = self.audio.time_to_next();
        pick_earlier(v, a)
    }

    /// Takes what is due by the clock.
    pub fn drain_ready(&mut self) -> (r: (Vec<VideoPacket>, Vec<AudioFrame>))
        requires
            old(self)@.valid(),
        ensures
            exists|video_us: u64, audio_us: u64|
                {
                    &&& listing(
                        packet_views(r.0@),
                        #[trigger] old(self)@.video.released(video_us),
                    )
                    &&& audio_views(r.1@) == #[trigger] old(self)@.audio.released(audio_us)
                    &&& final(self)@ == (AvModel {
                        video: old(self)@.video.drained(video_us),
                        audio: old(self)@.audio.drained(audio_us),
                        ..old(self)@
                    })
                },
            final(self)@.valid(),
    {
        let ghost start = self@;
        let video: Vec<VideoPacket> = self.video.drain_ready();
        let audio: Vec<AudioFrame> = self.audio.drain_ready();
        proof {
            let v = choose|v: u64|
                {
                    &&& #[trigger] listing(packet_views(video@), start.video.released(v))
                    &&& self.video@ == start.video.drained(v)
                };
            let a = choose|a: u64|
                {
                    &&& audio_views(audio@) == #[trigger] start.audio.released(a)
                    &&& self.audio@ == start.audio.drained(a)
                };
            assert(self@ =~= (AvModel {
                video: start.video.drained(v),
                audio: start.audio.drained(a),
                ..start
            }));
            assert(listing(packet_views(video@), start.video.released(v)));
        }
        (video, audio)
    }
}

} // verus!
