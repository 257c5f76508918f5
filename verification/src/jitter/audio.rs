//! The buffer for audio.
use crate::packet::FrameTrace;
use crate::sorting::{insert_by, lemma_insert, lemma_insert_at, sorted_by};
use vstd::prelude::*;

verus! {

/// A piece of encoded sound.
#[derive(Debug)]
pub struct AudioFrame {
    /// When it was captured, by the sender's clock.
    pub capture_us: u64,
    pub payload: Vec<u8>,
}

/// What an [`AudioFrame`] holds.
#[verifier::ext_equal]
pub struct AudioFrameModel {
    pub capture_us: u64,
    pub payload: Seq<u8>,
}

impl View for AudioFrame {
    type V = AudioFrameModel;

    open spec fn view(&self) -> AudioFrameModel {
        AudioFrameModel { capture_us: self.capture_us, payload: self.payload@ }
    }
}

pub open spec fn audio_views(s: Seq<AudioFrame>) -> Seq<AudioFrameModel> {
    Seq::new(s.len(), |i: int| s[i]@)
}

/// A piece of sound and when it is due.
#[derive(Debug)]
struct AudioEntry {
    release_us: u64,
    frame: AudioFrame,
}

/// A piece of sound and when it is due.
#[verifier::ext_equal]
pub struct AudioEntryModel {
    pub release_us: u64,
    pub frame: AudioFrameModel,
}

spec fn entry_views(s: Seq<AudioEntry>) -> Seq<AudioEntryModel> {
    Seq::new(
        s.len(),
        |i: int| AudioEntryModel { release_us: s[i].release_us, frame: s[i].frame@ },
    )
}

/// A buffer for audio: each piece of sound is held until its time has come.
#[derive(Debug)]
pub struct AudioJitterBuffer {
    heap: Vec<AudioEntry>,
    target_us: u64,
}

/// What an [`AudioJitterBuffer`] holds, in the order of times; what is due at the same time
/// stands in the order of arrival.
#[verifier::ext_equal]
pub struct AudioModel {
    pub entries: Seq<AudioEntryModel>,
    pub target_us: u64,
}

impl View for AudioJitterBuffer {
    type V = AudioModel;

    closed spec fn view(&self) -> AudioModel {
        AudioModel { entries: entry_views(self.heap@), target_us: self.target_us }
    }
}

/// The order of times.
pub open spec fn by_release() -> spec_fn(AudioEntryModel) -> int {
    |e: AudioEntryModel| e.release_us as int
}

impl AudioModel {
    pub open spec fn valid(self) -> bool {
        sorted_by(self.entries, by_release())
    }

    /// With one more piece of sound.
    pub open spec fn pushed(self, frame: AudioFrameModel, release_us: u64) -> AudioModel {
        AudioModel {
            entries: insert_by(self.entries, AudioEntryModel { release_us, frame }, by_release()),
            ..self
        }
    }

    /// How many pieces of sound are due.
    pub open spec fn due(self, now_us: u64) -> nat {
        due_count(self.entries, now_us)
    }

    /// The pieces of sound that are due, in the order of their times.
    pub open spec fn released(self, now_us: u64) -> Seq<AudioFrameModel> {
        Seq::new(self.due(now_us), |i: int| self.entries[i].frame)
    }

    /// Without them.
    pub open spec fn drained(self, now_us: u64) -> AudioModel {
        AudioModel { entries: self.entries.skip(self.due(now_us) as int), ..self }
    }

    /// How long it is until the first piece of sound is due.
    pub open spec fn wait(self, now_us: u64) -> Option<u64> {
        if self.entries.len() == 0 {
            None
        } else if now_us >= self.entries[0].release_us {
            Some(0)
        } else {
            Some((self.entries[0].release_us - now_us) as u64)
        }
    }
}

/// How many of the first entries are due.
pub open spec fn due_count(entries: Seq<AudioEntryModel>, now_us: u64) -> nat
    decreases entries.len(),
{
    if entries.len() == 0 || entries[0].release_us > now_us {
        0
    } else {
        1 + due_count(entries.drop_first(), now_us)
    }
}

/// The entries that are due are exactly the first ones, as far as they are counted.
pub proof fn lemma_due_count(entries: Seq<AudioEntryModel>, now_us: u64)
    requires
        sorted_by(entries, by_release()),
    ensures
        due_count(entries, now_us) <= entries.len(),
        forall|i: int|
            0 <= i < entries.len() ==> ((#[trigger] entries[i]).release_us <= now_us) == (i
                < due_count(entries, now_us)),
    decreases entries.len(),
{
    if entries.len() == 0 {
    } else if entries[0].release_us > now_us {
        assert forall|i: int| 0 <= i < entries.len() implies (#[trigger] entries[i]).release_us
            > now_us by {
            if i > 0 {
                assert(by_release()(entries[0]) <= by_release()(entries[i]));
            }
        }
    } else {
        let rest = entries.drop_first();
        assert forall|i: int, j: int| 0 <= i < j < rest.len() implies by_release()(
            #[trigger] rest[i],
        ) <= by_release()(#[trigger] rest[j]) by {
            assert(by_release()(entries[i + 1]) <= by_release()(entries[j + 1]));
        }
        lemma_due_count(rest, now_us);
        assert forall|i: int| 0 <= i < entries.len() implies ((#[trigger] entries[i]).release_us
            <= now_us) == (i < due_count(entries, now_us)) by {
            if i > 0 {
                assert(rest[i - 1] == entries[i]);
            }
        }
    }
}

impl AudioJitterBuffer {
    /// An empty buffer.
    pub fn new(target_ms: u64) -> (r: AudioJitterBuffer)
        requires
            target_ms * 1_000 <= u64::MAX,
        ensures
            r@ == (AudioModel { entries: Seq::empty(), target_us: (target_ms * 1_000) as u64 }),
            r@.valid(),
    {
        let r = AudioJitterBuffer { heap: Vec::new(), target_us: target_ms * 1_000 };
        assert(r@.entries =~= Seq::empty());
        r
    }

    /// Takes the pieces of sound whose time has come.
    pub fn drain_ready_with(&mut self, now_us: u64) -> (r: Vec<AudioFrame>)
        requires
            old(self)@.valid(),
        ensures
            audio_views(r@) == old(self)@.released(now_us),
            final(self)@ == old(self)@.drained(now_us),
            final(self)@.valid(),
    {
        let ghost start = self@;
        let mut ready: Vec<AudioFrame> = Vec::new();
        assert(start.entries.skip(0) =~= start.entries);
        while self.heap.len() > 0 && self.heap[0].release_us <= now_us
            invariant
                start.valid(),
                ready@.len() <= start.entries.len(),
                self@ == (AudioModel { entries: start.entries.skip(ready@.len() as int), ..start }),
                audio_views(ready@) == Seq::new(ready@.len(), |i: int| start.entries[i].frame),
                ready@.len() + due_count(self@.entries, now_us) == start.due(now_us),
            decreases start.entries.len() - ready@.len(),
        {
            let ghost list = ready@;
            let ghost n = ready@.len() as int;
            let ghost now = self@.entries;
            assert(now[0] == start.entries[n]);
            let e: AudioEntry = self.heap.remove(0);
            ready.push(e.frame);
            assert(self@.entries =~= now.drop_first());
            assert(now.drop_first() =~= start.entries.skip(n + 1));
            assert(audio_views(ready@) =~= Seq::new(
                ready@.len(),
                |i: int| start.entries[i].frame,
            )) by {
                assert forall|i: int| 0 <= i < ready@.len() implies #[trigger] ready@[i]@
                    == start.entries[i].frame by {
                    if i < n {
                        assert(audio_views(list)[i] == start.entries[i].frame);
                    }
                }
            }
        }
        proof {
            lemma_due_count(start.entries, now_us);
            assert forall|i: int, j: int| 0 <= i < j < self@.entries.len() implies by_release()(
                #[trigger] self@.entries[i],
            ) <= by_release()(#[trigger] self@.entries[j]) by {
                let n = ready@.len() as int;
                assert(by_release()(start.entries[i + n]) <= by_release()(start.entries[j + n]));
            }
        }
        ready
    }

    /// Holds a piece of sound until `release_us`.
    pub fn push_with_release(&mut self, frame: AudioFrame, release_us: u64)
        requires
            old(self)@.valid(),
        ensures
            final(self)@ == old(self)@.pushed(frame@, release_us),
            final(self)@.valid(),
    {
        let ghost start = self@;
        let ghost e = AudioEntryModel { release_us, frame: frame@ };
        let mut i: usize = self.heap.len();
        while i > 0 && self.heap[i - 1].release_us > release_us
            invariant
                i <= self.heap@.len(),
                start == self@,
                forall|j: int|
                    i <= j < start.entries.len() ==> (#[trigger] start.entries[j]).release_us
                        > release_us,
            decreases i,
        {
            assert(start.entries[i - 1].release_us == self.heap@[i - 1].release_us);
            i = i - 1;
        }
        proof {
            if i > 0 {
                assert(start.entries[i - 1].release_us == self.heap@[i - 1].release_us);
            }
            lemma_insert_at(start.entries, e, by_release(), i as int);
            lemma_insert(start.entries, e, by_release());
        }
        self.heap.insert(i, AudioEntry { release_us, frame });
        assert(self@.entries =~= start.entries.insert(i as int, e));
    }

    /// Takes the pieces of sound whose time has come by the clock.
    pub fn drain_ready(&mut self) -> (r: Vec<AudioFrame>)
        requires
            old(self)@.valid(),
        ensures
            exists|now_us: u64|
                {
                    &&& audio_views(r@) == #[trigger] old(self)@.released(now_us)
                    &&& final(self)@ == old(self)@.drained(now_us)
                },
            final(self)@.valid(),
    {
        let now: u64 = FrameTrace::now_us();
        self.drain_ready_with(now)
    }

    /// How long it is from `now_us` until the next piece of sound is due, in microseconds.
    pub fn time_to_next_at(&self, now_us: u64) -> (r: Option<u64>)
        ensures
            r == self@.wait(now_us),
    {
        if self.heap.len() == 0 {
            None
        } else {
            let release: u64 = self.heap[0].release_us;
            assert(self@.entries[0].release_us == release);
            if now_us >= release {
                Some(0)
            } else {
                Some(release - now_us)
            }
        }
    }

    /// How long it is by the clock until the next piece of sound is due, in microseconds.
    pub fn time_to_next(&self) -> (r: Option<u64>)
        ensures
            exists|now_us: u64| r == #[trigger] self@.wait(now_us),
    {
        let now: u64 = FrameTrace::now_us();
        self.time_to_next_at(now)
    }

    /// When the first piece of sound is due.
    pub fn next_release_us(&self) -> (r: Option<u64>)
        ensures
            r == (if self@.entries.len() == 0 {
                None
            } else {
                Some(self@.entries[0].release_us)
            }),
    {
        if self.heap.len() == 0 {
            None
        } else {
            Some(self.heap[0].release_us)
        }
    }
}

} // verus!
