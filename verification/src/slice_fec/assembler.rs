//! The frames that are being put together, and requests for what they lack.
use crate::control::ControlPacket;
use crate::fec::group_builder::{lemma_present, since};
use crate::packet::{ChunkModel, DatagramChunk, FrameTrace, PacketModel, VideoPacket};
use crate::slice_fec::frame::{new_frame, packet_view, FrameBuilder, FrameModel};
use crate::slice_fec::slice::marks;
use crate::slice_fec::{MAX_BUFFERED_FRAMES, NACK_SUPPRESS_US, STALE_FRAME_US};
use std::collections::HashMap;
use vstd::prelude::*;

verus! {

broadcast use vstd::std_specs::hash::group_hash_axioms;

/// The frames that are being put together.
pub struct FrameAssembler {
    frames: HashMap<u64, FrameBuilder>,
    nack_sent_at: HashMap<u128, u64>,
    last_evicted_id: Option<u64>,
}

/// What a [`FrameAssembler`] holds: the frames, when each slice was last asked for, and the
/// newest frame that was given up.
#[verifier::ext_equal]
pub struct AssemblerModel {
    pub frames: Map<u64, FrameModel>,
    pub asked: Map<u128, u64>,
    pub last_evicted: Option<u64>,
}

/// The number under which requests for a slice are remembered. Slices of later frames, and
/// later slices of a frame, have larger numbers.
pub open spec fn slice_number(frame_id: u64, slice_idx: u8) -> u128 {
    (frame_id * 256 + slice_idx) as u128
}

/// The frame of a slice number.
pub open spec fn frame_of(number: u128) -> int {
    number as int / 256
}

/// The slice of a slice number.
pub open spec fn slice_of(number: u128) -> u8 {
    (number as int % 256) as u8
}

/// The newest of the frames that are given up now and the one before.
pub open spec fn is_newest(r: Option<u64>, before: Option<u64>, gone: Set<u64>) -> bool {
    &&& r is None ==> before is None && forall|id: u64| !#[trigger] gone.contains(id)
    &&& r matches Some(x) ==> {
        &&& before == Some(x) || gone.contains(x)
        &&& before matches Some(b) ==> b <= x
        &&& forall|id: u64| #[trigger] gone.contains(id) ==> id <= x
    }
}

/// The oldest frame that is waited for when a shard of `frame_id` comes.
pub open spec fn least_frame(frame_id: u64) -> int {
    if frame_id >= MAX_BUFFERED_FRAMES {
        frame_id - MAX_BUFFERED_FRAMES
    } else {
        0
    }
}

impl AssemblerModel {
    /// Each frame is valid.
    pub open spec fn valid(self) -> bool {
        &&& self.frames.dom().finite()
        &&& forall|id: u64| #[trigger] self.frames.contains_key(id) ==> self.frames[id].valid()
    }

    /// The frame after any frame has a number.
    pub open spec fn numbered(self) -> bool {
        &&& self.last_evicted != Some(u64::MAX)
        &&& !self.frames.contains_key(u64::MAX)
    }

    /// Frame `id` is given up when a shard of `frame_id` comes.
    pub open spec fn goes(self, id: u64, frame_id: u64, now_us: u64) -> bool {
        self.frames.contains_key(id) && (id < least_frame(frame_id) || since(
            now_us,
            self.frames[id].first_us,
        ) >= STALE_FRAME_US)
    }

    pub open spec fn gone(self, frame_id: u64, now_us: u64) -> Set<u64> {
        Set::new(|id: u64| self.goes(id, frame_id, now_us))
    }

    /// Without the frames that are given up, and without what is remembered of them.
    pub open spec fn evicted(self, frame_id: u64, now_us: u64) -> AssemblerModel {
        let gone = self.gone(frame_id, now_us);
        let last = choose|r: Option<u64>| is_newest(r, self.last_evicted, gone);
        AssemblerModel {
            frames: self.frames.remove_keys(gone),
            asked: match last {
                Some(id) => self.asked.remove_keys(Set::new(|n: u128| frame_of(n) <= id)),
                None => self.asked,
            },
            last_evicted: last,
        }
    }

    /// A slice is missing or has too few shards. Of a frame of which nothing has come the
    /// first slice stands for all.
    pub open spec fn lacks(self, frame_id: u64, slice_idx: u8) -> bool {
        if !self.frames.contains_key(frame_id) {
            slice_idx == 0
        } else {
            let f = self.frames[frame_id];
            &&& !f.complete()
            &&& slice_idx < f.total_slices
            &&& f.slices.contains_key(slice_idx) ==> !f.slices[slice_idx].ready()
        }
    }

    /// The shards of a slice that have come.
    pub open spec fn shards(self, frame_id: u64, slice_idx: u8) -> Seq<Option<Seq<u8>>> {
        if self.frames.contains_key(frame_id) && self.frames[frame_id].slices.contains_key(
            slice_idx,
        ) {
            self.frames[frame_id].slices[slice_idx].shards
        } else {
            Seq::empty()
        }
    }

    /// A slice was not asked for lately.
    pub open spec fn askable(self, number: u128, now_us: u64) -> bool {
        since(
            now_us,
            if self.asked.contains_key(number) {
                self.asked[number]
            } else {
                0
            },
        ) >= NACK_SUPPRESS_US
    }

    /// The oldest frame that is asked for.
    pub open spec fn least_asked(self, current: u64) -> int {
        let allowed = match self.last_evicted {
            Some(id) => id + 1,
            None => 0,
        };
        if least_frame(current) >= allowed {
            least_frame(current)
        } else {
            allowed
        }
    }

    /// A slice of a frame before the current one is to be asked for.
    pub open spec fn asks(self, current: u64, now_us: u64, number: u128) -> bool {
        &&& self.least_asked(current) <= frame_of(number) < current
        &&& self.lacks(frame_of(number) as u64, slice_of(number))
        &&& self.askable(number, now_us)
    }

    /// The first slice that is to be asked for.
    pub open spec fn first_asked(self, current: u64, now_us: u64, number: u128) -> bool {
        &&& self.asks(current, now_us, number)
        &&& forall|n: u128| n < number ==> !#[trigger] self.asks(current, now_us, n)
    }

    pub open spec fn nothing_asked(self, current: u64, now_us: u64) -> bool {
        forall|n: u128| !#[trigger] self.asks(current, now_us, n)
    }

    /// A slice has been asked for.
    pub open spec fn with_request(self, number: u128, now_us: u64) -> AssemblerModel {
        AssemblerModel { asked: self.asked.insert(number, now_us), ..self }
    }

    /// Each shard of a slice that may be asked for has a bit in the mask.
    pub open spec fn maskable(self) -> bool {
        forall|f: u64, s: u8|
            self.frames.contains_key(f) && self.frames[f].slices.contains_key(s)
                && !self.frames[f].slices[s].ready() ==> (
            #[trigger] self.frames[f].slices[s]).maskable()
    }

    /// The frame of the shard, new if there was none.
    pub open spec fn frame_for(self, c: ChunkModel, now_us: u64) -> FrameModel {
        if self.frames.contains_key(c.frame_id) {
            self.frames[c.frame_id]
        } else {
            new_frame(c.total_slices, c.flags & 1 != 0, now_us)
        }
    }

    /// After a shard was put into its frame.
    pub open spec fn inserted(self, c: ChunkModel, now_us: u64) -> (
        AssemblerModel,
        Option<PacketModel>,
    ) {
        let (frame, packet) = self.frame_for(c, now_us).accepted(c, now_us);
        (AssemblerModel { frames: self.frames.insert(c.frame_id, frame), ..self }, packet)
    }

    /// After a shard, once it is known which slice was asked for.
    pub open spec fn accepted(self, c: ChunkModel, now_us: u64, asked: Option<u128>) -> (
        AssemblerModel,
        Option<PacketModel>,
    ) {
        let kept = self.evicted(c.frame_id, now_us);
        match asked {
            Some(n) => kept.with_request(n, now_us).inserted(c, now_us),
            None => kept.inserted(c, now_us),
        }
    }

    /// The slice that is asked for when a shard comes.
    pub open spec fn request_is(self, c: ChunkModel, now_us: u64, asked: Option<u128>) -> bool {
        let kept = self.evicted(c.frame_id, now_us);
        match asked {
            Some(n) => kept.first_asked(c.frame_id, now_us, n),
            None => kept.nothing_asked(c.frame_id, now_us),
        }
    }

    /// A shard can be taken in: the frames can be numbered on, and its slice has a place for
    /// it.
    pub open spec fn takes(self, c: ChunkModel, now_us: u64) -> bool {
        let kept = self.evicted(c.frame_id, now_us);
        &&& kept.last_evicted != Some(u64::MAX)
        &&& c.k + c.m <= 255 || (kept.frames.contains_key(c.frame_id)
            && kept.frames[c.frame_id].slices.contains_key(c.slice_idx))
    }
}

impl View for FrameAssembler {
    type V = AssemblerModel;

    closed spec fn view(&self) -> AssemblerModel {
        AssemblerModel {
            frames: self.frames@.map_values(|f: FrameBuilder| f@),
            asked: self.nack_sent_at@,
            last_evicted: self.last_evicted_id,
        }
    }
}

/// A request for the slice of this number that tells which of its shards have come.
pub open spec fn requests(r: Option<ControlPacket>, number: Option<u128>, at: AssemblerModel) -> bool {
    match number {
        Some(n) => match r {
            Some(ControlPacket::Nack { frame_id, slice_idx, group_idx, received_mask }) => {
                &&& frame_id == frame_of(n)
                &&& slice_idx == slice_of(n)
                &&& group_idx == 0
                &&& marks(received_mask, at.shards(frame_id, slice_idx))
            },
            _ => false,
        },
        None => r is None,
    }
}

fn number_of(frame_id: u64, slice_idx: u8) -> (r: u128)
    ensures
        r == slice_number(frame_id, slice_idx),
        frame_of(r) == frame_id,
        slice_of(r) == slice_idx,
{
    frame_id as u128 * 256 + slice_idx as u128
}

impl FrameAssembler {
    /// Nothing has come.
    pub fn new() -> (r: FrameAssembler)
        ensures
            r@.valid(),
            r@.maskable(),
            r@.numbered(),
            r@ == (AssemblerModel {
                frames: Map::empty(),
                asked: Map::empty(),
                last_evicted: None,
            }),
    {
        let r = FrameAssembler {
            frames: HashMap::new(),
            nack_sent_at: HashMap::new(),
            last_evicted_id: None,
        };
        assert(r@.frames =~= Map::<u64, FrameModel>::empty());
        r
    }

    /// The numbers of the frames.
    fn ids(&self) -> (r: Vec<u64>)
        ensures
            forall|x: u64| #[trigger] self@.frames.contains_key(x) <==> r@.contains(x),
    {
        let mut out: Vec<u64> = Vec::new();
        for id in it: self.frames.keys()
            invariant
                it.seq().unref().to_set() == self.frames@.dom(),
                out@ == it.seq().unref().take(it.index()),
                forall|x: u64| #[trigger]
                    self.frames@.dom().contains(x) ==> out@.contains(x) || exists|i: int|
                        it.index() <= i < it.seq().len() && #[trigger] it.seq().unref()[i] == x,
                forall|x: u64| #[trigger] out@.contains(x) ==> self.frames@.dom().contains(x),
        {
            let ghost before = out@;
            let ghost all = it.seq().unref();
            assert(all.to_set().contains(all[it.index()]));
            out.push(*id);
            assert(out@ =~= all.take(it.index() + 1));
            assert forall|x: u64| #[trigger] self.frames@.dom().contains(x) implies out@.contains(x)
                || exists|i: int| it.index() + 1 <= i < it.seq().len() && #[trigger] all[i] == x by {
                if before.contains(x) {
                    let i = choose|i: int| 0 <= i < before.len() && before[i] == x;
                    assert(out@[i] == x);
                } else {
                    let i = choose|i: int|
                        it.index() <= i < it.seq().len() && #[trigger] all[i] == x;
                    if i == it.index() {
                        assert(out@[before.len() as int] == x);
                    }
                }
            }
            assert forall|x: u64| #[trigger] out@.contains(x) implies self.frames@.dom().contains(
                x,
            ) by {
                let i = choose|i: int| 0 <= i < out@.len() && out@[i] == x;
                if i < before.len() {
                    assert(before[i] == x);
                }
            }
        }
        assert(self@.frames.dom() =~= self.frames@.dom());
        out
    }

    /// The numbers under which requests are remembered.
    fn numbers(&self) -> (r: Vec<u128>)
        ensures
            forall|x: u128| #[trigger] self@.asked.contains_key(x) <==> r@.contains(x),
    {
        let mut out: Vec<u128> = Vec::new();
        for n in it: self.nack_sent_at.keys()
            invariant
                it.seq().unref().to_set() == self.nack_sent_at@.dom(),
                out@ == it.seq().unref().take(it.index()),
                forall|x: u128| #[trigger]
                    self.nack_sent_at@.dom().contains(x) ==> out@.contains(x) || exists|i: int|
                        it.index() <= i < it.seq().len() && #[trigger] it.seq().unref()[i] == x,
                forall|x: u128| #[trigger]
                    out@.contains(x) ==> self.nack_sent_at@.dom().contains(x),
        {
            let ghost before = out@;
            let ghost all = it.seq().unref();
            assert(all.to_set().contains(all[it.index()]));
            out.push(*n);
            assert(out@ =~= all.take(it.index() + 1));
            assert forall|x: u128| #[trigger]
                self.nack_sent_at@.dom().contains(x) implies out@.contains(x) || exists|i: int|
                it.index() + 1 <= i < it.seq().len() && #[trigger] all[i] == x by {
                if before.contains(x) {
                    let i = choose|i: int| 0 <= i < before.len() && before[i] == x;
                    assert(out@[i] == x);
                } else {
                    let i = choose|i: int|
                        it.index() <= i < it.seq().len() && #[trigger] all[i] == x;
                    if i == it.index() {
                        assert(out@[before.len() as int] == x);
                    }
                }
            }
            assert forall|x: u128| #[trigger]
                out@.contains(x) implies self.nack_sent_at@.dom().contains(x) by {
                let i = choose|i: int| 0 <= i < out@.len() && out@[i] == x;
                if i < before.len() {
                    assert(before[i] == x);
                }
            }
        }
        out
    }

    /// Gives frames up that are too old.
    fn drop_frames(&mut self, frame_id: u64, now_us: u64)
        requires
            old(self)@.valid(),
        ensures
            final(self)@.valid(),
            final(self)@.frames == old(self)@.evicted(frame_id, now_us).frames,
            final(self)@.asked == old(self)@.asked,
            final(self)@.last_evicted == old(self)@.evicted(frame_id, now_us).last_evicted,
    {
        let ghost start = self@;
        let ghost gone = start.gone(frame_id, now_us);
        let least: u64 = frame_id.saturating_sub(MAX_BUFFERED_FRAMES);
        let ids: Vec<u64> = self.ids();
        let mut last: Option<u64> = self.last_evicted_id;
        let ghost mut dropped: Set<u64> = Set::empty();
        let mut i: usize = 0;
        assert(start.frames.remove_keys(dropped) =~= start.frames);
        while i < ids.len()
            invariant
                i <= ids@.len(),
                start == old(self)@,
                self@.valid(),
                least == least_frame(frame_id),
                gone == start.gone(frame_id, now_us),
                self@.frames == start.frames.remove_keys(dropped),
                self@.asked == start.asked,
                is_newest(last, start.last_evicted, dropped),
                forall|x: u64| #[trigger] start.frames.contains_key(x) <==> ids@.contains(x),
                forall|x: u64| #[trigger]
                    dropped.contains(x) <==> gone.contains(x) && exists|j: int|
                        0 <= j < i && #[trigger] ids@[j] == x,
            decreases ids@.len() - i,
        {
            let id: u64 = ids[i];
            let ghost before = dropped;
            let ghost now = self@;
            assert(ids@.contains(id));
            let goes: bool = match self.frames.get(&id) {
                Some(f) => {
                    assert(now.frames.contains_key(id));
                    id < least || now_us.saturating_sub(f.first_us()) >= STALE_FRAME_US
                },
                None => {
                    assert(!now.frames.contains_key(id));
                    false
                },
            };
            proof {
                if now.frames.contains_key(id) {
                    assert(goes == gone.contains(id));
                } else {
                    assert(before.contains(id));
                }
            }
            if goes {
                self.frames.remove(&id);
                last = match last {
                    Some(b) => if b >= id {
                        Some(b)
                    } else {
                        Some(id)
                    },
                    None => Some(id),
                };
                proof {
                    dropped = dropped.insert(id);
                    assert(self@.frames =~= now.frames.remove(id));
                    assert(self@.frames =~= start.frames.remove_keys(dropped));
                }
            }
            i = i + 1;
            proof {
                assert forall|x: u64| #[trigger] dropped.contains(x) <==> gone.contains(x)
                    && exists|j: int| 0 <= j < i && #[trigger] ids@[j] == x by {
                    if x == id {
                        assert(ids@[i - 1] == x);
                    }
                    if before.contains(x) {
                        let j = choose|j: int| 0 <= j < i - 1 && #[trigger] ids@[j] == x;
                        assert(ids@[j] == x);
                    }
                }
            }
        }
        self.last_evicted_id = last;
        proof {
            assert(dropped =~= gone) by {
                assert forall|x: u64| gone.contains(x) implies dropped.contains(x) by {
                    assert(start.frames.contains_key(x));
                    let j = choose|j: int| 0 <= j < ids@.len() && ids@[j] == x;
                    assert(ids@[j] == x);
                }
            }
            let chosen = choose|r: Option<u64>| is_newest(r, start.last_evicted, gone);
            assert(is_newest(last, start.last_evicted, gone));
            assert(chosen == last);
        }
    }

    /// Forgets requests for frames up to this one.
    fn forget(&mut self, cutoff: u64)
        requires
            old(self)@.valid(),
        ensures
            final(self)@ == (AssemblerModel {
                asked: old(self)@.asked.remove_keys(Set::new(|n: u128| frame_of(n) <= cutoff)),
                ..old(self)@
            }),
    {
        let ghost start = self@;
        let ghost old_numbers = Set::new(|n: u128| frame_of(n) <= cutoff);
        let numbers: Vec<u128> = self.numbers();
        let ghost mut dropped: Set<u128> = Set::empty();
        let mut i: usize = 0;
        assert(start.asked.remove_keys(dropped) =~= start.asked);
        while i < numbers.len()
            invariant
                i <= numbers@.len(),
                start == old(self)@,
                old_numbers == Set::new(|n: u128| frame_of(n) <= cutoff),
                self@.frames == start.frames,
                self@.last_evicted == start.last_evicted,
                self@.asked == start.asked.remove_keys(dropped),
                forall|x: u128| #[trigger]
                    dropped.contains(x) <==> old_numbers.contains(x) && exists|j: int|
                        0 <= j < i && #[trigger] numbers@[j] == x,
            decreases numbers@.len() - i,
        {
            let n: u128 = numbers[i];
            let ghost before = dropped;
            let ghost now = self@;
            if n / 256 <= cutoff as u128 {
                self.nack_sent_at.remove(&n);
                proof {
                    dropped = dropped.insert(n);
                    assert(self@.asked =~= now.asked.remove(n));
                    assert(self@.asked =~= start.asked.remove_keys(dropped));
                }
            }
            i = i + 1;
            proof {
                assert forall|x: u128| #[trigger] dropped.contains(x) <==> old_numbers.contains(x)
                    && exists|j: int| 0 <= j < i && #[trigger] numbers@[j] == x by {
                    if x == n {
                        assert(numbers@[i - 1] == x);
                    }
                    if before.contains(x) {
                        let j = choose|j: int| 0 <= j < i - 1 && #[trigger] numbers@[j] == x;
                        assert(numbers@[j] == x);
                    }
                }
            }
        }
        proof {
            assert(start.asked.remove_keys(dropped) =~= start.asked.remove_keys(old_numbers)) by {
                assert forall|x: u128| start.asked.contains_key(x) implies dropped.contains(x)
                    == old_numbers.contains(x) by {
                    assert(numbers@.contains(x));
                    let j = choose|j: int| 0 <= j < numbers@.len() && numbers@[j] == x;
                    assert(numbers@[j] == x);
                }
            }
        }
    }

    /// Gives frames up that are too old and forgets what is remembered of them.
    fn evict(&mut self, frame_id: u64, now_us: u64)
        requires
            old(self)@.valid(),
        ensures
            final(self)@ == old(self)@.evicted(frame_id, now_us),
            final(self)@.valid(),
    {
        self.drop_frames(frame_id, now_us);
        match self.last_evicted_id {
            Some(id) => {
                self.forget(id);
            },
            None => {},
        }
        assert(self@ =~= old(self)@.evicted(frame_id, now_us));
    }

    /// Asks for a slice unless that was just done.
    fn ask(&mut self, frame_id: u64, slice_idx: u8, now_us: u64) -> (r: bool)
        requires
            old(self)@.valid(),
        ensures
            r == old(self)@.askable(slice_number(frame_id, slice_idx), now_us),
            final(self)@ == (if r {
                old(self)@.with_request(slice_number(frame_id, slice_idx), now_us)
            } else {
                old(self)@
            }),
    {
        let number: u128 = number_of(frame_id, slice_idx);
        let last: u64 = match self.nack_sent_at.get(&number) {
            Some(t) => *t,
            None => 0,
        };
        if now_us.saturating_sub(last) >= NACK_SUPPRESS_US {
            self.nack_sent_at.insert(number, now_us);
            true
        } else {
            false
        }
    }

    /// What the slice lacks: `None` when nothing, else a mask of the shards that have come.
    fn lack(&self, frame_id: u64, slice_idx: u8) -> (r: Option<u64>)
        requires
            self@.valid(),
            self@.maskable(),
        ensures
            r is Some <==> self@.lacks(frame_id, slice_idx),
            r matches Some(mask) ==> marks(mask, self@.shards(frame_id, slice_idx)),
    {
        proof {
            assert forall|j: int| 0 <= j < 64 implies !#[trigger] crate::fec::group_builder::mask_bit(
                0,
                j,
            ) by {
                let b = j as u64;
                assert((0u64 >> b) & 1 == 0) by (bit_vector);
            }
        }
        match self.frames.get(&frame_id) {
            None => {
                assert(!self@.frames.contains_key(frame_id));
                if slice_idx == 0 {
                    Some(0)
                } else {
                    None
                }
            },
            Some(f) => {
                assert(self@.frames.contains_key(frame_id));
                if f.is_complete() || slice_idx >= f.total_slices() {
                    return None;
                }
                match f.slice(slice_idx) {
                    Some(s) => if s.is_ready() {
                        None
                    } else {
                        assert(self@.frames[frame_id].slices[slice_idx].maskable());
                        Some(s.received_mask())
                    },
                    None => Some(0),
                }
            },
        }
    }

    /// How many slices of a frame may be asked for.
    fn slices_of(&self, frame_id: u64) -> (r: u16)
        ensures
            1 <= r <= 256,
            forall|s: u8| #[trigger] self@.lacks(frame_id, s) ==> s < r,
    {
        match self.frames.get(&frame_id) {
            Some(f) => if f.total_slices() >= 1 {
                f.total_slices() as u16
            } else {
                1
            },
            None => 1,
        }
    }

    /// Asks for the first slice of an earlier frame that is missing or has too few shards,
    /// unless that was just done.
    fn maybe_generate_nack(&mut self, current: u64, now_us: u64) -> (r: Option<ControlPacket>)
        requires
            old(self)@.valid(),
            old(self)@.maskable(),
            old(self)@.last_evicted != Some(u64::MAX),
        ensures
            match r {
                Some(_) => exists|n: u128| #[trigger]
                    old(self)@.first_asked(current, now_us, n) && requests(
                        r,
                        Some(n),
                        old(self)@,
                    ) && final(self)@ == old(self)@.with_request(n, now_us),
                None => old(self)@.nothing_asked(current, now_us) && final(self)@ == old(self)@,
            },
    {
        let ghost start = self@;
        let allowed: u64 = match self.last_evicted_id {
            Some(id) => id + 1,
            None => 0,
        };
        let least: u64 = current.saturating_sub(MAX_BUFFERED_FRAMES);
        let from: u64 = if least >= allowed {
            least
        } else {
            allowed
        };
        let mut f: u64 = from;
        while f < current
            invariant
                start == old(self)@,
                self@ == start,
                start.valid(),
                start.maskable(),
                from == start.least_asked(current),
                from <= f,
                f <= current || f == from,
                forall|n: u128| frame_of(n) < f ==> !#[trigger] start.asks(current, now_us, n),
            decreases current - f,
        {
            let total: u16 = self.slices_of(f);
            let mut s: u16 = 0;
            while s < total
                invariant
                    start == old(self)@,
                    self@ == start,
                    start.valid(),
                    start.maskable(),
                    from == start.least_asked(current),
                    from <= f < current,
                    s <= total <= 256,
                    forall|n: u128|
                        frame_of(n) < f || (frame_of(n) == f && slice_of(n) < s)
                            ==> !#[trigger] start.asks(current, now_us, n),
                decreases total - s,
            {
                let slice_idx: u8 = s as u8;
                let ghost number = slice_number(f, slice_idx);
                match self.lack(f, slice_idx) {
                    Some(mask) => {
                        if self.ask(f, slice_idx, now_us) {
                            proof {
                                assert(frame_of(number) == f && slice_of(number) == slice_idx);
                                assert(start.asks(current, now_us, number));
                                assert forall|n: u128| n < number implies !#[trigger] start.asks(
                                    current,
                                    now_us,
                                    n,
                                ) by {
                                    assert(frame_of(n) < f || (frame_of(n) == f && slice_of(n)
                                        < s));
                                }
                                assert(start.first_asked(current, now_us, number));
                            }
                            let r: Option<ControlPacket> = Some(
                                ControlPacket::Nack {
                                    frame_id: f,
                                    slice_idx,
                                    group_idx: 0,
                                    received_mask: mask,
                                },
                            );
                            assert(requests(r, Some(number), start));
                            return r;
                        }
                    },
                    None => {},
                }
                proof {
                    assert forall|n: u128|
                        frame_of(n) < f || (frame_of(n) == f && slice_of(n) < s
                            + 1) implies !#[trigger] start.asks(current, now_us, n) by {
                        if frame_of(n) == f && slice_of(n) == s {
                            assert(n == slice_number(f, slice_idx));
                        }
                    }
                }
                s = s + 1;
            }
            proof {
                assert forall|n: u128| frame_of(n) < f + 1 implies !#[trigger] start.asks(
                    current,
                    now_us,
                    n,
                ) by {
                    if frame_of(n) == f && slice_of(n) >= total {
                        assert(!start.lacks(f, slice_of(n)));
                    }
                }
            }
            f = f + 1;
        }
        assert(start.nothing_asked(current, now_us)) by {
            assert forall|n: u128| !#[trigger] start.asks(current, now_us, n) by {
                assert(frame_of(n) < f || frame_of(n) >= current);
            }
        }
        None
    }

    /// Puts a shard into its frame.
    fn put(&mut self, chunk: &DatagramChunk, now_us: u64) -> (r: Option<VideoPacket>)
        requires
            old(self)@.valid(),
            chunk.k + chunk.m <= 255 || (old(self)@.frames.contains_key(chunk.frame_id)
                && old(self)@.frames[chunk.frame_id].slices.contains_key(chunk.slice_idx)),
        ensures
            (final(self)@, packet_view(r)) == old(self)@.inserted(chunk@, now_us),
            final(self)@.valid(),
    {
        let ghost before = self@;
        let mut f: FrameBuilder = match self.frames.remove(&chunk.frame_id) {
            Some(f) => f,
            None => FrameBuilder::new(chunk.total_slices, chunk.flags & 1 != 0, now_us),
        };
        assert(f@ == before.frame_for(chunk@, now_us));
        let r: Option<VideoPacket> = f.insert_chunk(chunk, now_us);
        self.frames.insert(chunk.frame_id, f);
        assert(self@ =~= before.inserted(chunk@, now_us).0);
        r
    }

    /// Takes a shard in at `now_us`. Old frames are given up first. Returns the frame if it
    /// has just become whole, and a request for a slice of an earlier frame, if one is due.
    pub fn insert_at(&mut self, chunk: &DatagramChunk, now_us: u64) -> (r: (
        Option<VideoPacket>,
        Option<ControlPacket>,
    ))
        requires
            old(self)@.valid(),
            old(self)@.maskable(),
            old(self)@.takes(chunk@, now_us),
        ensures
            final(self)@.valid(),
            chunk.shard_idx < 64 ==> final(self)@.maskable(),
            old(self)@.numbered() && chunk.frame_id < u64::MAX ==> final(self)@.numbered(),
            exists|asked: Option<u128>| #[trigger]
                old(self)@.request_is(chunk@, now_us, asked) && requests(
                    r.1,
                    asked,
                    old(self)@.evicted(chunk.frame_id, now_us),
                ) && (final(self)@, packet_view(r.0)) == old(self)@.accepted(
                    chunk@,
                    now_us,
                    asked,
                ),
    {
        let ghost start = self@;
        self.evict(chunk.frame_id, now_us);
        let ghost kept = self@;
        assert(kept.maskable()) by {
            assert forall|f: u64, s: u8|
                kept.frames.contains_key(f) && kept.frames[f].slices.contains_key(s)
                    && !kept.frames[f].slices[s].ready() implies (
            #[trigger] kept.frames[f].slices[s]).maskable() by {
                assert(start.frames.contains_key(f) && start.frames[f] == kept.frames[f]);
                assert(start.frames[f].slices[s].maskable());
            }
        }
        let nack: Option<ControlPacket> = self.maybe_generate_nack(chunk.frame_id, now_us);
        let ghost asked: Option<u128> = match nack {
            Some(_) => Some(
                choose|n: u128| #[trigger]
                    kept.first_asked(chunk.frame_id, now_us, n) && requests(nack, Some(n), kept)
                        && self@ == kept.with_request(n, now_us),
            ),
            None => None,
        };
        let ghost mid = self@;
        let assembled: Option<VideoPacket> = self.put(chunk, now_us);
        proof {
            assert(start.request_is(chunk@, now_us, asked));
            lemma_newest(start, chunk.frame_id, now_us);
            if chunk.shard_idx < 64 {
                lemma_still_maskable(mid, chunk@, now_us);
            }
        }
        (assembled, nack)
    }

    /// Takes a shard in now.
    pub fn insert(&mut self, chunk: &DatagramChunk) -> (r: (
        Option<VideoPacket>,
        Option<ControlPacket>,
    ))
        requires
            old(self)@.valid(),
            old(self)@.maskable(),
            forall|now_us: u64| #[trigger] old(self)@.takes(chunk@, now_us),
        ensures
            final(self)@.valid(),
            chunk.shard_idx < 64 ==> final(self)@.maskable(),
            old(self)@.numbered() && chunk.frame_id < u64::MAX ==> final(self)@.numbered(),
            exists|now_us: u64, asked: Option<u128>| #[trigger]
                old(self)@.request_is(chunk@, now_us, asked) && requests(
                    r.1,
                    asked,
                    old(self)@.evicted(chunk.frame_id, now_us),
                ) && (final(self)@, packet_view(r.0)) == old(self)@.accepted(
                    chunk@,
                    now_us,
                    asked,
                ),
    {
        let now: u64 = FrameTrace::now_us();
        assert(self@.takes(chunk@, now));
        self.insert_at(chunk, now)
    }
}

/// Among the frames that go, and the one that went before, there is a newest one.
proof fn lemma_has_newest(before: Option<u64>, gone: Set<u64>)
    requires
        gone.finite(),
    ensures
        exists|r: Option<u64>| is_newest(r, before, gone),
    decreases gone.len(),
{
    if gone.len() == 0 {
        vstd::set_lib::lemma_set_empty_equivalency_len(gone);
        assert(is_newest(before, before, gone));
    } else {
        let id = gone.choose();
        vstd::set_lib::lemma_set_empty_equivalency_len(gone);
        let rest = gone.remove(id);
        lemma_has_newest(before, rest);
        let r = choose|r: Option<u64>| is_newest(r, before, rest);
        let all = match r {
            Some(x) => if x >= id {
                Some(x)
            } else {
                Some(id)
            },
            None => Some(id),
        };
        assert forall|x: u64| #[trigger] gone.contains(x) implies x <= all->0 by {
            if x != id {
                assert(rest.contains(x));
            }
        }
        assert(is_newest(all, before, gone));
    }
}

/// The newest frame that was given up is one that was there or that was known.
pub proof fn lemma_newest(a: AssemblerModel, frame_id: u64, now_us: u64)
    requires
        a.valid(),
    ensures
        is_newest(
            a.evicted(frame_id, now_us).last_evicted,
            a.last_evicted,
            a.gone(frame_id, now_us),
        ),
{
    let gone = a.gone(frame_id, now_us);
    assert(gone.subset_of(a.frames.dom()));
    vstd::set_lib::lemma_len_subset(gone, a.frames.dom());
    lemma_has_newest(a.last_evicted, gone);
}

/// While frames can be numbered on, a shard of a slice for which there is a code is taken in
/// at any time.
pub proof fn law_shards_are_taken_in(a: AssemblerModel, c: ChunkModel, now_us: u64)
    requires
        a.valid(),
        a.numbered(),
        c.k + c.m <= 255,
    ensures
        a.takes(c, now_us),
{
    lemma_newest(a, c.frame_id, now_us);
}

/// A frame keeps its slices maskable when a shard comes that has a bit.
proof fn lemma_frame_maskable(f: FrameModel, c: ChunkModel, now_us: u64)
    requires
        f.valid(),
        f.slices.contains_key(c.slice_idx) || c.k + c.m <= 255,
        c.shard_idx < 64,
        forall|s: u8|
            f.slices.contains_key(s) && !f.slices[s].ready() ==> (
            #[trigger] f.slices[s]).maskable(),
    ensures
        forall|s: u8|
            f.accepted(c, now_us).0.slices.contains_key(s) && !f.accepted(
                c,
                now_us,
            ).0.slices[s].ready() ==> (#[trigger] f.accepted(c, now_us).0.slices[s]).maskable(),
{
    let with = f.inserted(c);
    let a = f.accepted(c, now_us).0;
    let open = f.opened(c);
    if with.complete() && !f.handed_out {
        let none = crate::slice_fec::frame::Assembly { payload: Seq::empty(), trace: None };
        lemma_assembled_ready(with, 0, none, now_us);
        assert forall|s: u8| a.slices.contains_key(s) implies (#[trigger] a.slices[s]).ready() by {
            assert(with.slices.contains_key(s));
        }
    } else if !with.complete() {
        assert forall|s: u8| a.slices.contains_key(s) && !a.slices[s].ready() implies (
        #[trigger] a.slices[s]).maskable() by {
            if s == c.slice_idx {
                let old_slice = open.slices[s];
                if f.slices.contains_key(s) {
                    lemma_present(old_slice.shards);
                    assert(!old_slice.ready());
                    assert(f.slices[s].maskable());
                }
                assert(old_slice.maskable());
                assert forall|i: int| 64 <= i < a.slices[s].shards.len() implies (
                #[trigger] a.slices[s].shards[i]) is None by {
                    assert(old_slice.shards[i] is None);
                }
            } else {
                assert(f.slices[s].maskable());
            }
        }
    }
}

/// Putting a frame together changes neither which slices there are nor what is ready.
proof fn lemma_assembled_ready(
    f: FrameModel,
    i: nat,
    got: crate::slice_fec::frame::Assembly,
    now_us: u64,
)
    ensures
        forall|s: u8| #[trigger]
            f.assembled_from(i, got, now_us).0.slices.contains_key(s)
                == f.slices.contains_key(s),
        forall|s: u8| #[trigger]
            f.slices.contains_key(s) ==> f.assembled_from(i, got, now_us).0.slices[s].ready()
                == f.slices[s].ready(),
    decreases f.total_slices - i,
{
    if i < f.total_slices && f.slices.contains_key(i as u8) {
        let next = f.filled_in(i as u8);
        match f.slices[i as u8].recovered() {
            Some(bytes) => match f.with_slice(got, i, bytes, now_us) {
                Some(more) => {
                    lemma_assembled_ready(next, i + 1, more, now_us);
                    assert forall|s: u8| #[trigger] f.slices.contains_key(s) implies f.assembled_from(
                        i,
                        got,
                        now_us,
                    ).0.slices[s].ready() == f.slices[s].ready() by {
                        assert(next.slices.contains_key(s));
                    }
                    assert forall|s: u8| #[trigger]
                        f.assembled_from(i, got, now_us).0.slices.contains_key(s)
                            == f.slices.contains_key(s) by {
                        assert(next.assembled_from(i + 1, more, now_us).0.slices.contains_key(s)
                            == next.slices.contains_key(s));
                    }
                },
                None => {},
            },
            None => {},
        }
    }
}

proof fn lemma_still_maskable(a: AssemblerModel, c: ChunkModel, now_us: u64)
    requires
        a.valid(),
        a.maskable(),
        c.shard_idx < 64,
        c.k + c.m <= 255 || (a.frames.contains_key(c.frame_id)
            && a.frames[c.frame_id].slices.contains_key(c.slice_idx)),
    ensures
        a.inserted(c, now_us).0.maskable(),
{
    let f = a.frame_for(c, now_us);
    let b = a.inserted(c, now_us).0;
    assert forall|s: u8| f.slices.contains_key(s) && !f.slices[s].ready() implies (
    #[trigger] f.slices[s]).maskable() by {
        if a.frames.contains_key(c.frame_id) {
            assert(a.frames[c.frame_id].slices[s].maskable());
        }
    }
    assert(f.valid());
    lemma_frame_maskable(f, c, now_us);
    assert forall|g: u64, s: u8|
        b.frames.contains_key(g) && b.frames[g].slices.contains_key(s)
            && !b.frames[g].slices[s].ready() implies (
    #[trigger] b.frames[g].slices[s]).maskable() by {
        if g == c.frame_id {
            assert(b.frames[g] == f.accepted(c, now_us).0);
        } else {
            assert(a.frames[g].slices[s].maskable());
        }
    }
}

} // verus!
