//! The buffer for video.
use crate::jitter::{INTER_PACKET_GAP_US, JITTER_MAX_FRAMES};
use crate::packet::{FrameTrace, PacketModel, VideoPacket};
use std::collections::HashMap;
use vstd::prelude::*;

verus! {

broadcast use vstd::std_specs::hash::group_hash_axioms;

/// When a slice is due.
#[derive(Debug, Clone, Copy, PartialEq, Eq, Structural)]
pub struct JitterEntry {
    pub release_us: u64,
    pub frame_id: u64,
    pub slice_idx: u8,
}

/// The number under which a slice is held: first by frame, then by slice.
pub open spec fn slice_key(frame_id: u64, slice_idx: u8) -> u128 {
    (frame_id * 256 + slice_idx) as u128
}

/// The number under which a slice is held.
pub open spec fn packet_key(p: PacketModel) -> u128 {
    slice_key(p.frame_id, p.slice_idx)
}

/// The number under which the slice of an entry is held.
pub open spec fn entry_key(e: JitterEntry) -> u128 {
    slice_key(e.frame_id, e.slice_idx)
}

fn make_key(frame_id: u64, slice_idx: u8) -> (r: u128)
    ensures
        r == slice_key(frame_id, slice_idx),
{
    frame_id as u128 * 256 + slice_idx as u128
}

/// Slices are held under the same number only if they are the same.
pub proof fn law_slices_have_their_own_key(f: u64, s: u8, g: u64, t: u8)
    requires
        slice_key(f, s) == slice_key(g, t),
    ensures
        f == g,
        s == t,
{
}

/// The slices of a map in the order of frames and slices.
pub open spec fn listing(list: Seq<PacketModel>, packets: Map<u128, PacketModel>) -> bool {
    &&& forall|i: int, j: int|
        0 <= i < j < list.len() ==> packet_key(#[trigger] list[i]) < packet_key(#[trigger] list[j])
    &&& forall|i: int|
        0 <= i < list.len() ==> packets.contains_key(packet_key(#[trigger] list[i]))
            && packets[packet_key(list[i])] == list[i]
    &&& forall|k: u128| #[trigger]
        packets.contains_key(k) ==> exists|i: int|
            0 <= i < list.len() && packet_key(#[trigger] list[i]) == k
}

pub open spec fn packet_views(s: Seq<VideoPacket>) -> Seq<PacketModel> {
    Seq::new(s.len(), |i: int| s[i]@)
}

/// The smallest key.
pub open spec fn is_oldest(packets: Map<u128, PacketModel>, k: u128) -> bool {
    &&& packets.contains_key(k)
    &&& forall|other: u128| #[trigger] packets.contains_key(other) ==> k <= other
}

/// The smallest key.
pub open spec fn oldest(packets: Map<u128, PacketModel>) -> u128 {
    choose|k: u128| is_oldest(packets, k)
}

/// A buffer for video: each slice is held until its time has come.
pub struct JitterBuffer {
    heap: Vec<JitterEntry>,
    packets: HashMap<u128, VideoPacket>,
    target_us: u64,
    last_scheduled_us: u64,
}

/// What a [`JitterBuffer`] holds: the entries in the order of their times, of which some may
/// be for slices that are gone, and the slices.
#[verifier::ext_equal]
pub struct JitterModel {
    pub entries: Seq<JitterEntry>,
    pub packets: Map<u128, PacketModel>,
    pub target_us: u64,
    pub last_scheduled_us: u64,
}

impl View for JitterBuffer {
    type V = JitterModel;

    closed spec fn view(&self) -> JitterModel {
        JitterModel {
            entries: self.heap@,
            packets: self.packets@.map_values(|p: VideoPacket| p@),
            target_us: self.target_us,
            last_scheduled_us: self.last_scheduled_us,
        }
    }
}

/// A buffer into which nothing has come.
pub open spec fn empty_buffer(target_us: u64) -> JitterModel {
    JitterModel {
        entries: Seq::empty(),
        packets: Map::empty(),
        target_us,
        last_scheduled_us: 0,
    }
}

impl JitterModel {
    /// Times lie apart, each slice is held under its own number and has an entry, and there
    /// are not too many slices.
    pub open spec fn valid(self) -> bool {
        &&& forall|i: int, j: int|
            0 <= i < j < self.entries.len() ==> (#[trigger] self.entries[i]).release_us
                + INTER_PACKET_GAP_US <= (#[trigger] self.entries[j]).release_us
        &&& forall|i: int|
            0 <= i < self.entries.len() ==> (#[trigger] self.entries[i]).release_us
                <= self.last_scheduled_us
        &&& forall|k: u128| #[trigger]
            self.packets.contains_key(k) ==> packet_key(self.packets[k]) == k && self.scheduled(k)
        &&& self.packets.dom().finite()
        &&& self.packets.len() <= JITTER_MAX_FRAMES
    }

    /// There is an entry for this slice.
    pub open spec fn scheduled(self, k: u128) -> bool {
        exists|i: int| 0 <= i < self.entries.len() && entry_key(#[trigger] self.entries[i]) == k
    }

    /// There is an entry for this slice whose time has come.
    pub open spec fn due(self, k: u128, now_us: u64) -> bool {
        exists|i: int|
            0 <= i < self.entries.len() && entry_key(#[trigger] self.entries[i]) == k
                && self.entries[i].release_us <= now_us
    }

    /// The slices whose time has come.
    pub open spec fn released(self, now_us: u64) -> Map<u128, PacketModel> {
        self.packets.restrict(Set::new(|k: u128| self.due(k, now_us)))
    }

    /// What is left when the slices whose time has come are taken.
    pub open spec fn drained(self, now_us: u64) -> JitterModel {
        JitterModel {
            entries: self.entries.filter(|e: JitterEntry| e.release_us > now_us),
            packets: self.packets.remove_keys(Set::new(|k: u128| self.due(k, now_us))),
            ..self
        }
    }

    /// When a slice is released that should be at `release_us`: not before the last one.
    pub open spec fn slot(self, release_us: u64) -> int {
        if release_us >= self.last_scheduled_us + INTER_PACKET_GAP_US {
            release_us as int
        } else {
            self.last_scheduled_us + INTER_PACKET_GAP_US
        }
    }

    /// With one more slice. If there are too many the oldest one goes.
    pub open spec fn pushed(self, p: PacketModel, release_us: u64) -> JitterModel {
        let at = self.slot(release_us) as u64;
        let more = self.packets.insert(packet_key(p), p);
        JitterModel {
            entries: self.entries.push(
                JitterEntry { release_us: at, frame_id: p.frame_id, slice_idx: p.slice_idx },
            ),
            packets: if more.len() > JITTER_MAX_FRAMES {
                more.remove(oldest(more))
            } else {
                more
            },
            last_scheduled_us: at,
            ..self
        }
    }

    /// The slice of the entry is still there.
    pub open spec fn live(self, i: int) -> bool {
        self.packets.contains_key(entry_key(self.entries[i]))
    }

    /// The entries before the first one whose slice is still there.
    pub open spec fn stale_prefix(self) -> nat
        decreases self.entries.len(),
    {
        if self.entries.len() == 0 || self.live(0) {
            0
        } else {
            1 + self.without_first().stale_prefix()
        }
    }

    pub open spec fn without_first(self) -> JitterModel {
        JitterModel { entries: self.entries.drop_first(), ..self }
    }

    /// Without the entries before the first one whose slice is still there.
    pub open spec fn cleaned(self) -> JitterModel {
        JitterModel { entries: self.entries.skip(self.stale_prefix() as int), ..self }
    }

    /// How long it is until the first slice is due.
    pub open spec fn wait(self, now_us: u64) -> Option<u64> {
        let c = self.cleaned();
        if c.entries.len() == 0 {
            None
        } else if now_us >= c.entries[0].release_us {
            Some(0)
        } else {
            Some((c.entries[0].release_us - now_us) as u64)
        }
    }
}

/// In a buffer whose entries are in order, those that are due are the first ones.
proof fn lemma_due_prefix(m: JitterModel, now_us: u64, n: nat)
    requires
        m.valid(),
        n <= m.entries.len(),
        forall|i: int| 0 <= i < n ==> (#[trigger] m.entries[i]).release_us <= now_us,
        n < m.entries.len() ==> m.entries[n as int].release_us > now_us,
    ensures
        m.entries.filter(|e: JitterEntry| e.release_us > now_us) == m.entries.skip(n as int),
{
    let late = |e: JitterEntry| e.release_us > now_us;
    let a = m.entries.take(n as int);
    let b = m.entries.skip(n as int);
    assert(m.entries =~= a + b);
    Seq::filter_distributes_over_add(a, b, late);
    lemma_filter_none(a, late);
    assert forall|i: int| 0 <= i < b.len() implies late(#[trigger] b[i]) by {
        assert(b[i] == m.entries[n + i]);
        assert(m.entries[n as int].release_us <= m.entries[n + i].release_us);
    }
    lemma_filter_all(b, late);
    assert(Seq::<JitterEntry>::empty() + b =~= b);
}

proof fn lemma_filter_none<A>(s: Seq<A>, keep: spec_fn(A) -> bool)
    requires
        forall|i: int| 0 <= i < s.len() ==> !keep(#[trigger] s[i]),
    ensures
        s.filter(keep) == Seq::<A>::empty(),
    decreases s.len(),
{
    reveal(Seq::filter);
    if s.len() > 0 {
        lemma_filter_none(s.drop_last(), keep);
        assert(!keep(s[s.len() - 1]));
    }
}

pub proof fn lemma_filter_all<A>(s: Seq<A>, keep: spec_fn(A) -> bool)
    requires
        forall|i: int| 0 <= i < s.len() ==> keep(#[trigger] s[i]),
    ensures
        s.filter(keep) == s,
    decreases s.len(),
{
    reveal(Seq::filter);
    if s.len() > 0 {
        lemma_filter_all(s.drop_last(), keep);
        assert(keep(s[s.len() - 1]));
        assert(s.drop_last().push(s.last()) =~= s);
    }
}

impl JitterBuffer {
    /// An empty buffer.
    pub fn new(target_ms: u64) -> (r: JitterBuffer)
        requires
            target_ms * 1_000 <= u64::MAX,
        ensures
            r@ == empty_buffer((target_ms * 1_000) as u64),
            r@.valid(),
    {
        let r = JitterBuffer {
            heap: Vec::new(),
            packets: HashMap::new(),
            target_us: target_ms * 1_000,
            last_scheduled_us: 0,
        };
        assert(r@.packets =~= Map::empty());
        r
    }

    /// Takes the slices whose time has come, in the order of frames and slices.
    pub fn drain_ready_with(&mut self, now_us: u64) -> (r: Vec<VideoPacket>)
        requires
            old(self)@.valid(),
        ensures
            listing(packet_views(r@), old(self)@.released(now_us)),
            final(self)@ == old(self)@.drained(now_us),
            final(self)@.valid(),
    {
        let ghost start = self@;
        let ghost mut n: nat = 0;
        let mut ready: Vec<VideoPacket> = Vec::new();
        let ghost mut gone: Set<u128> = Set::empty();
        assert(self@.packets =~= start.packets.remove_keys(gone));
        assert(start.packets.restrict(gone) =~= Map::<u128, PacketModel>::empty());
        assert(start.entries.skip(0) =~= start.entries);
        while self.heap.len() > 0 && self.heap[0].release_us <= now_us
            invariant
                start.valid(),
                n <= start.entries.len(),
                self@ == (JitterModel {
                    entries: start.entries.skip(n as int),
                    packets: start.packets.remove_keys(gone),
                    ..start
                }),
                forall|i: int| 0 <= i < n ==> (#[trigger] start.entries[i]).release_us <= now_us,
                forall|k: u128| #[trigger]
                    gone.contains(k) <==> exists|i: int|
                        0 <= i < n && entry_key(#[trigger] start.entries[i]) == k,
                listing(packet_views(ready@), start.packets.restrict(gone)),
            decreases start.entries.len() - n,
        {
            let e: JitterEntry = self.heap[0];
            let key: u128 = make_key(e.frame_id, e.slice_idx);
            let ghost before = gone;
            let ghost list = packet_views(ready@);
            let ghost map_before = self.packets@;
            let ghost view_before = self@.packets;
            assert(e == start.entries[n as int]);
            self.heap.remove(0);
            let found: Option<VideoPacket> = self.packets.remove(&key);
            proof {
                gone = gone.insert(key);
                assert(self.heap@ =~= start.entries.skip(n as int).drop_first());
                assert(start.entries.skip(n as int).drop_first() =~= start.entries.skip(n as int + 1));
                n = n + 1;
                assert(self@.packets =~= start.packets.remove_keys(gone)) by {
                    assert(self@.packets =~= start.packets.remove_keys(before).remove(key));
                }
                assert forall|k: u128| #[trigger] gone.contains(k) <==> exists|i: int|
                    0 <= i < n && entry_key(#[trigger] start.entries[i]) == k by {
                    if k == key {
                        assert(entry_key(start.entries[n - 1]) == k);
                    }
                    if before.contains(k) {
                        let i = choose|i: int|
                            0 <= i < n - 1 && entry_key(#[trigger] start.entries[i]) == k;
                        assert(entry_key(start.entries[i]) == k);
                    }
                }
            }
            match found {
                Some(p) => {
                    proof {
                        assert(map_before.contains_key(key));
                        assert(start.packets.remove_keys(before).contains_key(key));
                        assert(!before.contains(key));
                        assert(view_before[key] == p@);
                        assert(start.packets[key] == p@);
                        assert(packet_key(p@) == key);
                        assert(start.packets.restrict(gone) =~= start.packets.restrict(
                            before,
                        ).insert(key, p@));
                    }
                    insert_packet(&mut ready, p, Ghost(start.packets.restrict(before)));
                },
                None => {
                    proof {
                        assert(!map_before.contains_key(key));
                        assert(!view_before.contains_key(key));
                        assert(start.packets.restrict(gone) =~= start.packets.restrict(before));
                    }
                },
            }
        }
        proof {
            let due = Set::new(|k: u128| start.due(k, now_us));
            lemma_due_prefix(start, now_us, n);
            assert(gone =~= due) by {
                assert forall|k: u128| gone.contains(k) <==> due.contains(k) by {
                    if gone.contains(k) {
                        let i = choose|i: int|
                            0 <= i < n && entry_key(#[trigger] start.entries[i]) == k;
                        assert(entry_key(start.entries[i]) == k);
                        assert(start.due(k, now_us));
                    }
                    if due.contains(k) {
                        let i = choose|i: int|
                            0 <= i < start.entries.len() && entry_key(#[trigger] start.entries[i])
                                == k && start.entries[i].release_us <= now_us;
                        if i >= n {
                            assert(start.entries[n as int].release_us
                                <= start.entries[i].release_us);
                        }
                        assert(i < n);
                    }
                }
            }
            lemma_drained_valid(start, now_us, n, gone);
        }
        ready
    }

    /// When the first entry is due.
    pub fn next_release_us(&self) -> (r: Option<u64>)
        ensures
            r == (if self@.entries.len() == 0 {
                None
            } else {
                Some(self@.entries[0].release_us)
            }),
    {
        if self.heap.len() == 0 {
            None
        } else {
            Some(self.heap[0].release_us)
        }
    }

    /// Holds a slice until `release_us`, or until there has been enough time since the
    /// slice before it. If there are too many slices the oldest one goes.
    pub fn push_with_release(&mut self, packet: VideoPacket, release_us: u64)
        requires
            old(self)@.valid(),
            old(self)@.last_scheduled_us + INTER_PACKET_GAP_US <= u64::MAX,
        ensures
            final(self)@ == old(self)@.pushed(packet@, release_us),
            final(self)@.valid(),
    {
        let ghost start = self@;
        let ghost p = packet@;
        let frame_id: u64 = packet.frame_id;
        let slice_idx: u8 = packet.slice_idx;
        let earliest: u64 = self.last_scheduled_us + INTER_PACKET_GAP_US;
        let at: u64 = if release_us >= earliest {
            release_us
        } else {
            earliest
        };
        let key: u128 = make_key(frame_id, slice_idx);
        self.last_scheduled_us = at;
        self.packets.insert(key, packet);
        self.heap.push(JitterEntry { release_us: at, frame_id, slice_idx });
        let ghost more = start.packets.insert(key, p);
        assert(self@.packets =~= more);
        proof {
            assert(more.dom() =~= start.packets.dom().insert(key));
            assert(self.packets@.dom() =~= more.dom());
        }
        if self.packets.len() > JITTER_MAX_FRAMES {
            let gone: u128 = self.oldest_key();
            self.packets.remove(&gone);
            proof {
                let o = oldest(more);
                assert(is_oldest(more, gone));
                assert(is_oldest(more, o));
                assert(self@.packets =~= more.remove(gone));
                assert(more.remove(gone).dom() =~= more.dom().remove(gone));
            }
        }
        proof {
            let now = self@;
            assert forall|k: u128| #[trigger] now.packets.contains_key(k) implies packet_key(
                now.packets[k],
            ) == k && now.scheduled(k) by {
                let last = start.entries.len() as int;
                if k == key {
                    assert(entry_key(now.entries[last]) == k);
                } else {
                    assert(start.packets.contains_key(k));
                    let i = choose|i: int|
                        0 <= i < start.entries.len() && entry_key(#[trigger] start.entries[i])
                            == k;
                    assert(now.entries[i] == start.entries[i]);
                }
            }
        }
    }

    /// The smallest key.
    fn oldest_key(&self) -> (r: u128)
        requires
            self@.packets.dom().finite(),
            self@.packets.len() > 0,
        ensures
            is_oldest(self@.packets, r),
    {
        let mut best: Option<u128> = None;
        let ghost seen: Set<u128> = Set::empty();
        for k in it: self.packets.keys()
            invariant
                it.seq().unref().to_set() == self.packets@.dom(),
                best is None ==> it.index() == 0,
                best is Some ==> self.packets@.dom().contains(best->0),
                forall|x: u128| #[trigger]
                    self.packets@.dom().contains(x) ==> (best is Some && best->0 <= x) || exists|
                        i: int,
                    |
                        it.index() <= i < it.seq().len() && #[trigger] it.seq().unref()[i] == x,
        {
            let ghost all = it.seq().unref();
            let ghost before = best;
            assert(all.to_set().contains(all[it.index()]));
            let better: bool = match best {
                None => true,
                Some(b) => *k < b,
            };
            if better {
                best = Some(*k);
            }
            assert forall|x: u128| #[trigger] self.packets@.dom().contains(x) implies (best is Some
                && best->0 <= x) || exists|i: int|
                it.index() + 1 <= i < it.seq().len() && #[trigger] all[i] == x by {
                if before is Some && before->0 <= x {
                } else {
                    let i = choose|i: int|
                        it.index() <= i < it.seq().len() && #[trigger] all[i] == x;
                    if i == it.index() {
                        assert(*k == x);
                    }
                }
            }
        }
        proof {
            assert(self@.packets.dom() =~= self.packets@.dom());
            let some = self@.packets.dom().choose();
            vstd::set_lib::lemma_set_empty_equivalency_len(self@.packets.dom());
            assert(self.packets@.dom().contains(some));
        }
        match best {
            Some(b) => b,
            None => 0,
        }
    }

    /// Takes the slices whose time has come by the clock, in the order of frames and slices.
    pub fn drain_ready(&mut self) -> (r: Vec<VideoPacket>)
        requires
            old(self)@.valid(),
        ensures
            exists|now_us: u64|
                {
                    &&& #[trigger] listing(packet_views(r@), old(self)@.released(now_us))
                    &&& final(self)@ == old(self)@.drained(now_us)
                },
            final(self)@.valid(),
    {
        let now: u64 = FrameTrace::now_us();
        self.drain_ready_with(now)
    }

    /// How long it is from `now_us` until the next slice is due, in microseconds. Entries
    /// for slices that are gone are forgotten.
    pub fn time_to_next_at(&mut self, now_us: u64) -> (r: Option<u64>)
        requires
            old(self)@.valid(),
        ensures
            r == old(self)@.wait(now_us),
            final(self)@ == old(self)@.cleaned(),
            final(self)@.valid(),
    {
        let ghost start = self@;
        let ghost mut n: nat = 0;
        assert(start.entries.skip(0) =~= start.entries);
        while self.heap.len() > 0
            invariant
                start.valid(),
                start == old(self)@,
                n <= start.entries.len(),
                self@ == (JitterModel { entries: start.entries.skip(n as int), ..start }),
                n + self@.stale_prefix() == start.stale_prefix(),
                forall|i: int| 0 <= i < n ==> !#[trigger] start.live(i),
            decreases start.entries.len() - n,
        {
            let e: JitterEntry = self.heap[0];
            let key: u128 = make_key(e.frame_id, e.slice_idx);
            assert(e == start.entries[n as int]);
            if self.packets.contains_key(&key) {
                proof {
                    assert(self@.live(0));
                    assert(self@ == start.cleaned());
                    lemma_cleaned_valid(start, n);
                }
                return if now_us >= e.release_us {
                    Some(0)
                } else {
                    Some(e.release_us - now_us)
                };
            }
            let ghost now = self@;
            self.heap.remove(0);
            proof {
                assert(!start.live(n as int));
                assert(self.heap@ =~= start.entries.skip(n as int + 1));
                assert(self@ == now.without_first());
                n = n + 1;
            }
        }
        proof {
            assert(self@ == start.cleaned());
            lemma_cleaned_valid(start, n);
        }
        None
    }

    /// How long it is by the clock until the next slice is due, in microseconds.
    pub fn time_to_next(&mut self) -> (r: Option<u64>)
        requires
            old(self)@.valid(),
        ensures
            exists|now_us: u64| r == #[trigger] old(self)@.wait(now_us),
            final(self)@ == old(self)@.cleaned(),
            final(self)@.valid(),
    {
        let now: u64 = FrameTrace::now_us();
        self.time_to_next_at(now)
    }

    /// No slice is held.
    pub fn is_empty(&self) -> (r: bool)
        requires
            self@.valid(),
        ensures
            r == (self@.packets.len() == 0),
    {
        assert(self@.packets.dom() =~= self.packets@.dom());
        self.packets.len() == 0
    }
}

/// Puts a slice into a list at its place.
fn insert_packet(list: &mut Vec<VideoPacket>, p: VideoPacket, Ghost(packets): Ghost<
    Map<u128, PacketModel>,
>)
    requires
        listing(packet_views(old(list)@), packets),
        !packets.contains_key(packet_key(p@)),
    ensures
        listing(packet_views(final(list)@), packets.insert(packet_key(p@), p@)),
{
    let ghost start = packet_views(list@);
    let ghost m = p@;
    let key: u128 = make_key(p.frame_id, p.slice_idx);
    let mut i: usize = list.len();
    while i > 0 && make_key(list[i - 1].frame_id, list[i - 1].slice_idx) > key
        invariant
            i <= list@.len(),
            key == packet_key(m),
            start == packet_views(list@),
            forall|j: int| i <= j < start.len() ==> packet_key(#[trigger] start[j]) > key,
        decreases i,
    {
        assert(start[i - 1] == list@[i - 1]@);
        i = i - 1;
    }
    proof {
        if i > 0 {
            assert(start[i - 1] == list@[i - 1]@);
            assert(packet_key(start[i - 1]) <= key);
            assert(packets.contains_key(packet_key(start[i - 1])));
        }
    }
    list.insert(i, p);
    proof {
        let now = packet_views(list@);
        let more = packets.insert(packet_key(m), m);
        assert(now =~= start.insert(i as int, m));
        assert forall|a: int, b: int| 0 <= a < b < now.len() implies packet_key(#[trigger] now[a])
            < packet_key(#[trigger] now[b]) by {
            let a0 = if a < i {
                a
            } else {
                a - 1
            };
            let b0 = if b < i {
                b
            } else {
                b - 1
            };
            if a == i {
                assert(now[b] == start[b0]);
            } else if b == i {
                assert(now[a] == start[a0]);
                if a0 < i - 1 {
                    assert(packet_key(start[a0]) < packet_key(start[i - 1]));
                }
            } else {
                assert(now[a] == start[a0] && now[b] == start[b0]);
            }
        }
        assert forall|a: int| 0 <= a < now.len() implies more.contains_key(
            packet_key(#[trigger] now[a]),
        ) && more[packet_key(now[a])] == now[a] by {
            if a < i {
                assert(now[a] == start[a]);
            } else if a > i {
                assert(now[a] == start[a - 1]);
            }
        }
        assert forall|k: u128| #[trigger] more.contains_key(k) implies exists|a: int|
            0 <= a < now.len() && packet_key(#[trigger] now[a]) == k by {
            if k == packet_key(m) {
                assert(packet_key(now[i as int]) == k);
            } else {
                assert(packets.contains_key(k));
                let a = choose|a: int| 0 <= a < start.len() && packet_key(#[trigger] start[a]) == k;
                if a < i {
                    assert(now[a] == start[a]);
                } else {
                    assert(now[a + 1] == start[a]);
                }
            }
        }
    }
}

proof fn lemma_drained_valid(m: JitterModel, now_us: u64, n: nat, gone: Set<u128>)
    requires
        m.valid(),
        n <= m.entries.len(),
        forall|k: u128| #[trigger]
            gone.contains(k) <==> exists|i: int|
                0 <= i < n && entry_key(#[trigger] m.entries[i]) == k,
    ensures
        (JitterModel {
            entries: m.entries.skip(n as int),
            packets: m.packets.remove_keys(gone),
            ..m
        }).valid(),
{
    let d = JitterModel {
        entries: m.entries.skip(n as int),
        packets: m.packets.remove_keys(gone),
        ..m
    };
    assert forall|k: u128| #[trigger] d.packets.contains_key(k) implies packet_key(d.packets[k])
        == k && d.scheduled(k) by {
        assert(m.packets.contains_key(k) && !gone.contains(k));
        let i = choose|i: int| 0 <= i < m.entries.len() && entry_key(#[trigger] m.entries[i]) == k;
        assert(i >= n);
        assert(d.entries[i - n] == m.entries[i]);
    }
    assert(d.packets.dom() =~= m.packets.dom().difference(gone));
    vstd::set_lib::lemma_len_difference(m.packets.dom(), gone);
}

proof fn lemma_cleaned_valid(m: JitterModel, n: nat)
    requires
        m.valid(),
        n <= m.entries.len(),
        forall|i: int| 0 <= i < n ==> !#[trigger] m.live(i),
    ensures
        (JitterModel { entries: m.entries.skip(n as int), ..m }).valid(),
{
    let d = JitterModel { entries: m.entries.skip(n as int), ..m };
    assert forall|k: u128| #[trigger] d.packets.contains_key(k) implies packet_key(d.packets[k])
        == k && d.scheduled(k) by {
        assert(m.packets.contains_key(k));
        let i = choose|i: int| 0 <= i < m.entries.len() && entry_key(#[trigger] m.entries[i]) == k;
        assert(m.live(i));
        assert(d.entries[i - n] == m.entries[i]);
    }
}

} // verus!
