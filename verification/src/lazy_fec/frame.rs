//! Collection of the slices of one frame.
use crate::fec::decode_task::{DecodeTask, TaskModel};
use crate::fec::frame_builder::Waste;
use crate::fec::group_builder::{lemma_present, since, GroupState};
use crate::fec::slice_wire::{read_slice, slice_in};
use crate::fec::MIN_NACK_AGE_US;
use crate::lazy_fec::group::{GroupBuilder, GroupModel};
use crate::lazy_fec::slice::{new_slice, snapshot_view, SliceBuilder, SliceModel};
use crate::lazy_fec::GroupRecovery;
use crate::packet::{
    ChunkModel, DatagramChunk, FrameTrace, PacketModel, VideoPacket, VideoSlice, VideoSliceModel,
};
use crate::chunked::reassembly::{reassembled_trace, stamp_reassembled};
use bytes::Bytes;
use std::collections::HashMap;
use vstd::prelude::*;

verus! {

broadcast use vstd::std_specs::hash::group_hash_axioms;

/// The slices of a frame as far as they have come.
#[derive(Debug)]
pub struct FrameBuilder {
    slices: HashMap<u8, SliceBuilder>,
    decoded_slices: Vec<Option<VideoSlice>>,
    total_slices: u8,
    first_us: u64,
    next_emit_idx: u8,
    ready_packets: Vec<VideoPacket>,
}

/// What a [`FrameBuilder`] holds.
#[verifier::ext_equal]
pub struct FrameModel {
    pub slices: Map<u8, SliceModel>,
    /// The slices that were read and wait for those before them.
    pub decoded: Seq<Option<VideoSliceModel>>,
    pub total_slices: u8,
    pub first_us: u64,
    /// The slice that goes next.
    pub next: u8,
    /// The packets of the slices before it.
    pub packets: Seq<PacketModel>,
}

pub open spec fn slice_views(s: Seq<Option<VideoSlice>>) -> Seq<Option<VideoSliceModel>> {
    Seq::new(
        s.len(),
        |i: int|
            match s[i] {
                Some(v) => Some(v@),
                None => None,
            },
    )
}

pub open spec fn packet_views(s: Seq<VideoPacket>) -> Seq<PacketModel> {
    Seq::new(s.len(), |i: int| s[i]@)
}

impl View for FrameBuilder {
    type V = FrameModel;

    closed spec fn view(&self) -> FrameModel {
        FrameModel {
            slices: self.slices@.map_values(|s: SliceBuilder| s@),
            decoded: slice_views(self.decoded_slices@),
            total_slices: self.total_slices,
            first_us: self.first_us,
            next: self.next_emit_idx,
            packets: packet_views(self.ready_packets@),
        }
    }
}

/// A frame of which nothing has come.
pub open spec fn new_frame(total_slices: u8, now_us: u64) -> FrameModel {
    FrameModel {
        slices: Map::empty(),
        decoded: Seq::new(total_slices as nat, |i: int| None),
        total_slices,
        first_us: now_us,
        next: 0,
        packets: Seq::empty(),
    }
}

/// The packet of a slice of a frame that began to come at `first_us`.
pub open spec fn packet_of(v: VideoSliceModel, first_us: u64, now_us: u64) -> PacketModel {
    PacketModel {
        frame_id: v.frame_id,
        payload: v.payload,
        slice_idx: v.slice_idx,
        is_key: v.is_key,
        is_last: v.is_last,
        is_concealed: false,
        trace: reassembled_trace(v.trace, first_us, now_us),
    }
}

/// The groups from `g` on are brought up to date, up to the first whose missing shards are
/// to be asked for. Returns that group and a mask of the shards that it has.
pub open spec fn scan_groups(s: SliceModel, g: nat, now_us: u64) -> (SliceModel, Option<(u8, u64)>)
    decreases s.total_groups - g,
{
    if g >= s.total_groups {
        (s, None)
    } else if !s.unfinished(g as u8) {
        scan_groups(s, g + 1, now_us)
    } else {
        let x = s.groups[g as u8].refreshed(now_us);
        if x.state.wants_nack(now_us) {
            let asked = GroupModel { state: GroupState::Requested { sent_at_us: now_us }, ..x };
            (
                SliceModel { groups: s.groups.insert(g as u8, asked), ..s },
                Some((g as u8, x.received_mask)),
            )
        } else {
            scan_groups(
                SliceModel { groups: s.groups.insert(g as u8, x), ..s },
                g + 1,
                now_us,
            )
        }
    }
}

/// The payload bytes of the first `n` data shards that are there.
pub open spec fn arrived_bytes(g: GroupModel, n: nat) -> nat
    decreases n,
{
    if n == 0 {
        0
    } else {
        arrived_bytes(g, (n - 1) as nat) + if g.shards[n - 1] is Some {
            g.lens[n - 1] as nat
        } else {
            0nat
        }
    }
}

/// What is lost with a group: its bytes, and, if it is not marked as ready, the group itself
/// and its missing shards.
pub open spec fn group_waste(g: GroupModel) -> Waste {
    Waste {
        groups: if g.state is Ready {
            0
        } else {
            1
        },
        bytes: arrived_bytes(g, g.k as nat),
        chunks: if g.state is Ready {
            0
        } else {
            (g.k + g.m - g.received) as nat
        },
    }
}

/// What is lost with the groups below `n`.
pub open spec fn groups_waste(groups: Map<u8, GroupModel>, n: nat) -> Waste
    decreases n,
{
    if n == 0 {
        Waste::none()
    } else {
        let before = groups_waste(groups, (n - 1) as nat);
        if groups.contains_key((n - 1) as u8) {
            before.plus(group_waste(groups[(n - 1) as u8]))
        } else {
            before
        }
    }
}

/// What is lost with the slices below `n`.
pub open spec fn slices_waste(slices: Map<u8, SliceModel>, n: nat) -> Waste
    decreases n,
{
    if n == 0 {
        Waste::none()
    } else {
        let before = slices_waste(slices, (n - 1) as nat);
        if slices.contains_key((n - 1) as u8) {
            before.plus(groups_waste(slices[(n - 1) as u8].groups, 256))
        } else {
            before
        }
    }
}

impl FrameModel {
    /// Each slice is valid and has a place among the decoded ones.
    pub open spec fn valid(self) -> bool {
        &&& self.decoded.len() == self.total_slices
        &&& self.next <= self.total_slices
        &&& forall|i: u8| #[trigger] self.slices.contains_key(i) ==> self.slices[i].valid()
    }

    /// All slices have gone.
    pub open spec fn complete(self) -> bool {
        self.next == self.total_slices
    }

    /// The slice of a shard, new if there was none.
    pub open spec fn slice_for(self, c: ChunkModel) -> SliceModel {
        if self.slices.contains_key(c.slice_idx) {
            self.slices[c.slice_idx]
        } else {
            new_slice(c.total_groups)
        }
    }

    /// The shard makes its slice ready while parity has to stand in for data of its group.
    pub open spec fn needs_fec(self, c: ChunkModel, now_us: u64) -> bool {
        let s = self.slice_for(c).inserted(c, now_us);
        let g = s.groups[c.group_idx];
        s.ready() && !(g.state is Decoding) && !(g.state is Ready) && g.data_received() < g.k
    }

    /// The slice of the shard after it has come: a group that is to be reconstructed is marked
    /// so.
    pub open spec fn slice_with(self, c: ChunkModel, now_us: u64) -> SliceModel {
        let s = self.slice_for(c).inserted(c, now_us);
        if self.needs_fec(c, now_us) {
            SliceModel {
                groups: s.groups.insert(
                    c.group_idx,
                    GroupModel { state: GroupState::Decoding, ..s.groups[c.group_idx] },
                ),
                ..s
            }
        } else {
            s
        }
    }

    pub open spec fn with_slice(self, c: ChunkModel, now_us: u64) -> FrameModel {
        FrameModel {
            slices: self.slices.insert(c.slice_idx, self.slice_with(c, now_us)),
            ..self
        }
    }

    /// The slice can be read out of its groups.
    pub open spec fn readable(s: SliceModel) -> Option<VideoSliceModel> {
        match s.joined_from(0, Seq::empty()) {
            Some(bytes) => slice_in(bytes),
            None => None,
        }
    }

    /// With a slice that was read, if it was.
    pub open spec fn with_decoded(self, idx: u8, v: Option<VideoSliceModel>) -> FrameModel {
        match v {
            Some(x) => FrameModel { decoded: self.decoded.update(idx as int, Some(x)), ..self },
            None => self,
        }
    }

    /// The slices go in order as far as they were read.
    pub open spec fn emitted(self, now_us: u64) -> FrameModel
        decreases self.total_slices - self.next,
    {
        if self.next < self.total_slices && self.decoded[self.next as int] is Some {
            self.emitted_one(now_us).emitted(now_us)
        } else {
            self
        }
    }

    pub open spec fn emitted_one(self, now_us: u64) -> FrameModel {
        FrameModel {
            packets: self.packets.push(
                packet_of(self.decoded[self.next as int]->0, self.first_us, now_us),
            ),
            decoded: self.decoded.update(self.next as int, None),
            next: (self.next + 1) as u8,
            ..self
        }
    }

    /// After a shard has come.
    pub open spec fn inserted(self, c: ChunkModel, now_us: u64) -> FrameModel {
        if c.slice_idx >= self.total_slices {
            self
        } else {
            let with = self.with_slice(c, now_us);
            let s = self.slice_with(c, now_us);
            if !s.ready() || self.decoded[c.slice_idx as int] is Some || self.needs_fec(c, now_us) {
                with
            } else {
                with.with_decoded(c.slice_idx, Self::readable(s)).emitted(now_us)
            }
        }
    }

    /// The reconstruction that a shard calls for.
    pub open spec fn task(self, c: ChunkModel, now_us: u64) -> Option<TaskModel> {
        if c.slice_idx < self.total_slices && self.needs_fec(c, now_us)
            && self.decoded[c.slice_idx as int] is None {
            match self.slice_with(c, now_us).first_unfinished(0) {
                Some(x) => Some(
                    TaskModel {
                        frame_id: c.frame_id,
                        slice_idx: c.slice_idx,
                        group_idx: 0,
                        k: x.k,
                        m: x.m,
                        shards: x.shards,
                        lens: x.lens,
                    },
                ),
                None => None,
            }
        } else {
            None
        }
    }

    /// After the bytes of a slice were reconstructed.
    pub open spec fn applied(self, idx: u8, data: Seq<u8>, now_us: u64) -> FrameModel {
        if idx >= self.total_slices || self.decoded[idx as int] is Some {
            self
        } else {
            self.with_decoded(idx, slice_in(data)).emitted(now_us)
        }
    }

    /// The slices from `i` on are looked through for a group to ask for.
    pub open spec fn scanned(self, i: nat, now_us: u64) -> (FrameModel, Option<(u8, u8, u64)>)
        decreases self.total_slices - i,
    {
        if i >= self.total_slices {
            (self, None)
        } else if !self.slices.contains_key(i as u8) || self.slices[i as u8].ready() {
            self.scanned(i + 1, now_us)
        } else {
            let (s, found) = scan_groups(self.slices[i as u8], 0, now_us);
            let with = FrameModel { slices: self.slices.insert(i as u8, s), ..self };
            match found {
                Some(x) => (with, Some((i as u8, x.0, x.1))),
                None => with.scanned(i + 1, now_us),
            }
        }
    }

    /// The search for a group to ask for, which begins some time after the frame did.
    pub open spec fn searched(self, now_us: u64) -> (FrameModel, Option<(u8, u8, u64)>) {
        if since(now_us, self.first_us) < MIN_NACK_AGE_US {
            (self, None)
        } else {
            self.scanned(0, now_us)
        }
    }

    /// What is lost with the frame.
    pub open spec fn waste(self) -> Waste {
        slices_waste(self.slices, 256)
    }
}

pub open spec fn task_view(t: Option<DecodeTask>) -> Option<TaskModel> {
    match t {
        Some(x) => Some(x@),
        None => None,
    }
}

proof fn lemma_arrived_bound(g: GroupModel, n: nat)
    requires
        n <= g.lens.len(),
    ensures
        arrived_bytes(g, n) <= n * 65535,
    decreases n,
{
    if n > 0 {
        lemma_arrived_bound(g, (n - 1) as nat);
    }
}

proof fn lemma_groups_bound(groups: Map<u8, GroupModel>, n: nat)
    requires
        n <= 256,
        forall|g: u8| #[trigger] groups.contains_key(g) ==> groups[g].valid(),
    ensures
        groups_waste(groups, n).groups <= n,
        groups_waste(groups, n).bytes <= n * 16_711_425,
        groups_waste(groups, n).chunks <= n * 255,
    decreases n,
{
    if n > 0 {
        lemma_groups_bound(groups, (n - 1) as nat);
        let g = (n - 1) as u8;
        if groups.contains_key(g) {
            lemma_arrived_bound(groups[g], groups[g].k as nat);
            lemma_present(groups[g].shards);
        }
    }
}

proof fn lemma_slices_bound(slices: Map<u8, SliceModel>, n: nat)
    requires
        n <= 256,
        forall|i: u8| #[trigger] slices.contains_key(i) ==> slices[i].valid(),
    ensures
        slices_waste(slices, n).groups <= n * 256,
        slices_waste(slices, n).bytes <= n * 4_278_124_800,
        slices_waste(slices, n).chunks <= n * 65_280,
    decreases n,
{
    if n > 0 {
        lemma_slices_bound(slices, (n - 1) as nat);
        let i = (n - 1) as u8;
        if slices.contains_key(i) {
            lemma_groups_bound(slices[i].groups, 256);
        }
    }
}

impl FrameBuilder {
    /// Nothing has come.
    pub fn new(total_slices: u8, is_key: bool, now_us: u64) -> (r: FrameBuilder)
        ensures
            r@ == new_frame(total_slices, now_us),
            r@.valid(),
    {
        let mut decoded_slices: Vec<Option<VideoSlice>> = Vec::new();
        while decoded_slices.len() < total_slices as usize
            invariant
                decoded_slices@.len() <= total_slices,
                forall|i: int|
                    0 <= i < decoded_slices@.len() ==> (#[trigger] decoded_slices@[i]) is None,
            decreases total_slices - decoded_slices@.len(),
        {
            decoded_slices.push(None);
        }
        let r = FrameBuilder {
            slices: HashMap::new(),
            decoded_slices,
            total_slices,
            first_us: now_us,
            next_emit_idx: 0,
            ready_packets: Vec::new(),
        };
        assert(r@.slices =~= Map::<u8, SliceModel>::empty());
        assert(r@.decoded =~= new_frame(total_slices, now_us).decoded);
        assert(r@.packets =~= Seq::<PacketModel>::empty());
        r
    }

    /// Whether all slices have gone.
    pub fn is_complete(&self) -> (r: bool)
        ensures
            r == self@.complete(),
    {
        self.next_emit_idx == self.total_slices
    }

    /// What is lost with the groups of a slice.
    fn slice_wasted(sb: &SliceBuilder) -> (r: (u64, u64, u64))
        requires
            sb@.valid(),
        ensures
            r.0 == groups_waste(sb@.groups, 256).groups,
            r.1 == groups_waste(sb@.groups, 256).bytes,
            r.2 == groups_waste(sb@.groups, 256).chunks,
    {
        let mut failed: u64 = 0;
        let mut wasted: u64 = 0;
        let mut lost: u64 = 0;
        let mut i: u16 = 0;
        while i < 256
            invariant
                i <= 256,
                sb@.valid(),
                failed == groups_waste(sb@.groups, i as nat).groups,
                wasted == groups_waste(sb@.groups, i as nat).bytes,
                lost == groups_waste(sb@.groups, i as nat).chunks,
            decreases 256 - i,
        {
            proof {
                lemma_groups_bound(sb@.groups, (i + 1) as nat);
            }
            let key: u8 = i as u8;
            match sb.groups.get(&key) {
                Some(gb) => {
                    assert(sb@.groups.contains_key(key) && sb@.groups[key] == gb@);
                    proof {
                        lemma_present(gb@.shards);
                    }
                    wasted = wasted + Self::group_bytes(gb);
                    if !matches!(gb.state, GroupState::Ready) {
                        failed = failed + 1;
                        let total: u64 = gb.k as u64 + gb.m as u64;
                        lost = lost + total.saturating_sub(gb.received as u64);
                    }
                },
                None => {
                    assert(!sb@.groups.contains_key(key));
                },
            }
            i = i + 1;
        }
        (failed, wasted, lost)
    }

    /// The payload bytes of a group that have come.
    fn group_bytes(gb: &GroupBuilder) -> (r: u64)
        requires
            gb@.valid(),
        ensures
            r == arrived_bytes(gb@, gb@.k as nat),
    {
        let mut n: u64 = 0;
        let mut i: usize = 0;
        while i < gb.k as usize
            invariant
                gb@.valid(),
                i <= gb.k,
                n == arrived_bytes(gb@, i as nat),
            decreases gb.k - i,
        {
            proof {
                lemma_arrived_bound(gb@, (i + 1) as nat);
            }
            if gb.shards[i].is_some() {
                assert(gb@.shards[i as int] is Some);
                n = n + gb.payload_lens[i] as u64;
            } else {
                assert(gb@.shards[i as int] is None);
            }
            i = i + 1;
        }
        n
    }

    /// What is lost with the frame: groups, payload bytes and shards.
    pub fn count_wasted(&self) -> (r: (u64, u64, u64))
        requires
            self@.valid(),
        ensures
            r.0 == self@.waste().groups,
            r.1 == self@.waste().bytes,
            r.2 == self@.waste().chunks,
    {
        let mut failed: u64 = 0;
        let mut wasted: u64 = 0;
        let mut lost: u64 = 0;
        let mut i: u16 = 0;
        while i < 256
            invariant
                i <= 256,
                self@.valid(),
                failed == slices_waste(self@.slices, i as nat).groups,
                wasted == slices_waste(self@.slices, i as nat).bytes,
                lost == slices_waste(self@.slices, i as nat).chunks,
            decreases 256 - i,
        {
            proof {
                lemma_slices_bound(self@.slices, (i + 1) as nat);
            }
            let key: u8 = i as u8;
            match self.slices.get(&key) {
                Some(sb) => {
                    assert(self@.slices.contains_key(key) && self@.slices[key] == sb@);
                    let (f, w, l): (u64, u64, u64) = Self::slice_wasted(sb);
                    failed = failed + f;
                    wasted = wasted + w;
                    lost = lost + l;
                },
                None => {
                    assert(!self@.slices.contains_key(key));
                },
            }
            i = i + 1;
        }
        (failed, wasted, lost)
    }

    /// Takes a shard into its slice. Returns what the slice tells of it, whether the slice
    /// is ready, whether it is to be reconstructed, and then what that takes.
    fn put(&mut self, chunk: &DatagramChunk, now_us: u64) -> (r: (
        Option<GroupRecovery>,
        bool,
        bool,
        bool,
        bool,
    ))
        requires
            old(self)@.valid(),
            old(self)@.slice_for(chunk@).groups.contains_key(chunk.group_idx) || chunk.k + chunk.m
                <= 255,
        ensures
            final(self)@ == old(self)@.with_slice(chunk@, now_us),
            final(self)@.valid(),
            ({
                let s = old(self)@.slice_for(chunk@);
                let g = s.group_for(chunk@);
                &&& r.0 == s.recovery(chunk@, now_us)
                &&& r.1 == (chunk.shard_idx < g.shards.len() && g.state is Requested)
                &&& r.2 == (chunk.shard_idx < g.shards.len() && g.state is Collecting
                    && s.group_with(chunk@, now_us).state is Stalled)
                &&& r.3 == old(self)@.slice_with(chunk@, now_us).ready()
                &&& r.4 == old(self)@.needs_fec(chunk@, now_us)
            }),
    {
        let ghost before = self@;
        let mut sb: SliceBuilder = match self.slices.remove(&chunk.slice_idx) {
            Some(s) => s,
            None => SliceBuilder::new(chunk.total_groups),
        };
        assert(sb@ == before.slice_for(chunk@));
        let (recovery, awaited, stalled): (Option<GroupRecovery>, bool, bool) = sb.insert(
            chunk,
            now_us,
        );
        let ghost s = sb@;
        assert(s == before.slice_for(chunk@).inserted(chunk@, now_us));
        assert(s.groups.contains_key(chunk.group_idx));
        let ready: bool = sb.is_ready();
        let mut needs_fec: bool = false;
        if ready {
            match sb.groups.remove(&chunk.group_idx) {
                Some(mut gb) => {
                    assert(gb@ == s.groups[chunk.group_idx]);
                    let open: bool = !matches!(
                        gb.state,
                        GroupState::Decoding | GroupState::Ready
                    );
                    if open && gb.data_received_count() < gb.k {
                        gb.state = GroupState::Decoding;
                        needs_fec = true;
                    }
                    sb.groups.insert(chunk.group_idx, gb);
                    assert(sb@.groups =~= s.groups.insert(chunk.group_idx, gb@));
                    assert(s.groups.insert(chunk.group_idx, s.groups[chunk.group_idx])
                        =~= s.groups);
                },
                None => {},
            }
        }
        assert(sb@ =~= before.slice_with(chunk@, now_us));
        assert(sb@.valid());
        self.slices.insert(chunk.slice_idx, sb);
        assert(self@.slices =~= before.with_slice(chunk@, now_us).slices);
        (recovery, awaited, stalled, ready, needs_fec)
    }

    /// Takes a shard in. Returns how its group became complete, if it did by this shard, a
    /// reconstruction to be done, whether shards of the group had been asked for, and the
    /// slice and group if it is newly stalled.
    pub fn insert_chunk(&mut self, chunk: &DatagramChunk, now_us: u64) -> (r: (
        Vec<GroupRecovery>,
        Option<DecodeTask>,
        bool,
        Option<(u8, u8)>,
    ))
        requires
            old(self)@.valid(),
            chunk.slice_idx < old(self)@.total_slices ==> old(self)@.slice_for(
                chunk@,
            ).groups.contains_key(chunk.group_idx) || chunk.k + chunk.m <= 255,
        ensures
            final(self)@ == old(self)@.inserted(chunk@, now_us),
            final(self)@.valid(),
            task_view(r.1) == old(self)@.task(chunk@, now_us),
            ({
                let known = chunk.slice_idx < old(self)@.total_slices;
                let s = old(self)@.slice_for(chunk@);
                let g = s.group_for(chunk@);
                let at = known && chunk.shard_idx < g.shards.len();
                &&& r.0@ == (match s.recovery(chunk@, now_us) {
                    Some(x) => if known {
                        seq![x]
                    } else {
                        Seq::empty()
                    },
                    None => Seq::empty(),
                })
                &&& r.2 == (at && g.state is Requested)
                &&& r.3 == (if at && g.state is Collecting && s.group_with(
                    chunk@,
                    now_us,
                ).state is Stalled {
                    Some((chunk.slice_idx, chunk.group_idx))
                } else {
                    None
                })
            }),
    {
        let ghost before = self@;
        let mut recoveries: Vec<GroupRecovery> = Vec::new();
        if chunk.slice_idx as usize >= self.decoded_slices.len() {
            assert(recoveries@ =~= Seq::<GroupRecovery>::empty());
            return (recoveries, None, false, None);
        }
        let (recovery, awaited, stalled, ready, needs_fec): (
            Option<GroupRecovery>,
            bool,
            bool,
            bool,
            bool,
        ) = self.put(chunk, now_us);
        let ghost with = self@;
        match recovery {
            Some(x) => {
                recoveries.push(x);
                assert(recoveries@ =~= seq![x]);
            },
            None => {
                assert(recoveries@ =~= Seq::<GroupRecovery>::empty());
            },
        }
        let newly: Option<(u8, u8)> = if stalled {
            Some((chunk.slice_idx, chunk.group_idx))
        } else {
            None
        };
        let decoded: bool = self.decoded_slices[chunk.slice_idx as usize].is_some();
        assert(decoded == (before.decoded[chunk.slice_idx as int] is Some));
        if !ready || decoded {
            return (recoveries, None, awaited, newly);
        }
        if needs_fec {
            let task: Option<DecodeTask> = self.make_decode_task(chunk.frame_id, chunk.slice_idx);
            return (recoveries, task, awaited, newly);
        }
        match self.decode_slice_sync(chunk.slice_idx) {
            Some(v) => {
                let ghost x = v@;
                self.decoded_slices.set(chunk.slice_idx as usize, Some(v));
                assert(self@.decoded =~= with.decoded.update(chunk.slice_idx as int, Some(x)));
                assert(self@ =~= with.with_decoded(chunk.slice_idx, Some(x)));
            },
            None => {},
        }
        self.try_emit_ordered(now_us);
        (recoveries, None, awaited, newly)
    }

    /// The bytes of a slice were reconstructed. Returns whether the frame is complete then.
    pub fn apply_decode_result(&mut self, slice_idx: u8, data: &[u8], now_us: u64) -> (r: bool)
        requires
            old(self)@.valid(),
        ensures
            final(self)@ == old(self)@.applied(slice_idx, data@, now_us),
            final(self)@.valid(),
            r == final(self)@.complete(),
    {
        let ghost before = self@;
        let idx: usize = slice_idx as usize;
        if idx >= self.decoded_slices.len() {
            return self.is_complete();
        }
        if self.decoded_slices[idx].is_some() {
            assert(before.decoded[idx as int] is Some);
            return self.is_complete();
        }
        assert(before.decoded[idx as int] is None);
        match read_slice(data) {
            Some(v) => {
                let ghost x = v@;
                self.decoded_slices.set(idx, Some(v));
                assert(self@.decoded =~= before.decoded.update(idx as int, Some(x)));
                assert(self@ =~= before.with_decoded(slice_idx, Some(x)));
            },
            None => {},
        }
        self.try_emit_ordered(now_us);
        self.is_complete()
    }

    /// Looks for the first group in the order of slices and groups whose missing shards are
    /// to be asked for. Returns where it is and a mask of the shards that it has.
    pub fn find_nack_candidate(&mut self, now_us: u64) -> (r: Option<(u8, u8, u64)>)
        requires
            old(self)@.valid(),
        ensures
            (final(self)@, r) == old(self)@.searched(now_us),
            final(self)@.valid(),
    {
        let ghost start = self@;
        let age_us: u64 = now_us.saturating_sub(self.first_us);
        if age_us < MIN_NACK_AGE_US {
            return None;
        }
        let mut i: u8 = 0;
        while i < self.total_slices
            invariant
                start == old(self)@,
                self@.valid(),
                since(now_us, start.first_us) >= MIN_NACK_AGE_US,
                i <= self.total_slices,
                self@.scanned(i as nat, now_us) == start.scanned(0, now_us),
            decreases self.total_slices - i,
        {
            let ghost now = self@;
            match self.slices.remove(&i) {
                Some(mut sb) => {
                    let ghost s = sb@;
                    assert(now.slices.contains_key(i) && now.slices[i] == s);
                    if sb.is_ready() {
                        self.slices.insert(i, sb);
                        assert(self@.slices =~= now.slices);
                        assert(self@ =~= now);
                    } else {
                        let found: Option<(u8, u64)> = Self::scan(&mut sb, now_us);
                        let ghost after = sb@;
                        self.slices.insert(i, sb);
                        assert(self@.slices =~= now.slices.insert(i, after));
                        assert(self@ =~= FrameModel {
                            slices: now.slices.insert(i, after),
                            ..now
                        });
                        match found {
                            Some(x) => {
                                return Some((i, x.0, x.1));
                            },
                            None => {},
                        }
                    }
                },
                None => {
                    assert(!now.slices.contains_key(i));
                    assert(self@.slices =~= now.slices);
                    assert(self@ =~= now);
                },
            }
            i = i + 1;
        }
        None
    }

    /// Looks through the groups of a slice.
    fn scan(sb: &mut SliceBuilder, now_us: u64) -> (r: Option<(u8, u64)>)
        requires
            old(sb)@.valid(),
        ensures
            (final(sb)@, r) == scan_groups(old(sb)@, 0, now_us),
            final(sb)@.valid(),
    {
        let ghost start = sb@;
        let mut g: u8 = 0;
        while g < sb.total_groups
            invariant
                start == old(sb)@,
                sb@.valid(),
                g <= sb.total_groups,
                scan_groups(sb@, g as nat, now_us) == scan_groups(start, 0, now_us),
            decreases sb.total_groups - g,
        {
            let ghost now = sb@;
            match sb.groups.remove(&g) {
                Some(mut gb) => {
                    assert(now.groups.contains_key(g) && now.groups[g] == gb@);
                    if matches!(gb.state, GroupState::Ready) {
                        sb.groups.insert(g, gb);
                        assert(sb@.groups =~= now.groups);
                        assert(sb@ =~= now);
                    } else {
                        gb.refresh_state(now_us);
                        let ghost x = gb@;
                        assert(x == now.groups[g].refreshed(now_us));
                        if gb.state.needs_nack(now_us) {
                            let mask: u64 = gb.received_mask();
                            gb.state = GroupState::Requested { sent_at_us: now_us };
                            let ghost y = gb@;
                            assert(y =~= GroupModel {
                                state: GroupState::Requested { sent_at_us: now_us },
                                ..x
                            });
                            sb.groups.insert(g, gb);
                            assert(sb@.groups =~= now.groups.insert(g, y));
                            assert(sb@.valid());
                            return Some((g, mask));
                        }
                        sb.groups.insert(g, gb);
                        assert(sb@.groups =~= now.groups.insert(g, x));
                        assert(sb@ =~= SliceModel { groups: now.groups.insert(g, x), ..now });
                        assert(sb@.valid());
                    }
                },
                None => {
                    assert(!now.groups.contains_key(g));
                    assert(sb@.groups =~= now.groups);
                    assert(sb@ =~= now);
                },
            }
            g = g + 1;
        }
        None
    }

    /// Takes the packets out once the frame is complete.
    pub fn take_packets(&mut self) -> (r: Option<Vec<VideoPacket>>)
        ensures
            if old(self)@.complete() {
                &&& r is Some
                &&& packet_views(r->0@) == old(self)@.packets
                &&& final(self)@ == (FrameModel { packets: Seq::empty(), ..old(self)@ })
            } else {
                r is None && final(self)@ == old(self)@
            },
    {
        if self.is_complete() {
            let mut out: Vec<VideoPacket> = Vec::new();
            std::mem::swap(&mut out, &mut self.ready_packets);
            assert(self@.packets =~= Seq::<PacketModel>::empty());
            Some(out)
        } else {
            None
        }
    }

    /// Reads a slice out of its groups.
    fn decode_slice_sync(&self, slice_idx: u8) -> (r: Option<VideoSlice>)
        requires
            self@.valid(),
            self@.slices.contains_key(slice_idx),
        ensures
            match r {
                Some(v) => FrameModel::readable(self@.slices[slice_idx]) == Some(v@),
                None => FrameModel::readable(self@.slices[slice_idx]) is None,
            },
    {
        match self.slices.get(&slice_idx) {
            Some(sb) => {
                assert(self@.slices[slice_idx] == sb@);
                match sb.get_data_sync() {
                    Some(data) => read_slice(data.as_slice()),
                    None => None,
                }
            },
            None => None,
        }
    }

    /// What it takes to reconstruct the first unfinished group of a slice.
    fn make_decode_task(&self, frame_id: u64, slice_idx: u8) -> (r: Option<DecodeTask>)
        requires
            self@.slices.contains_key(slice_idx),
        ensures
            task_view(r) == (match self@.slices[slice_idx].first_unfinished(0) {
                Some(x) => Some(
                    TaskModel {
                        frame_id,
                        slice_idx,
                        group_idx: 0,
                        k: x.k,
                        m: x.m,
                        shards: x.shards,
                        lens: x.lens,
                    },
                ),
                None => None,
            }),
    {
        match self.slices.get(&slice_idx) {
            Some(sb) => {
                let snapshot: Option<(u8, u8, Vec<Option<Bytes>>, Vec<u16>)> =
                    sb.snapshot_for_fec();
                assert(snapshot_view(snapshot) == self@.slices[slice_idx].first_unfinished(0));
                match snapshot {
                    Some((k, m, shards, payload_lens)) => Some(
                        DecodeTask {
                            frame_id,
                            slice_idx,
                            group_idx: 0,
                            k,
                            m,
                            shards,
                            payload_lens,
                        },
                    ),
                    None => None,
                }
            },
            None => None,
        }
    }

    /// Lets slices go in order as far as they were read.
    fn try_emit_ordered(&mut self, now_us: u64)
        requires
            old(self)@.valid(),
        ensures
            final(self)@ == old(self)@.emitted(now_us),
            final(self)@.valid(),
    {
        let ghost start = self@;
        loop
            invariant
                self@.valid(),
                start == old(self)@,
                self@.emitted(now_us) == start.emitted(now_us),
            ensures
                self@ == start.emitted(now_us),
                self@.valid(),
            decreases self.total_slices - self.next_emit_idx,
        {
            if self.next_emit_idx >= self.total_slices {
                break ;
            }
            let ghost now = self@;
            let idx: usize = self.next_emit_idx as usize;
            if self.decoded_slices[idx].is_none() {
                assert(now.decoded[idx as int] is None);
                break ;
            }
            let mut all: Vec<Option<VideoSlice>> = Vec::new();
            std::mem::swap(&mut all, &mut self.decoded_slices);
            let ghost held = all@;
            let taken: Option<VideoSlice> = all[idx].take();
            std::mem::swap(&mut all, &mut self.decoded_slices);
            assert(self.decoded_slices@ =~= held.update(idx as int, None));
            match taken {
                Some(v) => {
                    let ghost x = v@;
                    assert(now.decoded[idx as int] == Some(x));
                    let packet: VideoPacket = Self::slice_to_packet(v, self.first_us, now_us);
                    self.ready_packets.push(packet);
                    self.next_emit_idx = self.next_emit_idx + 1;
                    assert(self@.packets =~= now.packets.push(
                        packet_of(x, now.first_us, now_us),
                    ));
                    assert(self@.decoded =~= now.decoded.update(idx as int, None));
                    assert(self@ =~= now.emitted_one(now_us));
                },
                None => {
                    break ;
                },
            }
        }
    }

    /// The packet of a slice.
    fn slice_to_packet(slice: VideoSlice, first_us: u64, now_us: u64) -> (r: VideoPacket)
        ensures
            r@ == packet_of(slice@, first_us, now_us),
    {
        let trace: Option<FrameTrace> = stamp_reassembled(slice.trace, first_us, now_us);
        VideoPacket {
            frame_id: slice.frame_id,
            payload: slice.payload,
            slice_idx: slice.slice_idx,
            is_key: slice.is_key,
            is_last: slice.is_last,
            is_concealed: false,
            trace,
        }
    }
}

} // verus!
