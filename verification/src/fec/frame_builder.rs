//! Collection of the slices of one frame, and their release in order.
use crate::fec::decode_task::{task_views, DecodeTask, TaskModel};
use crate::fec::group_builder::{lemma_has_code, GroupBuilder, GroupModel, GroupState};
use crate::fec::slice_builder::{lemma_state_valid, new_slice, SliceBuilder, SliceModel, SliceState};
use crate::fec::slice_wire::{read_slice, slice_in};
use crate::fec::GroupRecovery;
use crate::packet::{
    ChunkModel, DatagramChunk, FrameTrace, PacketModel, VideoPacket, VideoSlice, VideoSliceModel,
};
use std::collections::HashMap;
use vstd::prelude::*;

verus! {

broadcast use vstd::std_specs::hash::group_hash_axioms;

/// Where a frame is on its way to the decoder.
#[derive(Debug, Clone, Copy, PartialEq, Eq, Structural)]
pub enum FrameState {
    /// Waiting for slices.
    Receiving,
    /// Every slice is ready to be released.
    Complete,
    /// The frame was given up.
    Abandoned,
}

/// The slices of a frame as far as they have arrived.
#[derive(Debug)]
pub struct FrameBuilder {
    pub(crate) slices: HashMap<u8, SliceBuilder>,
    pub(crate) decoded_slices: Vec<Option<VideoSlice>>,
    pub(crate) total_slices: u8,
    pub(crate) first_us: u64,
    pub(crate) last_us: u64,
    pub(crate) next_emit_idx: u8,
    pub(crate) ready_packets: Vec<VideoPacket>,
    pub(crate) state: FrameState,
    pub(crate) network_ready_us: Option<u64>,
    pub(crate) collecting_done_us: u64,
    pub(crate) fec_submitted_us: u64,
    pub(crate) fec_done_us: u64,
}

/// What becomes of a request for the missing shards of a group.
#[derive(Debug, Clone, Copy, PartialEq, Eq, Structural)]
pub enum NackDecision {
    /// It is sent now.
    Send { received_mask: u64 },
    /// It waits.
    Keep,
    /// It is no longer needed.
    Drop,
}

/// What a [`FrameBuilder`] holds.
#[verifier::ext_equal]
pub struct FrameModel {
    pub slices: Map<u8, SliceModel>,
    /// The slices that were read but not released yet.
    pub decoded: Seq<Option<VideoSliceModel>>,
    pub total_slices: u8,
    /// When the first chunk arrived.
    pub first_us: u64,
    /// When the last chunk arrived.
    pub last_us: u64,
    /// The slice that is to be released next.
    pub next_emit_idx: u8,
    /// The packets of the released slices.
    pub ready: Seq<PacketModel>,
    pub state: FrameState,
    pub network_ready_us: Option<u64>,
    pub collecting_done_us: u64,
    pub fec_submitted_us: u64,
    pub fec_done_us: u64,
}

/// What the slices hold.
pub open spec fn slice_views(slices: Map<u8, SliceBuilder>) -> Map<u8, SliceModel> {
    slices.map_values(|s: SliceBuilder| s@)
}

/// What the read slices hold.
pub open spec fn decoded_views(s: Seq<Option<VideoSlice>>) -> Seq<Option<VideoSliceModel>> {
    Seq::new(
        s.len(),
        |i: int|
            match s[i] {
                Some(v) => Some(v@),
                None => None,
            },
    )
}

/// What the packets hold.
pub open spec fn packet_views(s: Seq<VideoPacket>) -> Seq<PacketModel> {
    Seq::new(s.len(), |i: int| s[i]@)
}

/// A frame of which nothing has arrived.
pub open spec fn new_frame(total_slices: u8, receive_us: u64) -> FrameModel {
    FrameModel {
        slices: Map::empty(),
        decoded: Seq::new(total_slices as nat, |i: int| None),
        total_slices,
        first_us: receive_us,
        last_us: 0,
        next_emit_idx: 0,
        ready: Seq::empty(),
        state: FrameState::Receiving,
        network_ready_us: None,
        collecting_done_us: 0,
        fec_submitted_us: 0,
        fec_done_us: 0,
    }
}

/// The packet of a slice whose frame began to arrive at `first_us`.
pub open spec fn packet_of(slice: VideoSliceModel, first_us: u64) -> PacketModel {
    PacketModel {
        frame_id: slice.frame_id,
        payload: slice.payload,
        slice_idx: slice.slice_idx,
        is_key: slice.is_key,
        is_last: slice.is_last,
        is_concealed: false,
        trace: match slice.trace {
            Some(t) => Some(FrameTrace { receive_us: first_us, ..t }),
            None => None,
        },
    }
}

/// The end of the run of read slices that begins at `i`.
pub open spec fn run_end(decoded: Seq<Option<VideoSliceModel>>, i: nat) -> nat
    decreases decoded.len() - i,
{
    if i < decoded.len() && decoded[i as int] is Some {
        run_end(decoded, i + 1)
    } else {
        i
    }
}

/// The task for group `g` of a slice.
pub open spec fn task_of(frame_id: u64, slice_idx: u8, g: u8, group: GroupModel) -> TaskModel {
    TaskModel {
        frame_id,
        slice_idx,
        group_idx: g,
        k: group.k,
        m: group.m,
        shards: group.shards(),
        lens: group.lens,
    }
}

/// The tasks for those of the groups below `n` whose reconstruction is due.
pub open spec fn tasks_upto(
    frame_id: u64,
    slice_idx: u8,
    groups: Map<u8, GroupModel>,
    n: nat,
) -> Seq<TaskModel>
    decreases n,
{
    if n == 0 {
        Seq::empty()
    } else {
        let g = (n - 1) as u8;
        let front = tasks_upto(frame_id, slice_idx, groups, (n - 1) as nat);
        if groups.contains_key(g) && groups[g].state is Decoding {
            front.push(task_of(frame_id, slice_idx, g, groups[g]))
        } else {
            front
        }
    }
}

/// A group whose reconstruction has begun, if it was due.
pub open spec fn decoding_started(g: GroupModel) -> GroupModel {
    if g.state is Decoding {
        GroupModel { state: GroupState::DecodingInProgress, ..g }
    } else {
        g
    }
}

/// What is lost with a frame that is given up.
pub struct Waste {
    /// Groups that did not become complete.
    pub groups: nat,
    /// Payload bytes that had arrived for them.
    pub bytes: nat,
    /// Shards that were missing in them.
    pub chunks: nat,
}

impl Waste {
    pub open spec fn none() -> Waste {
        Waste { groups: 0, bytes: 0, chunks: 0 }
    }

    pub open spec fn plus(self, other: Waste) -> Waste {
        Waste {
            groups: self.groups + other.groups,
            bytes: self.bytes + other.bytes,
            chunks: self.chunks + other.chunks,
        }
    }
}

/// The payload bytes of the first `n` data shards that are there.
pub open spec fn arrived_bytes(g: GroupModel, n: nat) -> nat
    decreases n,
{
    if n == 0 {
        0
    } else {
        arrived_bytes(g, (n - 1) as nat) + if g.data[n - 1] is Some {
            g.lens[n - 1] as nat
        } else {
            0nat
        }
    }
}

pub open spec fn group_waste(g: GroupModel) -> Waste {
    if g.state is Ready {
        Waste::none()
    } else {
        Waste {
            groups: 1,
            bytes: arrived_bytes(g, g.k as nat),
            chunks: if g.k + g.m < g.received {
                0
            } else {
                (g.k + g.m - g.received) as nat
            },
        }
    }
}

/// What is lost with the groups below `n`.
pub open spec fn groups_waste(groups: Map<u8, GroupModel>, n: nat) -> Waste
    decreases n,
{
    if n == 0 {
        Waste::none()
    } else {
        let g = (n - 1) as u8;
        groups_waste(groups, (n - 1) as nat).plus(
            if groups.contains_key(g) {
                group_waste(groups[g])
            } else {
                Waste::none()
            },
        )
    }
}

/// What is lost with the slices below `n`.
pub open spec fn slices_waste(slices: Map<u8, SliceModel>, n: nat) -> Waste
    decreases n,
{
    if n == 0 {
        Waste::none()
    } else {
        let s = (n - 1) as u8;
        slices_waste(slices, (n - 1) as nat).plus(
            if slices.contains_key(s) {
                groups_waste(slices[s].groups, 256)
            } else {
                Waste::none()
            },
        )
    }
}

impl FrameModel {
    pub open spec fn valid(self) -> bool {
        &&& self.decoded.len() == self.total_slices
        &&& self.next_emit_idx <= self.total_slices
        &&& self.ready.len() <= self.next_emit_idx
        &&& forall|s: u8| #[trigger] self.slices.contains_key(s) ==> self.slices[s].valid()
    }

    /// What is lost with the frame.
    pub open spec fn waste(self) -> Waste {
        slices_waste(self.slices, 256)
    }

    /// The slice that a chunk belongs to, before its arrival.
    pub open spec fn slice_before(self, chunk: ChunkModel) -> SliceModel {
        if self.slices.contains_key(chunk.slice_idx) {
            self.slices[chunk.slice_idx]
        } else {
            new_slice(chunk.total_groups)
        }
    }

    /// The chunk belongs to a slice that is not there yet.
    pub open spec fn wants(self, chunk: ChunkModel) -> bool {
        &&& self.state is Receiving
        &&& chunk.slice_idx < self.decoded.len()
        &&& self.decoded[chunk.slice_idx as int] is None
    }

    /// The chunk is put into its slice.
    pub open spec fn takes(self, chunk: ChunkModel) -> bool {
        self.wants(chunk) && !self.slice_before(chunk).state.terminal()
    }

    /// The slice that a chunk belongs to, after its arrival.
    pub open spec fn slice_after(self, chunk: ChunkModel, seq: u64, now_us: u64) -> SliceModel {
        self.slice_before(chunk).inserted(chunk, seq, now_us)
    }

    /// The frame with the run of read slices released that begins at the next one.
    pub open spec fn released(self) -> FrameModel {
        let from = self.next_emit_idx as int;
        let end = run_end(self.decoded, from as nat) as int;
        FrameModel {
            decoded: Seq::new(
                self.decoded.len(),
                |i: int|
                    if from <= i < end {
                        None
                    } else {
                        self.decoded[i]
                    },
            ),
            next_emit_idx: end as u8,
            ready: self.ready + Seq::new(
                (end - from) as nat,
                |i: int| packet_of(self.decoded[from + i]->0, self.first_us),
            ),
            ..self
        }
    }

    /// The frame once all its slices are released, at `now_us`.
    pub open spec fn advanced(self, now_us: u64) -> FrameModel {
        if self.state is Receiving && self.next_emit_idx == self.total_slices {
            FrameModel {
                state: FrameState::Complete,
                network_ready_us: if self.network_ready_us is None {
                    Some(now_us)
                } else {
                    self.network_ready_us
                },
                ..self
            }
        } else {
            self
        }
    }

    /// The frame with slice `idx` in it and read as `slice`.
    pub open spec fn with_slice(self, idx: u8, s: SliceModel, slice: VideoSliceModel, now_us: u64) -> FrameModel {
        FrameModel {
            slices: self.slices.insert(idx, SliceModel { state: SliceState::Emitted, ..s }),
            decoded: self.decoded.update(idx as int, Some(slice)),
            ..self
        }.released().advanced(now_us)
    }

    /// The tasks that a chunk gives rise to.
    pub open spec fn tasks(self, chunk: ChunkModel, seq: u64, now_us: u64) -> Seq<TaskModel> {
        let s = self.slice_after(chunk, seq, now_us);
        if self.takes(chunk) && s.state is EmittingFec {
            tasks_upto(chunk.frame_id, chunk.slice_idx, s.groups, 256)
        } else {
            Seq::empty()
        }
    }

    /// The frame with the chunk in its slice, and the slice handled as its state demands.
    pub open spec fn with_chunk(self, chunk: ChunkModel, seq: u64, now_us: u64) -> FrameModel {
        let s = self.slice_after(chunk, seq, now_us);
        match s.state {
            SliceState::EmittingFec => FrameModel {
                slices: self.slices.insert(
                    chunk.slice_idx,
                    SliceModel {
                        groups: s.groups.map_values(|g: GroupModel| decoding_started(g)),
                        ..s
                    },
                ),
                fec_submitted_us: if self.tasks(chunk, seq, now_us).len() > 0
                    && self.fec_submitted_us == 0 {
                    now_us
                } else {
                    self.fec_submitted_us
                },
                ..self
            },
            SliceState::EmittingDirect => match read_payload(s) {
                Some(slice) => self.with_slice(chunk.slice_idx, s, slice, now_us),
                None => FrameModel { slices: self.slices.insert(chunk.slice_idx, s), ..self },
            },
            _ => FrameModel { slices: self.slices.insert(chunk.slice_idx, s), ..self },
        }
    }

    /// The frame after a chunk arrived as chunk number `seq`.
    pub open spec fn inserted(self, chunk: ChunkModel, seq: u64, now_us: u64) -> FrameModel {
        let f = FrameModel { last_us: now_us, ..self };
        if !self.wants(chunk) {
            self
        } else if !self.takes(chunk) {
            f
        } else {
            let t = f.with_chunk(chunk, seq, now_us);
            FrameModel {
                collecting_done_us: if self.slice_before(chunk).with_chunk(
                    chunk,
                    seq,
                    now_us,
                ).collected() && t.collecting_done_us == 0 {
                    now_us
                } else {
                    t.collecting_done_us
                },
                ..t
            }
        }
    }

    /// The group that the chunk makes complete.
    pub open spec fn recoveries(self, chunk: ChunkModel, seq: u64, now_us: u64) -> Seq<
        GroupRecovery,
    > {
        if self.takes(chunk) {
            match self.slice_before(chunk).recovery(chunk, seq, now_us) {
                Some(r) => seq![r],
                None => Seq::empty(),
            }
        } else {
            Seq::empty()
        }
    }

    /// The chunk comes in answer to a request.
    pub open spec fn awaits(self, chunk: ChunkModel) -> bool {
        self.takes(chunk) && self.slice_before(chunk).group_before(chunk).awaits(chunk.shard_idx)
    }

    /// The group that the chunk makes stall, if it does.
    pub open spec fn stalls(self, chunk: ChunkModel, seq: u64, now_us: u64) -> Option<(u8, u8)> {
        if self.takes(chunk) {
            self.slice_before(chunk).stalls(chunk, seq, now_us)
        } else {
            None
        }
    }

    /// A reconstruction for slice `idx` is of use.
    pub open spec fn awaits_result(self, idx: u8) -> bool {
        &&& self.state is Receiving
        &&& idx < self.decoded.len()
        &&& self.decoded[idx as int] is None
        &&& self.slices.contains_key(idx)
        &&& self.slices[idx].state is EmittingFec
    }

    /// The frame after a reconstruction for slice `idx` was done.
    pub open spec fn applied(self, idx: u8, now_us: u64) -> FrameModel {
        if !self.awaits_result(idx) {
            self
        } else {
            let f = FrameModel {
                fec_done_us: if self.fec_done_us == 0 {
                    now_us
                } else {
                    self.fec_done_us
                },
                ..self
            };
            match read_payload(self.slices[idx]) {
                Some(slice) => f.with_slice(idx, self.slices[idx], slice, now_us),
                None => f,
            }
        }
    }

    /// The group that a request would be for, if it is still being collected.
    pub open spec fn open_group(self, s: u8, g: u8) -> Option<GroupModel> {
        if self.slices.contains_key(s) && self.slices[s].state is Assembling
            && self.slices[s].groups.contains_key(g) {
            Some(self.slices[s].groups[g])
        } else {
            None
        }
    }

    /// What becomes of a request for a group.
    pub open spec fn nack_decision(self, s: u8, g: u8, now_us: u64) -> NackDecision {
        match self.open_group(s, g) {
            Some(group) => if group.state.wants_nack(now_us) {
                NackDecision::Send { received_mask: group.received_mask }
            } else if group.state is Stalled || group.state is Requested {
                NackDecision::Keep
            } else {
                NackDecision::Drop
            },
            None => NackDecision::Drop,
        }
    }

    /// The frame after a request for a group was sent, if it was.
    pub open spec fn requested(self, s: u8, g: u8, now_us: u64) -> FrameModel {
        if self.nack_decision(s, g, now_us) is Send {
            let slice = self.slices[s];
            let group = GroupModel {
                state: GroupState::Requested { sent_at_us: now_us },
                ..slice.groups[g]
            };
            FrameModel {
                slices: self.slices.insert(
                    s,
                    SliceModel { groups: slice.groups.insert(g, group), ..slice },
                ),
                ..self
            }
        } else {
            self
        }
    }

    /// The packets of a frame that is given up: those of the slices released in order,
    /// the last one marked as the end and as concealed.
    pub open spec fn partial_packets(self) -> Seq<PacketModel> {
        let all = self.released().ready;
        if all.len() == 0 {
            all
        } else {
            all.update(
                all.len() - 1,
                PacketModel { is_last: true, is_concealed: true, ..all.last() },
            )
        }
    }
}

/// The slice that the payload of the groups of `s` begins with, if it can be had.
pub open spec fn read_payload(s: SliceModel) -> Option<VideoSliceModel> {
    match s.payload() {
        Some(bytes) => slice_in(bytes),
        None => None,
    }
}

impl View for FrameBuilder {
    type V = FrameModel;

    open(crate) spec fn view(&self) -> FrameModel {
        FrameModel {
            slices: slice_views(self.slices@),
            decoded: decoded_views(self.decoded_slices@),
            total_slices: self.total_slices,
            first_us: self.first_us,
            last_us: self.last_us,
            next_emit_idx: self.next_emit_idx,
            ready: packet_views(self.ready_packets@),
            state: self.state,
            network_ready_us: self.network_ready_us,
            collecting_done_us: self.collecting_done_us,
            fec_submitted_us: self.fec_submitted_us,
            fec_done_us: self.fec_done_us,
        }
    }
}

pub proof fn lemma_run_end(decoded: Seq<Option<VideoSliceModel>>, i: nat)
    requires
        i <= decoded.len(),
    ensures
        i <= run_end(decoded, i) <= decoded.len(),
    decreases decoded.len() - i,
{
    if i < decoded.len() && decoded[i as int] is Some {
        lemma_run_end(decoded, i + 1);
    }
}

proof fn lemma_released_valid(f: FrameModel)
    requires
        f.valid(),
    ensures
        f.released().valid(),
        f.released().next_emit_idx >= f.next_emit_idx,
{
    lemma_run_end(f.decoded, f.next_emit_idx as nat);
}

impl FrameModel {
    /// A frame has no more packets than slices.
    pub proof fn lemma_released_len(self)
        requires
            self.valid(),
        ensures
            self.released().ready.len() <= 255,
    {
        lemma_released_valid(self);
    }
}

/// The tasks are fit to be run.
proof fn lemma_tasks_valid(frame_id: u64, slice_idx: u8, groups: Map<u8, GroupModel>, n: nat)
    requires
        n <= 256,
        forall|g: u8| #[trigger] groups.contains_key(g) ==> groups[g].valid(),
    ensures
        forall|i: int|
            0 <= i < tasks_upto(frame_id, slice_idx, groups, n).len() ==> (#[trigger] tasks_upto(
                frame_id,
                slice_idx,
                groups,
                n,
            )[i]).valid(),
    decreases n,
{
    if n > 0 {
        lemma_tasks_valid(frame_id, slice_idx, groups, (n - 1) as nat);
        let g = (n - 1) as u8;
        let front = tasks_upto(frame_id, slice_idx, groups, (n - 1) as nat);
        let all = tasks_upto(frame_id, slice_idx, groups, n);
        if groups.contains_key(g) && groups[g].state is Decoding {
            lemma_has_code(groups[g]);
        }
        assert forall|i: int| 0 <= i < all.len() implies (#[trigger] all[i]).valid() by {
            if i < front.len() {
                assert(front[i].valid());
            }
        }
    }
}

impl FrameModel {
    /// The arrival of a chunk keeps a frame valid, and the tasks that it gives rise to are
    /// fit to be run.
    pub proof fn law_inserted_valid(self, chunk: ChunkModel, seq: u64, now_us: u64)
        requires
            self.valid(),
            chunk.k + chunk.m <= 255,
        ensures
            self.slice_before(chunk).valid(),
            self.slice_after(chunk, seq, now_us).valid(),
            self.inserted(chunk, seq, now_us).valid(),
            forall|i: int|
                0 <= i < self.tasks(chunk, seq, now_us).len() ==> (#[trigger] self.tasks(
                    chunk,
                    seq,
                    now_us,
                )[i]).valid(),
    {
        self.slice_before(chunk).law_inserted_valid(chunk, seq, now_us);
        let s = self.slice_after(chunk, seq, now_us);
        let f = FrameModel { last_us: now_us, ..self };
        lemma_tasks_valid(chunk.frame_id, chunk.slice_idx, s.groups, 256);
        if self.takes(chunk) {
            if s.state is EmittingFec {
                let t = SliceModel {
                    groups: s.groups.map_values(|g: GroupModel| decoding_started(g)),
                    ..s
                };
                assert forall|g: u8| #[trigger] t.groups.contains_key(g) implies t.groups[g].valid() by {
                    assert(s.groups.contains_key(g));
                    lemma_state_valid(s.groups[g], t.groups[g].state);
                }
                assert(t.valid());
            } else if s.state is EmittingDirect {
                match read_payload(s) {
                    Some(slice) => {
                        f.lemma_with_slice_valid(chunk.slice_idx, s, slice, now_us);
                    },
                    None => {},
                }
            }
        }
    }

    proof fn lemma_with_slice_valid(self, idx: u8, s: SliceModel, slice: VideoSliceModel, now_us: u64)
        requires
            self.valid(),
            s.valid(),
            idx < self.decoded.len(),
        ensures
            self.with_slice(idx, s, slice, now_us).valid(),
    {
        let t = SliceModel { state: SliceState::Emitted, ..s };
        assert(t.valid());
        let f = FrameModel {
            slices: self.slices.insert(idx, t),
            decoded: self.decoded.update(idx as int, Some(slice)),
            ..self
        };
        assert(f.valid());
        lemma_released_valid(f);
    }

    /// The result of a reconstruction keeps a frame valid.
    pub proof fn law_applied_valid(self, idx: u8, now_us: u64)
        requires
            self.valid(),
        ensures
            self.applied(idx, now_us).valid(),
    {
        if self.awaits_result(idx) {
            match read_payload(self.slices[idx]) {
                Some(slice) => {
                    let f = FrameModel {
                        fec_done_us: if self.fec_done_us == 0 {
                            now_us
                        } else {
                            self.fec_done_us
                        },
                        ..self
                    };
                    f.lemma_with_slice_valid(idx, self.slices[idx], slice, now_us);
                },
                None => {},
            }
        }
    }
}

/// The most that can be lost with a group: its own 255 shards.
proof fn lemma_arrived_bound(g: GroupModel, n: nat)
    requires
        g.valid(),
        n <= g.k,
    ensures
        arrived_bytes(g, n) <= n * 0xffff,
    decreases n,
{
    if n > 0 {
        lemma_arrived_bound(g, (n - 1) as nat);
    }
}

proof fn lemma_groups_bound(groups: Map<u8, GroupModel>, n: nat)
    requires
        n <= 256,
        forall|g: u8| #[trigger] groups.contains_key(g) ==> groups[g].valid(),
    ensures
        groups_waste(groups, n).groups <= n,
        groups_waste(groups, n).bytes <= n * 0xff_0000,
        groups_waste(groups, n).chunks <= n * 255,
    decreases n,
{
    if n > 0 {
        lemma_groups_bound(groups, (n - 1) as nat);
        let g = (n - 1) as u8;
        if groups.contains_key(g) {
            lemma_arrived_bound(groups[g], groups[g].k as nat);
        }
    }
}

/// What is lost with a frame is bounded by the numbers of its shards.
pub proof fn lemma_waste_bound(slices: Map<u8, SliceModel>, n: nat)
    requires
        n <= 256,
        forall|s: u8| #[trigger] slices.contains_key(s) ==> slices[s].valid(),
    ensures
        slices_waste(slices, n).groups <= n * 256,
        slices_waste(slices, n).bytes <= n * 0xff00_0000,
        slices_waste(slices, n).chunks <= n * 0xff00,
    decreases n,
{
    if n > 0 {
        lemma_waste_bound(slices, (n - 1) as nat);
        let s = (n - 1) as u8;
        if slices.contains_key(s) {
            lemma_groups_bound(slices[s].groups, 256);
        }
    }
}

impl FrameBuilder {
    /// What is lost with a group: whether it is lost, the payload bytes that had arrived,
    /// and the shards that were missing.
    fn group_wasted(gb: &GroupBuilder) -> (r: (u64, u64, u64))
        requires
            gb@.valid(),
        ensures
            r.0 == group_waste(gb@).groups,
            r.1 == group_waste(gb@).bytes,
            r.2 == group_waste(gb@).chunks,
    {
        if gb.state == GroupState::Ready {
            return (0, 0, 0);
        }
        let total_expected: u64 = gb.k as u64 + gb.m as u64;
        let lost: u64 = total_expected.saturating_sub(gb.received as u64);
        let mut wasted: u64 = 0;
        let mut i: u8 = 0;
        while i < gb.k
            invariant
                i <= gb.k,
                gb@.valid(),
                wasted == arrived_bytes(gb@, i as nat),
                wasted <= i * 0xffff,
            decreases gb.k - i,
        {
            if gb.data_shards[i as usize].is_some() {
                wasted = wasted + gb.payload_lens[i as usize] as u64;
            }
            i = i + 1;
        }
        (1, wasted, lost)
    }

    fn slice_wasted(sb: &SliceBuilder) -> (r: (u64, u64, u64))
        requires
            sb@.valid(),
        ensures
            r.0 == groups_waste(sb@.groups, 256).groups,
            r.1 == groups_waste(sb@.groups, 256).bytes,
            r.2 == groups_waste(sb@.groups, 256).chunks,
    {
        let mut failed: u64 = 0;
        let mut wasted: u64 = 0;
        let mut lost: u64 = 0;
        let mut i: u16 = 0;
        while i < 256
            invariant
                i <= 256,
                sb@.valid(),
                failed == groups_waste(sb@.groups, i as nat).groups,
                wasted == groups_waste(sb@.groups, i as nat).bytes,
                lost == groups_waste(sb@.groups, i as nat).chunks,
            decreases 256 - i,
        {
            proof {
                lemma_groups_bound(sb@.groups, (i + 1) as nat);
            }
            let key: u8 = i as u8;
            match sb.groups.get(&key) {
                Some(gb) => {
                    assert(sb@.groups.contains_key(key) && sb@.groups[key] == gb@);
                    let (f, w, l) = Self::group_wasted(gb);
                    failed = failed + f;
                    wasted = wasted + w;
                    lost = lost + l;
                },
                None => {
                    assert(!sb@.groups.contains_key(key));
                },
            }
            i = i + 1;
        }
        (failed, wasted, lost)
    }

    /// What is lost with the frame: the groups that did not become complete, the payload
    /// bytes that had arrived for them, and the shards that were missing in them.
    pub fn count_wasted(&self) -> (r: (u64, u64, u64))
        requires
            self@.valid(),
        ensures
            r.0 == self@.waste().groups,
            r.1 == self@.waste().bytes,
            r.2 == self@.waste().chunks,
    {
        let mut failed: u64 = 0;
        let mut wasted: u64 = 0;
        let mut lost: u64 = 0;
        let mut i: u16 = 0;
        while i < 256
            invariant
                i <= 256,
                self@.valid(),
                failed == slices_waste(self@.slices, i as nat).groups,
                wasted == slices_waste(self@.slices, i as nat).bytes,
                lost == slices_waste(self@.slices, i as nat).chunks,
            decreases 256 - i,
        {
            proof {
                lemma_waste_bound(self@.slices, (i + 1) as nat);
            }
            let key: u8 = i as u8;
            match self.slices.get(&key) {
                Some(sb) => {
                    assert(self@.slices.contains_key(key) && self@.slices[key] == sb@);
                    let (f, w, l) = Self::slice_wasted(sb);
                    failed = failed + f;
                    wasted = wasted + w;
                    lost = lost + l;
                },
                None => {
                    assert(!self@.slices.contains_key(key));
                },
            }
            i = i + 1;
        }
        (failed, wasted, lost)
    }

    /// Decides on a request for a group, and notes when it is sent.
    pub fn request_group(&mut self, slice_idx: u8, group_idx: u8, now_us: u64) -> (r: NackDecision)
        requires
            old(self)@.valid(),
        ensures
            r == old(self)@.nack_decision(slice_idx, group_idx, now_us),
            final(self)@ == old(self)@.requested(slice_idx, group_idx, now_us),
            final(self)@.valid(),
    {
        let ghost before = self@;
        let mut decision: NackDecision = NackDecision::Drop;
        if let Some(mut sb) = self.slices.remove(&slice_idx) {
            let ghost s = sb@;
            assert(before.slices.contains_key(slice_idx) && before.slices[slice_idx] == s);
            if sb.state == SliceState::Assembling {
                if let Some(mut gb) = sb.groups.remove(&group_idx) {
                    let ghost g = gb@;
                    assert(s.groups.contains_key(group_idx) && s.groups[group_idx] == g);
                    if gb.state.needs_nack(now_us) {
                        decision = NackDecision::Send { received_mask: gb.received_mask() };
                        gb.state = GroupState::Requested { sent_at_us: now_us };
                        proof {
                            lemma_state_valid(g, gb@.state);
                        }
                    } else if matches!(
                        gb.state,
                        GroupState::Stalled { .. } | GroupState::Requested { .. }
                    ) {
                        decision = NackDecision::Keep;
                    }
                    let ghost new = gb@;
                    sb.groups.insert(group_idx, gb);
                    assert(sb@.groups =~= s.groups.insert(group_idx, new));
                    proof {
                        if !(decision is Send) {
                            assert(sb@.groups =~= s.groups);
                        }
                    }
                } else {
                    assert(!s.groups.contains_key(group_idx));
                    assert(sb@.groups =~= s.groups);
                }
            }
            let ghost t = sb@;
            self.slices.insert(slice_idx, sb);
            assert(self@.slices =~= before.slices.insert(slice_idx, t));
            assert(self@.slices =~= before.requested(slice_idx, group_idx, now_us).slices);
        } else {
            assert(!before.slices.contains_key(slice_idx));
            assert(self@.slices =~= before.slices);
        }
        assert(self@ =~= before.requested(slice_idx, group_idx, now_us));
        decision
    }

    pub fn new(total_slices: u8, is_key: bool, receive_us: u64) -> (r: FrameBuilder)
        ensures
            r@ == new_frame(total_slices, receive_us),
            r@.valid(),
    {
        let mut decoded_slices: Vec<Option<VideoSlice>> = Vec::new();
        let mut i: u8 = 0;
        while i < total_slices
            invariant
                i <= total_slices,
                decoded_slices@.len() == i,
                forall|x: int| 0 <= x < i ==> (#[trigger] decoded_slices@[x]) is None,
            decreases total_slices - i,
        {
            decoded_slices.push(None);
            i = i + 1;
        }
        let r = FrameBuilder {
            slices: HashMap::new(),
            decoded_slices,
            total_slices,
            first_us: receive_us,
            last_us: 0,
            next_emit_idx: 0,
            ready_packets: Vec::new(),
            state: FrameState::Receiving,
            network_ready_us: None,
            collecting_done_us: 0,
            fec_submitted_us: 0,
            fec_done_us: 0,
        };
        proof {
            assert(r@.slices =~= Map::<u8, SliceModel>::empty());
            assert(r@.decoded =~= new_frame(total_slices, receive_us).decoded);
            assert(r@.ready =~= Seq::<PacketModel>::empty());
            assert(r@ =~= new_frame(total_slices, receive_us));
        }
        r
    }

    pub fn is_complete(&self) -> (r: bool)
        ensures
            r == (self@.state is Complete),
    {
        self.state == FrameState::Complete
    }

    pub fn state(&self) -> (r: FrameState)
        ensures
            r == self@.state,
    {
        self.state
    }

    /// Puts a chunk into its slice. Tells which group became complete by it, which
    /// reconstructions are to be run, whether it came in answer to a request, and which
    /// group stalls by it.
    pub fn insert_chunk(&mut self, chunk: &DatagramChunk, global_seq: u64, now_us: u64) -> (r: (
        Vec<GroupRecovery>,
        Vec<DecodeTask>,
        bool,
        Option<(u8, u8)>,
    ))
        requires
            old(self)@.valid(),
            chunk.k + chunk.m <= 255,
        ensures
            final(self)@ == old(self)@.inserted(chunk@, global_seq, now_us),
            final(self)@.valid(),
            r.0@ == old(self)@.recoveries(chunk@, global_seq, now_us),
            task_views(r.1@) == old(self)@.tasks(chunk@, global_seq, now_us),
            r.2 == old(self)@.awaits(chunk@),
            r.3 == old(self)@.stalls(chunk@, global_seq, now_us),
    {
        let ghost before = self@;
        proof {
            before.law_inserted_valid(chunk@, global_seq, now_us);
            assert(task_views(Seq::<DecodeTask>::empty()) =~= Seq::<TaskModel>::empty());
        }
        if self.state != FrameState::Receiving {
            return (Vec::new(), Vec::new(), false, None);
        }
        let slice_idx: usize = chunk.slice_idx as usize;
        if slice_idx >= self.decoded_slices.len() {
            return (Vec::new(), Vec::new(), false, None);
        }
        if self.decoded_slices[slice_idx].is_some() {
            return (Vec::new(), Vec::new(), false, None);
        }
        assert(before.wants(chunk@));
        self.last_us = now_us;
        let ghost f = self@;
        let mut recoveries: Vec<GroupRecovery> = Vec::new();
        let mut tasks: Vec<DecodeTask> = Vec::new();
        let mut sb: SliceBuilder = match self.slices.remove(&chunk.slice_idx) {
            Some(s) => s,
            None => SliceBuilder::new(chunk.total_groups),
        };
        assert(sb@ == before.slice_before(chunk@));
        if sb.state.is_terminal() {
            self.slices.insert(chunk.slice_idx, sb);
            assert(self@.slices =~= f.slices);
            return (recoveries, tasks, false, None);
        }
        let (maybe_recovery, is_nack_recovery, newly_stalled, collecting_done) = sb.insert(
            chunk,
            global_seq,
            now_us,
        );
        if let Some(recovery) = maybe_recovery {
            recoveries.push(recovery);
        }
        assert(recoveries@ =~= before.recoveries(chunk@, global_seq, now_us));
        let ghost s = sb@;
        match sb.state {
            SliceState::EmittingFec => {
                Self::start_decoding(&mut sb, chunk.frame_id, chunk.slice_idx, &mut tasks);
                if tasks.len() > 0 && self.fec_submitted_us == 0 {
                    self.fec_submitted_us = now_us;
                }
                let ghost started = sb@;
                self.slices.insert(chunk.slice_idx, sb);
                assert(self@.slices =~= f.slices.insert(chunk.slice_idx, started));
                assert(task_views(tasks@).len() == tasks@.len());
                assert(self@ =~= f.with_chunk(chunk@, global_seq, now_us));
            },
            SliceState::EmittingDirect => {
                match Self::decode_slice_sync(&sb) {
                    Some(video_slice) => {
                        assert(self@ =~= (FrameModel {
                            slices: f.slices.remove(chunk.slice_idx),
                            ..f
                        }));
                        self.accept_slice(chunk.slice_idx, sb, video_slice, now_us, Ghost(f));
                    },
                    None => {
                        self.slices.insert(chunk.slice_idx, sb);
                        assert(self@.slices =~= f.slices.insert(chunk.slice_idx, s));
                    },
                }
                assert(self@ =~= f.with_chunk(chunk@, global_seq, now_us));
            },
            _ => {
                self.slices.insert(chunk.slice_idx, sb);
                assert(self@.slices =~= f.slices.insert(chunk.slice_idx, s));
                assert(self@ =~= f.with_chunk(chunk@, global_seq, now_us));
            },
        }
        if let Some(done_us) = collecting_done {
            if self.collecting_done_us == 0 {
                self.collecting_done_us = done_us;
            }
        }
        assert(self@ =~= before.inserted(chunk@, global_seq, now_us));
        (recoveries, tasks, is_nack_recovery, newly_stalled)
    }

    /// Puts a slice back that has been read, and releases what can be released.
    fn accept_slice(
        &mut self,
        slice_idx: u8,
        mut sb: SliceBuilder,
        video_slice: VideoSlice,
        now_us: u64,
        Ghost(f): Ghost<FrameModel>,
    )
        requires
            f.valid(),
            f.state is Receiving,
            sb@.valid(),
            slice_idx < f.decoded.len(),
            old(self)@ == (FrameModel { slices: f.slices.remove(slice_idx), ..f }),
        ensures
            final(self)@ == f.with_slice(slice_idx, sb@, video_slice@, now_us),
    {
        let ghost s = sb@;
        sb.state = SliceState::Emitted;
        let ghost done = sb@;
        let ghost others = self@.slices;
        self.slices.insert(slice_idx, sb);
        self.decoded_slices[slice_idx as usize] = Some(video_slice);
        proof {
            assert(self@.slices =~= others.insert(slice_idx, done));
            assert(self@.slices =~= f.slices.insert(slice_idx, done));
            assert(self@.decoded =~= f.decoded.update(slice_idx as int, Some(video_slice@)));
        }
        let ghost g = FrameModel {
            slices: f.slices.insert(slice_idx, done),
            decoded: f.decoded.update(slice_idx as int, Some(video_slice@)),
            ..f
        };
        assert(self@ =~= g);
        assert(done =~= (SliceModel { state: SliceState::Emitted, ..s }));
        self.try_emit_ordered();
        self.try_advance_frame_state();
        if self.is_complete() {
            self.mark_ready(now_us);
        }
        assert(self@ =~= g.released().advanced(now_us));
    }

    /// Begins the reconstructions that are due.
    fn start_decoding(sb: &mut SliceBuilder, frame_id: u64, slice_idx: u8, tasks: &mut Vec<DecodeTask>)
        requires
            old(sb)@.valid(),
            old(tasks)@.len() == 0,
        ensures
            final(sb)@ == (SliceModel {
                groups: old(sb)@.groups.map_values(|g: GroupModel| decoding_started(g)),
                ..old(sb)@
            }),
            task_views(final(tasks)@) == tasks_upto(frame_id, slice_idx, old(sb)@.groups, 256),
    {
        let ghost before = sb@;
        let mut i: u16 = 0;
        assert(task_views(tasks@) =~= Seq::<TaskModel>::empty());
        while i < 256
            invariant
                i <= 256,
                before.valid(),
                sb@.total_groups == before.total_groups,
                sb@.ready_groups == before.ready_groups,
                sb@.state == before.state,
                sb@.groups.dom() == before.groups.dom(),
                forall|g: u8|
                    before.groups.contains_key(g) && g < i ==> #[trigger] sb@.groups[g]
                        == decoding_started(before.groups[g]),
                forall|g: u8|
                    before.groups.contains_key(g) && g >= i ==> #[trigger] sb@.groups[g]
                        == before.groups[g],
                task_views(tasks@) == tasks_upto(frame_id, slice_idx, before.groups, i as nat),
            decreases 256 - i,
        {
            let key: u8 = i as u8;
            let ghost now = sb@.groups;
            if let Some(mut gb) = sb.groups.remove(&key) {
                assert(now.contains_key(key));
                assert(gb@ == now[key]);
                assert(gb@ == before.groups[key]);
                if gb.state == GroupState::Decoding {
                    gb.state = GroupState::DecodingInProgress;
                    let task: DecodeTask = Self::make_decode_task_from(
                        frame_id,
                        slice_idx,
                        key,
                        &gb,
                        Ghost(before.groups[key]),
                    );
                    let ghost tasks_before = tasks@;
                    tasks.push(task);
                    assert(task_views(tasks@) =~= task_views(tasks_before).push(task@));
                }
                let ghost new = gb@;
                sb.groups.insert(key, gb);
                assert(sb@.groups =~= now.insert(key, new));
            } else {
                assert(!now.contains_key(key));
                assert(sb@.groups =~= now);
            }
            i = i + 1;
        }
        assert(sb@.groups =~= before.groups.map_values(|g: GroupModel| decoding_started(g)));
    }

    fn make_decode_task_from(
        frame_id: u64,
        slice_idx: u8,
        group_idx: u8,
        gb: &GroupBuilder,
        Ghost(due): Ghost<GroupModel>,
    ) -> (r: DecodeTask)
        requires
            due.valid(),
            gb@ == (GroupModel { state: gb@.state, ..due }),
            !gb@.state.open(),
        ensures
            r@ == task_of(frame_id, slice_idx, group_idx, due),
    {
        proof {
            lemma_state_valid(due, gb@.state);
            assert(gb@.shards() == due.shards());
        }
        let mut payload_lens: Vec<u16> = Vec::new();
        let mut i: usize = 0;
        while i < gb.payload_lens.len()
            invariant
                i <= gb.payload_lens@.len(),
                payload_lens@ == gb.payload_lens@.take(i as int),
            decreases gb.payload_lens@.len() - i,
        {
            payload_lens.push(gb.payload_lens[i]);
            i = i + 1;
            assert(payload_lens@ =~= gb.payload_lens@.take(i as int));
        }
        assert(payload_lens@ =~= gb.payload_lens@);
        DecodeTask {
            frame_id,
            slice_idx,
            group_idx,
            k: gb.k,
            m: gb.m,
            shards: gb.as_rs_shards(),
            payload_lens,
        }
    }

    /// Reads the slice that the groups of `sb` give.
    fn decode_slice_sync(sb: &SliceBuilder) -> (r: Option<VideoSlice>)
        requires
            sb@.valid(),
        ensures
            match r {
                Some(v) => read_payload(sb@) == Some(v@),
                None => read_payload(sb@) is None,
            },
    {
        match sb.get_data_sync() {
            Some(data) => read_slice(data.as_slice()),
            None => None,
        }
    }

    /// Takes note that a reconstruction for slice `slice_idx` is done: the slice is put
    /// together from its shards. Tells whether the frame is complete.
    pub fn apply_decode_result(&mut self, slice_idx: u8, now_us: u64) -> (r: bool)
        requires
            old(self)@.valid(),
        ensures
            final(self)@ == old(self)@.applied(slice_idx, now_us),
            final(self)@.valid(),
            r == (final(self)@.state is Complete),
    {
        let ghost before = self@;
        proof {
            before.law_applied_valid(slice_idx, now_us);
        }
        let idx: usize = slice_idx as usize;
        if self.state != FrameState::Receiving {
            return self.is_complete();
        }
        if idx >= self.decoded_slices.len() || self.decoded_slices[idx].is_some() {
            return self.is_complete();
        }
        let waiting: bool = match self.slices.get(&slice_idx) {
            Some(sb) => sb.state == SliceState::EmittingFec,
            None => false,
        };
        assert(waiting == before.awaits_result(slice_idx));
        if !waiting {
            return self.is_complete();
        }
        if self.fec_done_us == 0 {
            self.fec_done_us = now_us;
        }
        let ghost f = self@;
        if let Some(sb) = self.slices.remove(&slice_idx) {
            assert(sb@ == before.slices[slice_idx]);
            match Self::decode_slice_sync(&sb) {
                Some(video_slice) => {
                    assert(self@ =~= (FrameModel { slices: f.slices.remove(slice_idx), ..f }));
                    self.accept_slice(slice_idx, sb, video_slice, now_us, Ghost(f));
                },
                None => {
                    self.slices.insert(slice_idx, sb);
                    assert(self@.slices =~= f.slices);
                    assert(self@ =~= f);
                },
            }
        }
        assert(self@ =~= before.applied(slice_idx, now_us));
        self.is_complete()
    }

    /// Takes the packets out when the frame is complete.
    pub fn take_packets(&mut self) -> (r: Option<Vec<VideoPacket>>)
        ensures
            old(self)@.state is Complete ==> r is Some && packet_views(r->0@) == old(self)@.ready
                && final(self)@ == (FrameModel { ready: Seq::empty(), ..old(self)@ }),
            !(old(self)@.state is Complete) ==> r is None && final(self)@ == old(self)@,
    {
        if self.is_complete() {
            let mut out: Vec<VideoPacket> = Vec::new();
            std::mem::swap(&mut out, &mut self.ready_packets);
            assert(self@.ready =~= Seq::<PacketModel>::empty());
            Some(out)
        } else {
            None
        }
    }

    /// Releases the run of read slices that begins at the next one.
    fn try_emit_ordered(&mut self)
        requires
            old(self)@.valid(),
        ensures
            final(self)@ == old(self)@.released(),
            final(self)@.valid(),
    {
        let ghost before = self@;
        let ghost from = self.next_emit_idx as int;
        proof {
            lemma_released_valid(before);
        }
        while self.next_emit_idx < self.total_slices
            invariant
                before.valid(),
                from == before.next_emit_idx,
                from <= self@.next_emit_idx <= before.total_slices,
                run_end(before.decoded, from as nat) == run_end(
                    before.decoded,
                    self@.next_emit_idx as nat,
                ),
                self@.decoded.len() == before.decoded.len(),
                forall|i: int|
                    0 <= i < before.decoded.len() ==> #[trigger] self@.decoded[i] == if from <= i
                        < self@.next_emit_idx {
                        None
                    } else {
                        before.decoded[i]
                    },
                self@.ready == before.ready + Seq::new(
                    (self@.next_emit_idx - from) as nat,
                    |i: int| packet_of(before.decoded[from + i]->0, before.first_us),
                ),
                self@.slices == before.slices,
                self@.total_slices == before.total_slices,
                self@.first_us == before.first_us,
                self@.last_us == before.last_us,
                self@.state == before.state,
                self@.network_ready_us == before.network_ready_us,
                self@.collecting_done_us == before.collecting_done_us,
                self@.fec_submitted_us == before.fec_submitted_us,
                self@.fec_done_us == before.fec_done_us,
            ensures
                self@.next_emit_idx == run_end(before.decoded, from as nat),
            decreases before.total_slices - self@.next_emit_idx,
        {
            let idx: usize = self.next_emit_idx as usize;
            let ghost now = self@;
            let mut slot: Option<VideoSlice> = None;
            assert(now.decoded[idx as int] == before.decoded[idx as int]);
            self.decoded_slices.set_and_swap(idx, &mut slot);
            assert(self@.decoded =~= now.decoded.update(idx as int, None));
            match slot {
                Some(slice) => {
                    let ghost sv = slice@;
                    assert(now.decoded[idx as int] == Some(sv));
                    let packet: VideoPacket = Self::slice_to_packet(slice, self.first_us);
                    let ghost ready_before = self.ready_packets@;
                    self.ready_packets.push(packet);
                    self.next_emit_idx = self.next_emit_idx + 1;
                    proof {
                        assert(self@.ready =~= packet_views(ready_before).push(packet@));
                        assert(self@.ready =~= before.ready + Seq::new(
                            (self@.next_emit_idx - from) as nat,
                            |i: int| packet_of(before.decoded[from + i]->0, before.first_us),
                        ));
                    }
                },
                None => {
                    assert(now.decoded[idx as int] is None);
                    assert(self@.decoded =~= now.decoded);
                    break;
                },
            }
        }
        proof {
            assert(self@.decoded =~= before.released().decoded);
            assert(self@ =~= before.released());
        }
    }

    /// The frame is complete when its last slice has been released.
    fn try_advance_frame_state(&mut self)
        ensures
            final(self)@ == (FrameModel {
                state: if old(self)@.state is Receiving && old(self)@.next_emit_idx == old(
                    self,
                )@.total_slices {
                    FrameState::Complete
                } else {
                    old(self)@.state
                },
                ..old(self)@
            }),
    {
        if self.state == FrameState::Receiving && self.next_emit_idx == self.total_slices {
            self.state = FrameState::Complete;
        }
    }

    /// Gives the frame up and takes out the packets of the slices that can be released in
    /// order. The last of them is marked as the end of the frame and as concealed.
    pub fn take_partial_packets(&mut self) -> (r: Vec<VideoPacket>)
        requires
            old(self)@.valid(),
        ensures
            packet_views(r@) == old(self)@.partial_packets(),
            r@.len() <= old(self)@.total_slices,
            final(self)@ == (FrameModel {
                ready: Seq::empty(),
                state: FrameState::Abandoned,
                ..old(self)@.released()
            }),
    {
        let ghost before = self@;
        self.try_emit_ordered();
        let ghost mid = self@;
        assert(mid.ready.len() == self.ready_packets@.len());
        let mut out: Vec<VideoPacket> = Vec::new();
        std::mem::swap(&mut out, &mut self.ready_packets);
        assert(packet_views(out@) == mid.ready);
        if out.len() > 0 {
            let last_idx: usize = out.len() - 1;
            let ghost o = out@;
            if let Some(mut last) = out.pop() {
                assert(mid.ready[last_idx as int] == o[last_idx as int]@);
                last.is_last = true;
                last.is_concealed = true;
                out.push(last);
                assert(packet_views(out@) =~= before.partial_packets());
            }
        }
        self.state = FrameState::Abandoned;
        assert(self@.ready =~= Seq::<PacketModel>::empty());
        out
    }

    fn slice_to_packet(slice: VideoSlice, first_us: u64) -> (r: VideoPacket)
        ensures
            r@ == packet_of(slice@, first_us),
    {
        let trace: Option<FrameTrace> = match slice.trace {
            Some(t) => {
                let mut u: FrameTrace = t;
                u.receive_us = first_us;
                Some(u)
            },
            None => None,
        };
        VideoPacket {
            frame_id: slice.frame_id,
            payload: slice.payload,
            slice_idx: slice.slice_idx,
            is_key: slice.is_key,
            is_last: slice.is_last,
            is_concealed: false,
            trace,
        }
    }

    /// Notes when the frame became complete, once.
    pub fn mark_ready(&mut self, now_us: u64)
        ensures
            final(self)@ == (FrameModel {
                network_ready_us: if old(self)@.network_ready_us is None {
                    Some(now_us)
                } else {
                    old(self)@.network_ready_us
                },
                ..old(self)@
            }),
    {
        if self.network_ready_us.is_none() {
            self.network_ready_us = Some(now_us);
        }
    }
}

} // verus!
