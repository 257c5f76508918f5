//! Assembly of datagrams into frames, and the release of frames in order.
use crate::control::{ControlPacket, NackEntry};
use crate::fec::assembly_log::{
    frame_label, frame_state_label, group_label, group_snap_views, group_state_label, new_diag,
    slice_label, slice_snap_views, slice_state_label, snap_group, snap_timings, AssemblyDiag, DiagModel,
    FrameSnap, FrameSnapModel, GroupSnap, GroupSnapModel, SliceSnap, SliceSnapModel, WindowRow,
};
use crate::fec::decode_task::{task_views, ComputePool, DecodeResult, DecodeTask, TaskModel};
use crate::fec::frame_builder::{
    lemma_waste_bound, new_frame, packet_views, FrameBuilder, FrameModel, FrameState, NackDecision,
    Waste,
};
use crate::fec::group_builder::since;
use crate::fec::slice_builder::{SliceBuilder, SliceModel};
use crate::fec::stats::{no_stats, RecoveryReport, RecoveryStats};
use crate::packet::{ChunkModel, DatagramChunk, FrameTrace, PacketModel, VideoPacket};
use std::collections::{HashMap, VecDeque};
use vstd::prelude::*;

verus! {

broadcast use vstd::std_specs::hash::group_hash_axioms;

/// A frame this far behind the newest one is given up.
pub const MAX_BUFFERED_FRAMES: u64 = 512;

/// Requests that are sent for one frame at a time.
pub const NACK_BATCH_SIZE: usize = 64;

/// How long a frame may take, in microseconds.
pub const STALE_FRAME_US: u64 = 150_000;

/// After how many chunks the window of snapshots is to be dumped.
pub const WINDOW_DUMP_EVERY_N_CHUNKS: u64 = 500;

/// Length of a statistics window in microseconds.
pub const STATS_EVERY_US: u64 = 5_000_000;

/// Puts frames together from datagrams that arrive in any order, and releases them in the
/// order of their numbers.
#[derive(Debug)]
pub struct FrameAssembler {
    pub(crate) frames: HashMap<u64, FrameBuilder>,
    pub(crate) nack_queue: VecDeque<(u64, u8, u8)>,
    pub(crate) last_evicted_id: Option<u64>,
    pub(crate) next_to_push_id: Option<u64>,
    pub(crate) hol_stall_since_us: Option<u64>,
    pub(crate) compute_pool: ComputePool,
    pub(crate) stats: RecoveryStats,
    pub(crate) stats_every_us: u64,
    pub(crate) diag: AssemblyDiag,
    pub(crate) debug: bool,
    pub(crate) chunk_counter: u64,
}

/// What a [`FrameAssembler`] holds.
#[verifier::ext_equal]
pub struct AssemblerModel {
    pub frames: Map<u64, FrameModel>,
    /// Groups whose missing shards are to be asked for: frame, slice, group.
    pub nack_queue: Seq<(u64, u8, u8)>,
    /// The highest number of a frame that was given up.
    pub last_evicted: Option<u64>,
    /// The number of the frame that is released next.
    pub next: Option<u64>,
    /// Since when that frame has been waited for.
    pub stall_since: Option<u64>,
    /// Reconstructions that wait for a worker.
    pub tasks: Seq<TaskModel>,
    /// Frame and slice of the reconstructions that are done.
    pub results: Seq<(u64, u8)>,
    pub stats: RecoveryStats,
    pub stats_every_us: u64,
    pub diag: DiagModel,
    /// Snapshots are taken.
    pub debug: bool,
    /// Chunks that have arrived.
    pub chunk_counter: u64,
}

/// What the frames hold.
pub open spec fn frame_views(frames: Map<u64, FrameBuilder>) -> Map<u64, FrameModel> {
    frames.map_values(|f: FrameBuilder| f@)
}

/// Frame and slice of each result.
pub open spec fn result_views(s: Seq<DecodeResult>) -> Seq<(u64, u8)> {
    Seq::new(s.len(), |i: int| (s[i].frame_id, s[i].slice_idx))
}

/// Requests by frame.
pub open spec fn nack_views(s: Seq<ControlPacket>) -> Seq<Option<(u64, Seq<NackEntry>)>> {
    Seq::new(
        s.len(),
        |i: int|
            match s[i] {
                ControlPacket::NackBatch { frame_id, entries } => Some((frame_id, entries@)),
                _ => None,
            },
    )
}

/// A batch of requests for one frame.
pub type Batch = (u64, Seq<NackEntry>);

/// The batches, marked as present.
pub open spec fn sent_batches(s: Seq<Batch>) -> Seq<Option<Batch>> {
    Seq::new(s.len(), |i: int| Some(s[i]))
}

/// `r` is the highest of the numbers in `s` and `base`, if there is one.
pub open spec fn is_highest(s: Set<u64>, base: Option<u64>, r: Option<u64>) -> bool {
    match r {
        Some(id) => {
            &&& s.contains(id) || base == Some(id)
            &&& forall|x: u64| #[trigger] s.contains(x) ==> x <= id
            &&& base matches Some(b) ==> b <= id
        },
        None => base is None && forall|x: u64| !#[trigger] s.contains(x),
    }
}

/// The highest of the numbers in `s` and `base`, if there is one.
pub open spec fn highest(s: Set<u64>, base: Option<u64>) -> Option<u64> {
    choose|r: Option<u64>| is_highest(s, base, r)
}

proof fn lemma_highest(s: Set<u64>, base: Option<u64>, r: Option<u64>)
    requires
        is_highest(s, base, r),
    ensures
        highest(s, base) == r,
{
    let h = highest(s, base);
    assert(is_highest(s, base, h));
}

/// What is lost with all of the frames.
pub open spec fn frames_waste(frames: Map<u64, FrameModel>) -> Waste
    decreases frames.dom().len(),
{
    if frames.dom().finite() && frames.dom().len() > 0 {
        let id = frames.dom().choose();
        if frames.remove(id).dom().len() < frames.dom().len() {
            frames_waste(frames.remove(id)).plus(frames[id].waste())
        } else {
            Waste::none()
        }
    } else {
        Waste::none()
    }
}

/// It does not matter which frame is counted last.
proof fn lemma_frames_waste(frames: Map<u64, FrameModel>, id: u64)
    requires
        frames.dom().finite(),
        frames.contains_key(id),
    ensures
        frames_waste(frames) == frames_waste(frames.remove(id)).plus(frames[id].waste()),
    decreases frames.dom().len(),
{
    let c = frames.dom().choose();
    assert(frames.dom().contains(id));
    assert(frames.dom().len() > 0);
    assert(frames.dom().contains(c));
    assert(frames.remove(c).dom() =~= frames.dom().remove(c));
    assert(frames.remove(id).dom() =~= frames.dom().remove(id));
    if c != id {
        lemma_frames_waste(frames.remove(c), id);
        lemma_frames_waste(frames.remove(id), c);
        assert(frames.remove(c).remove(id) =~= frames.remove(id).remove(c));
    }
}

/// The frame is to be given up: it is out of the window or too old.
pub open spec fn is_stale(f: FrameModel, id: u64, min_frame_id: u64, now_us: u64) -> bool {
    id < min_frame_id || since(now_us, f.first_us) >= STALE_FRAME_US
}

/// The snapshots of the groups below `n`.
pub open spec fn group_snaps(s: SliceModel, n: nat) -> Seq<GroupSnapModel>
    decreases n,
{
    if n == 0 {
        Seq::empty()
    } else {
        let g = (n - 1) as u8;
        let front = group_snaps(s, (n - 1) as nat);
        if s.groups.contains_key(g) {
            let group = s.groups[g];
            front.push(
                GroupSnapModel {
                    group_idx: g,
                    k: group.k,
                    m: group.m,
                    received: group.received,
                    data_received: group.data_received,
                    received_mask: group.received_mask,
                    label: group_label(group.state),
                    first_us: group.first_us,
                },
            )
        } else {
            front
        }
    }
}

/// The snapshots of the slices below `n`.
pub open spec fn slice_snaps(f: FrameModel, n: nat) -> Seq<SliceSnapModel>
    decreases n,
{
    if n == 0 {
        Seq::empty()
    } else {
        let i = (n - 1) as u8;
        let front = slice_snaps(f, (n - 1) as nat);
        if f.slices.contains_key(i) {
            let s = f.slices[i];
            front.push(
                SliceSnapModel {
                    slice_idx: i,
                    total_groups: s.total_groups,
                    ready_groups: s.ready_groups,
                    label: slice_label(s.state),
                    groups: group_snaps(s, s.total_groups as nat),
                },
            )
        } else {
            front
        }
    }
}

/// The snapshot of a frame.
pub open spec fn frame_snap(f: FrameModel, frame_id: u64, now_us: u64, is_hol: bool) -> FrameSnapModel {
    FrameSnapModel {
        frame_id,
        total_slices: f.total_slices,
        emitted_slices: f.next_emit_idx,
        next_emit_idx: f.next_emit_idx,
        label: frame_label(f.state),
        first_us: f.first_us,
        age_us: since(now_us, f.first_us) as u64,
        is_hol,
        slices: slice_snaps(f, f.total_slices as nat),
        collecting_done_us: f.collecting_done_us,
        fec_submitted_us: f.fec_submitted_us,
        fec_done_us: f.fec_done_us,
        network_ready_us: f.network_ready_us,
    }
}

/// The packets with the times at which their frame passed the stages of the assembly.
pub open spec fn stamped(packets: Seq<PacketModel>, f: FrameModel, released_us: u64) -> Seq<
    PacketModel,
> {
    Seq::new(
        packets.len(),
        |i: int|
            PacketModel {
                trace: match packets[i].trace {
                    Some(t) => Some(
                        FrameTrace {
                            network_ready_us: match f.network_ready_us {
                                Some(r) => r,
                                None => 0,
                            },
                            hol_released_us: released_us,
                            collecting_done_us: f.collecting_done_us,
                            fec_submitted_us: f.fec_submitted_us,
                            fec_done_us: f.fec_done_us,
                            ..t
                        },
                    ),
                    None => None,
                },
                ..packets[i]
            },
    )
}

/// The state of an answer to the queue of requests: the frames, the batches to be sent,
/// and the requests that stay in the queue.
#[verifier::ext_equal]
pub struct NackRound {
    pub frames: Map<u64, FrameModel>,
    pub batches: Seq<Batch>,
    pub kept: Seq<(u64, u8, u8)>,
}

/// Where the batch for a frame stands; below zero when there is none.
pub open spec fn batch_at(batches: Seq<Batch>, frame_id: u64) -> int
    decreases batches.len(),
{
    if batches.len() == 0 {
        -1
    } else if batches.last().0 == frame_id {
        batches.len() - 1
    } else {
        batch_at(batches.drop_last(), frame_id)
    }
}

/// How many requests the batch for a frame holds.
pub open spec fn batch_len(batches: Seq<Batch>, frame_id: u64) -> nat {
    let i = batch_at(batches, frame_id);
    if i < 0 {
        0
    } else {
        batches[i].1.len()
    }
}

/// The batches with one more request. A frame without a batch gets one at the end.
pub open spec fn with_entry(batches: Seq<Batch>, frame_id: u64, e: NackEntry) -> Seq<Batch> {
    let i = batch_at(batches, frame_id);
    if i < 0 {
        batches.push((frame_id, seq![e]))
    } else {
        batches.update(i, (frame_id, batches[i].1.push(e)))
    }
}

/// What the batches hold.
pub open spec fn batch_views(s: Seq<(u64, Vec<NackEntry>)>) -> Seq<Batch> {
    Seq::new(s.len(), |i: int| (s[i].0, s[i].1@))
}

impl NackRound {
    /// One request is taken from the queue.
    pub open spec fn step(self, item: (u64, u8, u8), now_us: u64) -> NackRound {
        let (id, s, g) = item;
        if batch_len(self.batches, id) >= NACK_BATCH_SIZE {
            NackRound { kept: self.kept.push(item), ..self }
        } else if !self.frames.contains_key(id) {
            self
        } else {
            match self.frames[id].nack_decision(s, g, now_us) {
                NackDecision::Send { received_mask } => NackRound {
                    frames: self.frames.insert(id, self.frames[id].requested(s, g, now_us)),
                    batches: with_entry(
                        self.batches,
                        id,
                        NackEntry { slice_idx: s, group_idx: g, received_mask },
                    ),
                    kept: self.kept.push(item),
                },
                NackDecision::Keep => NackRound { kept: self.kept.push(item), ..self },
                NackDecision::Drop => self,
            }
        }
    }
}

/// The first `n` requests are taken from the queue.
pub open spec fn nack_round(frames: Map<u64, FrameModel>, queue: Seq<(u64, u8, u8)>, now_us: u64, n: nat) -> NackRound
    decreases n,
{
    if n == 0 {
        NackRound { frames, batches: Seq::empty(), kept: Seq::empty() }
    } else {
        nack_round(frames, queue, now_us, (n - 1) as nat).step(queue[n - 1], now_us)
    }
}

/// One step of the release of frames: the frame that is next leaves, or it is waited for.
pub struct FlushStep {
    pub after: AssemblerModel,
    pub packets: Seq<PacketModel>,
    /// The next frame is looked at, too.
    pub go_on: bool,
}

impl AssemblerModel {
    pub open spec fn valid(self) -> bool {
        &&& self.frames.dom().finite()
        &&& forall|id: u64| #[trigger]
            self.frames.contains_key(id) ==> self.frames[id].valid() && id <= u64::MAX - 2
        &&& self.last_evicted matches Some(id) ==> id <= u64::MAX - 2
        &&& self.diag.valid()
        &&& self.diag.shard_count <= self.chunk_counter
        &&& forall|i: int| 0 <= i < self.tasks.len() ==> (#[trigger] self.tasks[i]).valid()
    }

    /// The highest frame number in sight.
    pub open spec fn top(self, frame_id: u64) -> u64 {
        let a = highest(self.frames.dom(), Some(frame_id))->0;
        let b = match self.last_evicted {
            Some(id) => if a < id {
                id
            } else {
                a
            },
            None => a,
        };
        match self.next {
            Some(id) => if b < id {
                id
            } else {
                b
            },
            None => b,
        }
    }

    /// By how much one call may raise a counter: a chunk, the frames that are given up,
    /// the requests that are sent, and the frames that are passed.
    pub open spec fn budget(self, frame_id: u64) -> int {
        let passed = self.top(frame_id) + 2 - (match self.next {
            Some(id) => id,
            None => frame_id,
        });
        0x2_0000 + self.frames.dom().len() * 0x100_0000_0000 + self.nack_queue.len() + 256 * passed
    }

    /// No number can overflow in one call.
    pub open spec fn room(self, frame_id: u64) -> bool {
        &&& frame_id <= u64::MAX - 2
        &&& self.chunk_counter < u64::MAX
        &&& self.next matches Some(id) ==> id < u64::MAX
        &&& self.stats.room(self.budget(frame_id))
        &&& self.stats.rx_chunks + self.stats.lost() + 2 * self.budget(frame_id) <= u64::MAX
    }

    /// The state with the snapshot of a frame taken, if snapshots are taken.
    pub open spec fn refreshed(self, frame_id: u64, now_us: u64) -> AssemblerModel {
        if self.debug && self.frames.contains_key(frame_id) {
            AssemblerModel {
                diag: self.diag.upserted(
                    frame_snap(
                        self.frames[frame_id],
                        frame_id,
                        now_us,
                        self.next == Some(frame_id),
                    ),
                ),
                ..self
            }
        } else {
            self
        }
    }

    /// The frames that are to be given up.
    pub open spec fn stale(self, min_frame_id: u64, now_us: u64) -> Set<u64> {
        Set::new(
            |id: u64|
                self.frames.contains_key(id) && is_stale(self.frames[id], id, min_frame_id, now_us),
        )
    }

    /// The state with the stale frames given up.
    pub open spec fn evicted(self, min_frame_id: u64, now_us: u64) -> AssemblerModel {
        let gone = self.stale(min_frame_id, now_us);
        let w = frames_waste(self.frames.restrict(gone));
        AssemblerModel {
            frames: self.frames.remove_keys(gone),
            last_evicted: highest(gone, self.last_evicted),
            stats: self.stats.with_wasted(w.groups as int, w.bytes as int, w.chunks as int),
            ..self
        }
    }

    /// The frame that a chunk belongs to, before its arrival.
    pub open spec fn frame_before(self, chunk: ChunkModel, receive_us: u64) -> FrameModel {
        if self.frames.contains_key(chunk.frame_id) {
            self.frames[chunk.frame_id]
        } else {
            new_frame(chunk.total_slices, receive_us)
        }
    }

    /// The state with a chunk in its frame.
    pub open spec fn with_chunk(self, chunk: ChunkModel, receive_us: u64, now_us: u64) -> AssemblerModel {
        let id = chunk.frame_id;
        let seq = self.chunk_counter;
        let f = self.frame_before(chunk, receive_us);
        let recovered = match f.recoveries(chunk, seq, now_us) {
            s => if s.len() > 0 {
                self.stats.with_recovery(s[0])
            } else {
                self.stats
            },
        };
        AssemblerModel {
            frames: self.frames.insert(id, f.inserted(chunk, seq, now_us)),
            nack_queue: match f.stalls(chunk, seq, now_us) {
                Some((s, g)) => self.nack_queue.push((id, s, g)),
                None => self.nack_queue,
            },
            tasks: self.tasks + f.tasks(chunk, seq, now_us),
            stats: recovered.with_chunk(chunk, f.awaits(chunk), false),
            stall_since: if self.next == Some(id) {
                None
            } else {
                self.stall_since
            },
            ..self
        }
    }

    /// The state with the first `n` results applied.
    pub open spec fn applied(self, results: Seq<(u64, u8)>, receive_us: u64, now_us: u64, n: nat) -> AssemblerModel
        decreases n,
    {
        if n == 0 {
            self
        } else {
            let a = self.applied(results, receive_us, now_us, (n - 1) as nat);
            let (id, s) = results[n - 1];
            if a.frames.contains_key(id) && a.frames[id].state is Receiving {
                AssemblerModel {
                    frames: a.frames.insert(id, a.frames[id].applied(s, now_us)),
                    ..a
                }.refreshed(id, receive_us)
            } else {
                a
            }
        }
    }

    /// The state with all results applied and taken out.
    pub open spec fn with_results(self, receive_us: u64, now_us: u64) -> AssemblerModel {
        AssemblerModel { results: Seq::empty(), ..self }.applied(
            self.results,
            receive_us,
            now_us,
            self.results.len(),
        )
    }

    /// The requests that are due.
    pub open spec fn nacks(self, now_us: u64) -> NackRound {
        nack_round(self.frames, self.nack_queue, now_us, self.nack_queue.len())
    }

    /// The state after the requests that are due have been sent.
    pub open spec fn with_nacks(self, now_us: u64) -> AssemblerModel {
        let round = self.nacks(now_us);
        AssemblerModel {
            frames: round.frames,
            nack_queue: round.kept,
            stats: RecoveryStats {
                nacks_sent: (self.stats.nacks_sent + round.batches.len()) as u64,
                ..self.stats
            },
            ..self
        }
    }

    /// The next frame is passed.
    pub open spec fn passed(self) -> AssemblerModel {
        AssemblerModel {
            next: Some((self.next->0 + 1) as u64),
            stall_since: None,
            ..self
        }
    }

    /// Since when the next frame has been waited for, if it is not there at `now_us`.
    pub open spec fn waiting_since(self, now_us: u64) -> u64 {
        match self.stall_since {
            Some(t) => t,
            None => now_us,
        }
    }

    /// What is done about the frame that is released next. A complete one leaves. One that
    /// has been waited for too long leaves with what is there of it. One that was given up
    /// before or that fell out of the window is passed.
    pub open spec fn flush_step(self, min_frame_id: u64, now_us: u64) -> FlushStep {
        let id = self.next->0;
        let waited = since(now_us, self.waiting_since(now_us));
        let waits = FlushStep {
            after: AssemblerModel {
                stall_since: Some(self.waiting_since(now_us)),
                ..self
            },
            packets: Seq::empty(),
            go_on: false,
        };
        if self.frames.contains_key(id) {
            let f = self.frames[id];
            let gone = AssemblerModel { frames: self.frames.remove(id), ..self };
            if f.state is Complete {
                FlushStep {
                    after: AssemblerModel {
                        stats: self.stats.with_frame_emitted(f.ready.len() as int),
                        ..gone
                    }.passed(),
                    packets: stamped(f.ready, f, now_us),
                    go_on: true,
                }
            } else if waited >= STALE_FRAME_US {
                let packets = f.partial_packets();
                let stats = self.stats.with_lost_timeout();
                FlushStep {
                    after: AssemblerModel {
                        stats: (if packets.len() > 0 {
                            stats.with_frame_emitted(packets.len() as int)
                        } else {
                            stats
                        }).with_partial(),
                        ..gone
                    }.passed(),
                    packets: stamped(packets, f, now_us),
                    go_on: true,
                }
            } else {
                waits
            }
        } else {
            let was_evicted = self.last_evicted matches Some(e) && id <= e;
            let out_of_window = id < min_frame_id;
            if was_evicted || out_of_window {
                let a = if was_evicted {
                    self.stats.with_lost_evicted()
                } else {
                    self.stats
                };
                let b = if out_of_window {
                    a.with_lost_out_of_window()
                } else {
                    a
                };
                FlushStep {
                    after: AssemblerModel { stats: b, ..self }.passed(),
                    packets: Seq::empty(),
                    go_on: true,
                }
            } else if waited >= STALE_FRAME_US {
                FlushStep {
                    after: AssemblerModel {
                        stats: self.stats.with_lost_timeout(),
                        ..self
                    }.passed(),
                    packets: Seq::empty(),
                    go_on: true,
                }
            } else {
                waits
            }
        }
    }

    /// The state after the frames have been released that can be, and their packets.
    pub open spec fn flushed(self, min_frame_id: u64, now_us: u64) -> (
        AssemblerModel,
        Seq<PacketModel>,
    )
        decreases
            match self.next {
                Some(id) => u64::MAX - id,
                None => 0,
            },
    {
        match self.next {
            None => (self, Seq::empty()),
            Some(id) => {
                let step = self.flush_step(min_frame_id, now_us);
                if step.go_on && id < u64::MAX && step.after.next == Some((id + 1) as u64) {
                    let rest = step.after.flushed(min_frame_id, now_us);
                    (rest.0, step.packets + rest.1)
                } else {
                    (step.after, Seq::empty())
                }
            },
        }
    }
}

/// What a call brings about.
pub struct Outcome {
    pub after: AssemblerModel,
    /// The packets of the released frames, in order.
    pub packets: Seq<PacketModel>,
    /// The requests to be sent.
    pub nacks: Seq<Batch>,
    /// The report on a statistics window that is over.
    pub report: Option<RecoveryReport>,
}

/// The oldest frame that is still in the window of `frame_id`.
pub open spec fn window_start(frame_id: u64) -> u64 {
    if frame_id < MAX_BUFFERED_FRAMES {
        0
    } else {
        (frame_id - MAX_BUFFERED_FRAMES) as u64
    }
}

impl AssemblerModel {
    /// The state with a chunk counted. The first chunk tells which frame is released
    /// first.
    pub open spec fn counted(self, frame_id: u64) -> AssemblerModel {
        AssemblerModel {
            chunk_counter: (self.chunk_counter + 1) as u64,
            diag: DiagModel { shard_count: (self.diag.shard_count + 1) as u64, ..self.diag },
            next: match self.next {
                Some(id) => Some(id),
                None => Some(frame_id),
            },
            ..self
        }
    }

    /// The state with the chunk taken in, up to the question whether a report is due.
    pub open spec fn taken(self, chunk: ChunkModel, receive_us: u64, now_us: u64) -> AssemblerModel {
        self.counted(chunk.frame_id).evicted(
            window_start(chunk.frame_id),
            receive_us,
        ).with_chunk(chunk, receive_us, now_us).refreshed(chunk.frame_id, receive_us)
    }

    /// What the arrival of a chunk brings about. A chunk of a frame that has been passed is
    /// only counted. Else frames are given up that are out of its window or too old, the
    /// chunk is put into its frame, results are applied, requests that are due are sent,
    /// and frames are released.
    pub open spec fn inserted(self, chunk: ChunkModel, receive_us: u64, now_us: u64) -> Outcome {
        let a = self.counted(chunk.frame_id);
        if chunk.frame_id < a.next->0 {
            Outcome {
                after: AssemblerModel { stats: a.stats.with_chunk(chunk, false, true), ..a },
                packets: Seq::empty(),
                nacks: Seq::empty(),
                report: None,
            }
        } else {
            let b = self.taken(chunk, receive_us, now_us);
            let c = AssemblerModel {
                stats: b.stats.after_log(receive_us, b.stats_every_us),
                ..b
            }.with_results(receive_us, now_us);
            let (d, packets) = c.with_nacks(receive_us).flushed(
                window_start(chunk.frame_id),
                now_us,
            );
            Outcome {
                after: d,
                packets,
                nacks: c.nacks(receive_us).batches,
                report: if b.stats.is_due(receive_us, b.stats_every_us) {
                    Some(b.stats.report(receive_us))
                } else {
                    None
                },
            }
        }
    }

    /// The frame that is released next, as far as one is known.
    pub open spec fn head(self) -> u64 {
        match self.next {
            Some(id) => id,
            None => 0,
        }
    }

    /// What a look at the assembler without a chunk brings about: results are applied,
    /// frames are released, and requests that are due are sent.
    pub open spec fn polled(self, now_us: u64) -> Outcome {
        let a = self.with_results(now_us, now_us);
        let (b, packets) = a.flushed(window_start(self.head()), now_us);
        Outcome {
            after: b.with_nacks(now_us),
            packets,
            nacks: b.nacks(now_us).batches,
            report: None,
        }
    }
}

/// A finite set has a highest number.
pub proof fn lemma_highest_exists(s: Set<u64>, base: Option<u64>)
    requires
        s.finite(),
    ensures
        is_highest(s, base, highest(s, base)),
    decreases s.len(),
{
    if exists|x: u64| s.contains(x) {
        let x = choose|x: u64| s.contains(x);
        let t = s.remove(x);
        lemma_highest_exists(t, base);
        let r = highest(t, base);
        let h = match r {
            Some(id) => if id < x {
                Some(x)
            } else {
                r
            },
            None => Some(x),
        };
        assert forall|y: u64| #[trigger] s.contains(y) implies y <= h->0 by {
            if y != x {
                assert(t.contains(y));
            }
        }
        assert(is_highest(s, base, h));
    } else {
        assert(is_highest(s, base, base));
    }
}

impl AssemblerModel {
    /// The highest frame number in sight is above all others.
    proof fn lemma_top(self, frame_id: u64)
        requires
            self.frames.dom().finite(),
        ensures
            frame_id <= self.top(frame_id),
            forall|id: u64| #[trigger]
                self.frames.contains_key(id) ==> id <= self.top(frame_id),
            self.last_evicted matches Some(e) ==> e <= self.top(frame_id),
            self.next matches Some(id) ==> id <= self.top(frame_id),
    {
        lemma_highest_exists(self.frames.dom(), Some(frame_id));
        assert forall|id: u64| #[trigger] self.frames.contains_key(id) implies id <= self.top(
            frame_id,
        ) by {
            assert(self.frames.dom().contains(id));
        }
    }
}

impl View for FrameAssembler {
    type V = AssemblerModel;

    open(crate) spec fn view(&self) -> AssemblerModel {
        AssemblerModel {
            frames: frame_views(self.frames@),
            nack_queue: self.nack_queue@,
            last_evicted: self.last_evicted_id,
            next: self.next_to_push_id,
            stall_since: self.hol_stall_since_us,
            tasks: task_views(self.compute_pool.tasks@),
            results: result_views(self.compute_pool.results@),
            stats: self.stats,
            stats_every_us: self.stats_every_us,
            diag: self.diag@,
            debug: self.debug,
            chunk_counter: self.chunk_counter,
        }
    }
}

/// An assembler that has seen nothing.
pub open spec fn new_assembler() -> AssemblerModel {
    AssemblerModel {
        frames: Map::empty(),
        nack_queue: Seq::empty(),
        last_evicted: None,
        next: None,
        stall_since: None,
        tasks: Seq::empty(),
        results: Seq::empty(),
        stats: no_stats(),
        stats_every_us: STATS_EVERY_US,
        diag: new_diag(),
        debug: false,
        chunk_counter: 0,
    }
}

/// The bytes of a frame, and with them all that is lost with it, stay below this number.
pub const FRAME_WASTE: u64 = 0x100_0000_0000;

proof fn lemma_batch_at(batches: Seq<Batch>, frame_id: u64)
    ensures
        -1 <= batch_at(batches, frame_id) < batches.len(),
        batch_at(batches, frame_id) >= 0 ==> batches[batch_at(batches, frame_id)].0 == frame_id,
    decreases batches.len(),
{
    if batches.len() > 0 && batches.last().0 != frame_id {
        lemma_batch_at(batches.drop_last(), frame_id);
    }
}

proof fn lemma_push_contains(s: Seq<u64>, a: u64)
    ensures
        forall|x: u64| #[trigger] s.push(a).contains(x) <==> s.contains(x) || x == a,
{
    assert forall|x: u64| #[trigger] s.push(a).contains(x) <==> s.contains(x) || x == a by {
        let t = s.push(a);
        if s.contains(x) {
            let j = choose|j: int| 0 <= j < s.len() && s[j] == x;
            assert(t[j] == x);
        }
        assert(t[s.len() as int] == a);
        if t.contains(x) {
            let j = choose|j: int| 0 <= j < t.len() && t[j] == x;
            if j < s.len() {
                assert(s[j] == x);
            }
        }
    }
}

/// Where the batch for a frame stands.
fn find_batch(batches: &Vec<(u64, Vec<NackEntry>)>, frame_id: u64) -> (r: Option<usize>)
    ensures
        match r {
            Some(i) => i < batches@.len() && batch_at(batch_views(batches@), frame_id) == i,
            None => batch_at(batch_views(batches@), frame_id) < 0,
        },
{
    let ghost v = batch_views(batches@);
    let mut i: usize = batches.len();
    assert(v.take(i as int) =~= v);
    while i > 0
        invariant
            i <= batches@.len(),
            v == batch_views(batches@),
            batch_at(v, frame_id) == batch_at(v.take(i as int), frame_id),
        decreases i,
    {
        assert(v.take(i as int).drop_last() =~= v.take(i - 1));
        if batches[i - 1].0 == frame_id {
            return Some(i - 1);
        }
        i = i - 1;
    }
    None
}

/// Adds a request to the batch of its frame.
fn add_entry(batches: &mut Vec<(u64, Vec<NackEntry>)>, frame_id: u64, e: NackEntry)
    ensures
        batch_views(final(batches)@) == with_entry(batch_views(old(batches)@), frame_id, e),
{
    let ghost before = batch_views(batches@);
    match find_batch(batches, frame_id) {
        Some(i) => {
            batches[i].1.push(e);
            proof {
                lemma_batch_at(before, frame_id);
                assert(batch_views(batches@) =~= with_entry(before, frame_id, e));
            }
        },
        None => {
            let mut entries: Vec<NackEntry> = Vec::new();
            entries.push(e);
            batches.push((frame_id, entries));
            assert(entries@ =~= seq![e]);
            assert(batch_views(batches@) =~= with_entry(before, frame_id, e));
        },
    }
}

/// Enters the times at which a frame passed the stages of the assembly into its packets.
fn stamp(
    packets: &mut Vec<VideoPacket>,
    ready_us: u64,
    released_us: u64,
    collecting_done_us: u64,
    fec_submitted_us: u64,
    fec_done_us: u64,
    Ghost(f): Ghost<FrameModel>,
)
    requires
        ready_us == (match f.network_ready_us {
            Some(r) => r,
            None => 0,
        }),
        collecting_done_us == f.collecting_done_us,
        fec_submitted_us == f.fec_submitted_us,
        fec_done_us == f.fec_done_us,
    ensures
        packet_views(final(packets)@) == stamped(packet_views(old(packets)@), f, released_us),
        final(packets)@.len() == old(packets)@.len(),
{
    let ghost before = packet_views(packets@);
    let mut i: usize = 0;
    while i < packets.len()
        invariant
            i <= packets@.len(),
            packets@.len() == before.len(),
            ready_us == (match f.network_ready_us {
                Some(r) => r,
                None => 0,
            }),
            collecting_done_us == f.collecting_done_us,
            fec_submitted_us == f.fec_submitted_us,
            fec_done_us == f.fec_done_us,
            forall|x: int|
                0 <= x < i ==> (#[trigger] packets@[x])@ == stamped(before, f, released_us)[x],
            forall|x: int| i <= x < packets@.len() ==> (#[trigger] packets@[x])@ == before[x],
        decreases packets@.len() - i,
    {
        let trace: Option<FrameTrace> = packets[i].trace;
        if let Some(t) = trace {
            let mut u: FrameTrace = t;
            u.network_ready_us = ready_us;
            u.hol_released_us = released_us;
            u.collecting_done_us = collecting_done_us;
            u.fec_submitted_us = fec_submitted_us;
            u.fec_done_us = fec_done_us;
            packets[i].trace = Some(u);
        }
        assert(packets@[i as int]@ =~= stamped(before, f, released_us)[i as int]);
        i = i + 1;
    }
    assert(packet_views(packets@) =~= stamped(before, f, released_us));
}

impl FrameAssembler {
    /// The numbers of the frames.
    fn frame_ids(&self) -> (r: Vec<u64>)
        ensures
            r@.no_duplicates(),
            r@.to_set() == self@.frames.dom(),
    {
        let mut out: Vec<u64> = Vec::new();
        for id in it: self.frames.keys()
            invariant
                it.seq().unref().to_set() == self.frames@.dom(),
                out@ == it.seq().unref().take(it.index()),
                forall|x: u64| #[trigger]
                    self.frames@.dom().contains(x) ==> out@.contains(x) || exists|i: int|
                        it.index() <= i < it.seq().len() && #[trigger] it.seq().unref()[i] == x,
                forall|x: u64| #[trigger] out@.contains(x) ==> self.frames@.dom().contains(x),
        {
            let ghost before = out@;
            let ghost all = it.seq().unref();
            assert(all.to_set().contains(all[it.index()]));
            out.push(*id);
            assert(out@ =~= all.take(it.index() + 1));
            assert forall|x: u64| #[trigger] self.frames@.dom().contains(x) implies out@.contains(x)
                || exists|i: int| it.index() + 1 <= i < it.seq().len() && #[trigger] all[i] == x by {
                if before.contains(x) {
                    let i = choose|i: int| 0 <= i < before.len() && before[i] == x;
                    assert(out@[i] == x);
                } else {
                    let i = choose|i: int|
                        it.index() <= i < it.seq().len() && #[trigger] all[i] == x;
                    if i == it.index() {
                        assert(out@[before.len() as int] == x);
                    }
                }
            }
            assert forall|x: u64| #[trigger] out@.contains(x) implies self.frames@.dom().contains(
                x,
            ) by {
                let i = choose|i: int| 0 <= i < out@.len() && out@[i] == x;
                if i < before.len() {
                    assert(before[i] == x);
                }
            }
        }
        assert(out@.to_set() =~= self.frames@.dom());
        assert(self@.frames.dom() =~= self.frames@.dom());
        out
    }

    pub fn new() -> (r: FrameAssembler)
        ensures
            r@ == new_assembler(),
            r@.valid(),
    {
        let r = FrameAssembler {
            frames: HashMap::new(),
            nack_queue: VecDeque::new(),
            last_evicted_id: None,
            next_to_push_id: None,
            hol_stall_since_us: None,
            compute_pool: ComputePool::new(),
            stats: RecoveryStats::default(),
            stats_every_us: STATS_EVERY_US,
            diag: AssemblyDiag::new(),
            debug: false,
            chunk_counter: 0,
        };
        proof {
            assert(r@.frames =~= Map::<u64, FrameModel>::empty());
            assert(r@.tasks =~= Seq::<TaskModel>::empty());
            assert(r@.results =~= Seq::<(u64, u8)>::empty());
            assert(r@ =~= new_assembler());
        }
        r
    }

    /// The snapshots of the groups of a slice.
    fn snap_groups(sb: &SliceBuilder) -> (r: Vec<GroupSnap>)
        ensures
            group_snap_views(r@) == group_snaps(sb@, sb@.total_groups as nat),
    {
        let mut out: Vec<GroupSnap> = Vec::new();
        let mut g: u8 = 0;
        assert(group_snap_views(out@) =~= group_snaps(sb@, 0));
        while g < sb.total_groups
            invariant
                g <= sb.total_groups,
                group_snap_views(out@) == group_snaps(sb@, g as nat),
            decreases sb.total_groups - g,
        {
            match sb.groups.get(&g) {
                Some(gb) => {
                    assert(sb@.groups.contains_key(g) && sb@.groups[g] == gb@);
                    let ghost before = out@;
                    let snap: GroupSnap = snap_group(
                        g,
                        gb.k,
                        gb.m,
                        gb.received,
                        gb.data_received,
                        gb.received_mask(),
                        group_state_label(&gb.state),
                        gb.first_us,
                    );
                    out.push(snap);
                    assert(group_snap_views(out@) =~= group_snap_views(before).push(snap@));
                },
                None => {
                    assert(!sb@.groups.contains_key(g));
                },
            }
            g = g + 1;
        }
        out
    }

    /// The snapshots of the slices of a frame.
    fn snap_slices(fb: &FrameBuilder) -> (r: Vec<SliceSnap>)
        ensures
            slice_snap_views(r@) == slice_snaps(fb@, fb@.total_slices as nat),
    {
        let mut out: Vec<SliceSnap> = Vec::new();
        let mut i: u8 = 0;
        assert(slice_snap_views(out@) =~= slice_snaps(fb@, 0));
        while i < fb.total_slices
            invariant
                i <= fb.total_slices,
                slice_snap_views(out@) == slice_snaps(fb@, i as nat),
            decreases fb.total_slices - i,
        {
            match fb.slices.get(&i) {
                Some(sb) => {
                    assert(fb@.slices.contains_key(i) && fb@.slices[i] == sb@);
                    let ghost before = out@;
                    let snap = SliceSnap {
                        slice_idx: i,
                        total_groups: sb.total_groups,
                        ready_groups: sb.ready_groups,
                        state_label: slice_state_label(&sb.state),
                        groups: Self::snap_groups(sb),
                    };
                    out.push(snap);
                    assert(slice_snap_views(out@) =~= slice_snap_views(before).push(snap@));
                },
                None => {
                    assert(!fb@.slices.contains_key(i));
                },
            }
            i = i + 1;
        }
        out
    }

    /// Takes a snapshot of a frame, if snapshots are taken.
    fn refresh_snap(&mut self, frame_id: u64, now_us: u64)
        requires
            old(self)@.valid(),
        ensures
            final(self)@ == old(self)@.refreshed(frame_id, now_us),
            final(self)@.valid(),
    {
        let ghost before = self@;
        if !self.debug {
            return ;
        }
        let snap: FrameSnap = match self.frames.get(&frame_id) {
            Some(fb) => {
                assert(before.frames.contains_key(frame_id) && before.frames[frame_id] == fb@);
                FrameSnap {
                    frame_id,
                    total_slices: fb.total_slices,
                    emitted_slices: fb.next_emit_idx,
                    next_emit_idx: fb.next_emit_idx,
                    state_label: frame_state_label(&fb.state),
                    first_us: fb.first_us,
                    age_us: now_us.saturating_sub(fb.first_us),
                    is_hol: self.next_to_push_id == Some(frame_id),
                    slices: Self::snap_slices(fb),
                    collecting_done_us: fb.collecting_done_us,
                    fec_submitted_us: fb.fec_submitted_us,
                    fec_done_us: fb.fec_done_us,
                    network_ready_us: fb.network_ready_us,
                }
            },
            None => {
                assert(!before.frames.contains_key(frame_id));
                return ;
            },
        };
        assert(snap@ =~= frame_snap(
            before.frames[frame_id],
            frame_id,
            now_us,
            before.next == Some(frame_id),
        ));
        self.diag.upsert_frame(snap);
    }

    /// Gives up the frames that are out of the window or too old.
    fn evict_stale(&mut self, min_frame_id: u64, now_us: u64)
        requires
            old(self)@.valid(),
            old(self)@.stats.room(old(self)@.frames.dom().len() * FRAME_WASTE),
        ensures
            final(self)@ == old(self)@.evicted(min_frame_id, now_us),
            final(self)@.valid(),
            final(self)@.frames.dom().subset_of(old(self)@.frames.dom()),
            final(self)@.stats.total_lost_chunks <= old(self)@.stats.total_lost_chunks + old(
                self,
            )@.frames.dom().len() * FRAME_WASTE,
            forall|rest: int| #[trigger]
                old(self)@.stats.room(old(self)@.frames.dom().len() * FRAME_WASTE + rest) && rest
                    >= 0 ==> final(self)@.stats.room(rest),
    {
        let ghost before = self@;
        let ghost stale = before.stale(min_frame_id, now_us);
        let ghost mut gone: Set<u64> = Set::empty();
        let ids: Vec<u64> = self.frame_ids();
        proof {
            ids@.unique_seq_to_set();
            assert(before.frames.restrict(gone) =~= Map::<u64, FrameModel>::empty());
            assert(before.frames.remove_keys(gone) =~= before.frames);
        }
        let mut i: usize = 0;
        while i < ids.len()
            invariant
                i <= ids@.len(),
                before.valid(),
                ids@.no_duplicates(),
                ids@.to_set() == before.frames.dom(),
                ids@.len() == before.frames.dom().len(),
                stale == before.stale(min_frame_id, now_us),
                forall|x: u64| #[trigger]
                    gone.contains(x) <==> stale.contains(x) && ids@.take(i as int).contains(x),
                self@.frames == before.frames.remove_keys(gone),
                is_highest(gone, before.last_evicted, self@.last_evicted),
                before.stats.room(before.frames.dom().len() * FRAME_WASTE),
                ({
                    let w = frames_waste(before.frames.restrict(gone));
                    &&& self@.stats == before.stats.with_wasted(
                        w.groups as int,
                        w.bytes as int,
                        w.chunks as int,
                    )
                    &&& w.groups <= i * FRAME_WASTE
                    &&& w.bytes <= i * FRAME_WASTE
                    &&& w.chunks <= i * FRAME_WASTE
                }),
                self@ == (AssemblerModel {
                    frames: self@.frames,
                    last_evicted: self@.last_evicted,
                    stats: self@.stats,
                    ..before
                }),
            decreases ids@.len() - i,
        {
            let id: u64 = ids[i];
            let ghost taken = ids@.take(i as int);
            proof {
                assert(ids@.to_set().contains(id));
                assert(before.frames.contains_key(id));
                assert(ids@.take(i + 1) =~= taken.push(id));
                assert(!taken.contains(id)) by {
                    if taken.contains(id) {
                        let j = choose|j: int| 0 <= j < taken.len() && taken[j] == id;
                        assert(ids@[j] == ids@[i as int]);
                    }
                }
                assert(self@.frames.contains_key(id));
                lemma_push_contains(taken, id);
            }
            let drop: bool = match self.frames.get(&id) {
                Some(fb) => {
                    assert(fb@ == self@.frames[id]);
                    id < min_frame_id || now_us.saturating_sub(fb.first_us) >= STALE_FRAME_US
                },
                None => false,
            };
            assert(drop == stale.contains(id));
            if drop {
                let ghost frames_now = self@.frames;
                if let Some(builder) = self.frames.remove(&id) {
                    assert(builder@ == before.frames[id]);
                    let (failed_groups, wasted_bytes, lost_chunks) = builder.count_wasted();
                    let ghost more = gone.insert(id);
                    proof {
                        assert(self@.frames =~= frames_now.remove(id));
                        assert(self@.frames =~= before.frames.remove_keys(more));
                        lemma_waste_bound(before.frames[id].slices, 256);
                        let m = before.frames.restrict(more);
                        assert(m.dom() =~= before.frames.dom().intersect(more));
                        assert(m.remove(id) =~= before.frames.restrict(gone));
                        lemma_frames_waste(m, id);
                        assert(i * FRAME_WASTE + FRAME_WASTE <= before.frames.dom().len()
                            * FRAME_WASTE);
                    }
                    self.stats.note_wasted(failed_groups, wasted_bytes, lost_chunks);
                    self.last_evicted_id = match self.last_evicted_id {
                        Some(e) => if e < id {
                            Some(id)
                        } else {
                            Some(e)
                        },
                        None => Some(id),
                    };
                    proof {
                        gone = more;
                    }
                }
            }
            i = i + 1;
        }
        proof {
            assert(ids@.take(i as int) =~= ids@);
            assert(gone =~= stale) by {
                assert forall|x: u64| stale.contains(x) implies gone.contains(x) by {
                    assert(before.frames.dom().contains(x));
                    assert(ids@.to_set().contains(x));
                }
            }
            lemma_highest(gone, before.last_evicted, self@.last_evicted);
            assert(self@ =~= before.evicted(min_frame_id, now_us));
            assert forall|x: u64| #[trigger] self@.frames.contains_key(x) implies self@.frames[x].valid()
                && x <= u64::MAX - 2 by {
                assert(before.frames.contains_key(x));
                assert(self@.frames[x] == before.frames[x]);
            }
            assert(self@.frames.dom().subset_of(before.frames.dom()));
            match self@.last_evicted {
                Some(e) => {
                    if gone.contains(e) {
                        assert(before.frames.contains_key(e));
                    }
                },
                None => {},
            }
        }
    }

    /// Puts a chunk into its frame.
    fn insert_into_frame(&mut self, chunk: &DatagramChunk, receive_us: u64, now_us: u64)
        requires
            old(self)@.valid(),
            chunk.k + chunk.m <= 255,
            chunk.frame_id <= u64::MAX - 2,
            old(self)@.stats.room(0x1_ffff),
        ensures
            final(self)@ == old(self)@.with_chunk(chunk@, receive_us, now_us),
            final(self)@.valid(),
            final(self)@.frames.dom() == old(self)@.frames.dom().insert(chunk.frame_id),
            final(self)@.stats.rx_chunks <= old(self)@.stats.rx_chunks + 1,
            final(self)@.stats.total_lost_chunks <= old(self)@.stats.total_lost_chunks + 255,
            forall|rest: int| #[trigger]
                old(self)@.stats.room(0x1_ffff + rest) && rest >= 0 ==> final(self)@.stats.room(
                    rest,
                ),
    {
        let ghost before = self@;
        let ghost f = before.frame_before(chunk@, receive_us);
        let ghost seq = before.chunk_counter;
        let frame_id: u64 = chunk.frame_id;
        let mut builder: FrameBuilder = match self.frames.remove(&frame_id) {
            Some(fb) => fb,
            None => {
                let is_key: bool = (chunk.flags & 1) != 0;
                FrameBuilder::new(chunk.total_slices, is_key, receive_us)
            },
        };
        assert(builder@ == f);
        proof {
            f.law_inserted_valid(chunk@, seq, now_us);
        }
        let (recoveries, tasks, is_nack_recovery, newly_stalled) = builder.insert_chunk(
            chunk,
            self.chunk_counter,
            now_us,
        );
        let ghost after = builder@;
        self.frames.insert(frame_id, builder);
        assert(self@.frames =~= before.frames.insert(frame_id, after));
        if let Some((slice_idx, group_idx)) = newly_stalled {
            self.nack_queue.push_back((frame_id, slice_idx, group_idx));
        }
        if recoveries.len() > 0 {
            self.stats.note_group_recovery(recoveries[0]);
        }
        self.submit_all(tasks);
        self.stats.note_chunk(chunk, is_nack_recovery, false);
        if self.next_to_push_id == Some(frame_id) {
            self.hol_stall_since_us = None;
        }
        proof {
            assert(self@.tasks =~= before.tasks + f.tasks(chunk@, seq, now_us));
            assert(self@ =~= before.with_chunk(chunk@, receive_us, now_us));
            assert(self@.frames.dom() =~= before.frames.dom().insert(frame_id));
            assert forall|i: int| 0 <= i < self@.tasks.len() implies (
            #[trigger] self@.tasks[i]).valid() by {
                if i < before.tasks.len() {
                    assert(self@.tasks[i] == before.tasks[i]);
                } else {
                    assert(self@.tasks[i] == f.tasks(chunk@, seq, now_us)[i - before.tasks.len()]);
                }
            }
        }
    }

    /// Hands the tasks to the workers.
    fn submit_all(&mut self, tasks: Vec<DecodeTask>)
        ensures
            final(self)@ == (AssemblerModel {
                tasks: old(self)@.tasks + task_views(tasks@),
                ..old(self)@
            }),
    {
        let ghost before = self@;
        let ghost pool = self.compute_pool.tasks@;
        let mut tasks: Vec<DecodeTask> = tasks;
        let ghost all = tasks@;
        self.compute_pool.tasks.append(&mut tasks);
        assert(self@.tasks =~= before.tasks + task_views(all));
        assert(self@ =~= (AssemblerModel { tasks: before.tasks + task_views(all), ..before }));
    }

    /// Applies the results of reconstructions that are there.
    fn apply_results(&mut self, receive_us: u64, now_us: u64)
        requires
            old(self)@.valid(),
        ensures
            final(self)@ == old(self)@.with_results(receive_us, now_us),
            final(self)@.valid(),
            final(self)@.frames.dom() == old(self)@.frames.dom(),
            final(self)@.stats == old(self)@.stats,
            final(self)@.nack_queue == old(self)@.nack_queue,
            final(self)@.next == old(self)@.next,
            final(self)@.last_evicted == old(self)@.last_evicted,
    {
        let ghost before = self@;
        let results: Vec<DecodeResult> = self.compute_pool.drain_results();
        let ghost start = self@;
        let ghost rs = before.results;
        proof {
            assert(start.results =~= Seq::<(u64, u8)>::empty());
            assert(start =~= (AssemblerModel { results: Seq::empty(), ..before }));
            assert(result_views(results@) == rs);
        }
        let mut i: usize = 0;
        while i < results.len()
            invariant
                i <= results@.len(),
                rs == result_views(results@),
                self@ == start.applied(rs, receive_us, now_us, i as nat),
                self@.valid(),
                self@.frames.dom() == before.frames.dom(),
                self@.stats == before.stats,
                self@.nack_queue == before.nack_queue,
                self@.next == before.next,
                self@.last_evicted == before.last_evicted,
            decreases results@.len() - i,
        {
            let fid: u64 = results[i].frame_id;
            let slice_idx: u8 = results[i].slice_idx;
            let ghost a = self@;
            assert(rs[i as int] == (fid, slice_idx));
            match self.frames.remove(&fid) {
                Some(mut builder) => {
                    assert(a.frames.contains_key(fid) && a.frames[fid] == builder@);
                    if builder.state == FrameState::Receiving {
                        builder.apply_decode_result(slice_idx, now_us);
                        let ghost after = builder@;
                        self.frames.insert(fid, builder);
                        proof {
                            assert(self@.frames =~= a.frames.insert(fid, after));
                            assert(self@ =~= (AssemblerModel {
                                frames: a.frames.insert(fid, a.frames[fid].applied(slice_idx, now_us)),
                                ..a
                            }));
                            assert(self@.frames.dom() =~= a.frames.dom());
                        }
                        self.refresh_snap(fid, receive_us);
                    } else {
                        self.frames.insert(fid, builder);
                        assert(self@.frames =~= a.frames);
                        assert(self@ =~= a);
                    }
                },
                None => {
                    assert(!a.frames.contains_key(fid));
                    assert(self@.frames =~= a.frames);
                    assert(self@ =~= a);
                },
            }
            i = i + 1;
        }
    }

    /// Sends the requests that are due, one message for each frame.
    fn drain_nacks(&mut self, now_us: u64) -> (r: Vec<ControlPacket>)
        requires
            old(self)@.valid(),
            old(self)@.stats.nacks_sent + old(self)@.nack_queue.len() <= u64::MAX,
        ensures
            final(self)@ == old(self)@.with_nacks(now_us),
            final(self)@.valid(),
            final(self)@.frames.dom() == old(self)@.frames.dom(),
            final(self)@.stats.nacks_sent <= old(self)@.stats.nacks_sent + old(
                self,
            )@.nack_queue.len(),
            nack_views(r@) == sent_batches(old(self)@.nacks(now_us).batches),
    {
        let ghost before = self@;
        let ghost queue = before.nack_queue;
        let mut batches: Vec<(u64, Vec<NackEntry>)> = Vec::new();
        let initial_len: usize = self.nack_queue.len();
        let mut n: usize = 0;
        proof {
            assert(batch_views(batches@) =~= Seq::<Batch>::empty());
            assert(queue.skip(0) + Seq::<(u64, u8, u8)>::empty() =~= queue);
        }
        while n < initial_len
            invariant
                n <= initial_len,
                initial_len == queue.len(),
                queue == before.nack_queue,
                ({
                    let round = nack_round(before.frames, queue, now_us, n as nat);
                    &&& self@.frames == round.frames
                    &&& batch_views(batches@) == round.batches
                    &&& self@.nack_queue == queue.skip(n as int) + round.kept
                    &&& round.batches.len() <= n
                }),
                self@.frames.dom() == before.frames.dom(),
                self@ == (AssemblerModel {
                    frames: self@.frames,
                    nack_queue: self@.nack_queue,
                    ..before
                }),
                self@.valid(),
            decreases initial_len - n,
        {
            let ghost round = nack_round(before.frames, queue, now_us, n as nat);
            let ghost next_round = nack_round(before.frames, queue, now_us, (n + 1) as nat);
            let ghost rest = queue.skip(n + 1);
            let ghost now = self@;
            let item: (u64, u8, u8) = match self.nack_queue.pop_front() {
                Some(x) => x,
                None => (0, 0, 0),
            };
            proof {
                assert(now.nack_queue[0] == queue[n as int]);
                assert(self@.nack_queue =~= rest + round.kept);
                assert(rest + round.kept.push(item) =~= (rest + round.kept).push(item));
            }
            let (frame_id, slice_idx, group_idx) = item;
            let full: bool = match find_batch(&batches, frame_id) {
                Some(i) => batches[i].1.len() >= NACK_BATCH_SIZE,
                None => false,
            };
            assert(full == (batch_len(round.batches, frame_id) >= NACK_BATCH_SIZE));
            if full {
                self.nack_queue.push_back(item);
                assert(self@.nack_queue =~= rest + round.kept.push(item));
            } else {
                match self.frames.remove(&frame_id) {
                    Some(mut builder) => {
                        let ghost fb = builder@;
                        assert(now.frames.contains_key(frame_id) && now.frames[frame_id] == fb);
                        let decision: NackDecision = builder.request_group(
                            slice_idx,
                            group_idx,
                            now_us,
                        );
                        let ghost after = builder@;
                        self.frames.insert(frame_id, builder);
                        proof {
                            assert(self@.frames =~= now.frames.insert(frame_id, after));
                            assert(self@.frames.dom() =~= now.frames.dom());
                            assert forall|x: u64| #[trigger]
                                self@.frames.contains_key(x) implies self@.frames[x].valid() && x
                                <= u64::MAX - 2 by {
                                assert(now.frames.contains_key(x));
                            }
                            if !(decision is Send) {
                                assert(self@.frames =~= now.frames);
                            }
                        }
                        match decision {
                            NackDecision::Send { received_mask } => {
                                add_entry(
                                    &mut batches,
                                    frame_id,
                                    NackEntry { slice_idx, group_idx, received_mask },
                                );
                                self.nack_queue.push_back(item);
                                assert(self@.nack_queue =~= rest + round.kept.push(item));
                            },
                            NackDecision::Keep => {
                                self.nack_queue.push_back(item);
                                assert(self@.nack_queue =~= rest + round.kept.push(item));
                            },
                            NackDecision::Drop => {},
                        }
                    },
                    None => {
                        assert(!now.frames.contains_key(frame_id));
                        assert(self@.frames =~= now.frames);
                    },
                }
            }
            proof {
                assert(self@.frames =~= next_round.frames);
                assert(self@.frames.dom() =~= now.frames.dom());
                assert(self@.diag == now.diag);
                assert(self@.tasks == now.tasks);
                assert(self@.diag.valid());
                assert(forall|x: u64| #[trigger]
                                self@.frames.contains_key(x) ==> self@.frames[x].valid() && x
                                <= u64::MAX - 2);
            }
            n = n + 1;
        }
        proof {
            let round = nack_round(before.frames, queue, now_us, n as nat);
            assert(queue.skip(n as int) + round.kept =~= round.kept);
        }
        let ghost sent = batch_views(batches@);
        let mut result: Vec<ControlPacket> = Vec::new();
        let ghost mid = self@;
        let ghost all = batches@;
        let ghost mut i: int = 0;
        proof {
            assert(nack_views(result@) =~= sent_batches(sent.take(0)));
            assert(all.skip(0) =~= all);
        }
        while batches.len() > 0
            invariant
                0 <= i <= all.len(),
                sent == batch_views(all),
                all.len() <= queue.len(),
                batches@ == all.skip(i),
                mid.stats.nacks_sent + queue.len() <= u64::MAX,
                nack_views(result@) == sent_batches(sent.take(i)),
                self@ == (AssemblerModel {
                    stats: RecoveryStats {
                        nacks_sent: (mid.stats.nacks_sent + i) as u64,
                        ..mid.stats
                    },
                    ..mid
                }),
            decreases batches@.len(),
        {
            let ghost before_push = result@;
            let (frame_id, entries) = batches.remove(0);
            proof {
                assert(batches@ =~= all.skip(i + 1));
                assert((frame_id, entries) == all[i]);
            }
            self.stats.note_nack();
            result.push(ControlPacket::NackBatch { frame_id, entries });
            proof {
                assert(nack_views(result@) =~= nack_views(before_push).push(Some(sent[i])));
                assert(sent_batches(sent.take(i + 1)) =~= sent_batches(sent.take(i)).push(
                    Some(sent[i]),
                ));
                i = i + 1;
            }
        }
        proof {
            assert(i == all.len());
            assert(sent.take(i) =~= sent);
            assert(self@ =~= before.with_nacks(now_us));
        }
        result
    }

    /// Looks at the frame that is released next. Tells whether the one behind it is to be
    /// looked at, too.
    fn flush_next(&mut self, min_frame_id: u64, now_us: u64, output: &mut Vec<VideoPacket>) -> (go_on:
        bool)
        requires
            old(self)@.valid(),
            old(self)@.next is Some,
            old(self)@.flush_step(min_frame_id, now_us).go_on ==> old(self)@.next->0 < u64::MAX
                && old(self)@.stats.room(256),
        ensures
            final(self)@ == old(self)@.flush_step(min_frame_id, now_us).after,
            final(self)@.valid(),
            packet_views(final(output)@) == packet_views(old(output)@) + old(self)@.flush_step(
                min_frame_id,
                now_us,
            ).packets,
            go_on == old(self)@.flush_step(min_frame_id, now_us).go_on,
    {
        let ghost before = self@;
        let ghost out_before = packet_views(output@);
        let ghost step = before.flush_step(min_frame_id, now_us);
        let next_id: u64 = match self.next_to_push_id {
            Some(id) => id,
            None => 0,
        };
        assert(out_before + Seq::<PacketModel>::empty() =~= out_before);
        match self.frames.remove(&next_id) {
            Some(mut builder) => {
                let ghost f = builder@;
                assert(before.frames.contains_key(next_id) && before.frames[next_id] == f);
                assert(self@.frames =~= before.frames.remove(next_id));
                let ready_us: u64 = match builder.network_ready_us {
                    Some(t) => t,
                    None => 0,
                };
                if builder.is_complete() {
                    if let Some(mut packets) = builder.take_packets() {
                        stamp(
                            &mut packets,
                            ready_us,
                            now_us,
                            builder.collecting_done_us,
                            builder.fec_submitted_us,
                            builder.fec_done_us,
                            Ghost(f),
                        );
                        let n: usize = packets.len();
                        assert(packet_views(packets@) == stamped(f.ready, f, now_us));
                        assert(n == f.ready.len());
                        self.stats.note_frame_emitted(n);
                        let ghost ps = packets@;
                        let ghost os = output@;
                        output.append(&mut packets);
                        assert(packet_views(output@) =~= packet_views(os) + packet_views(ps));
                    }
                    self.pass_frame(next_id);
                    assert(self@ =~= step.after);
                    return true;
                }
                let stall_start: u64 = self.stall_start(now_us);
                let stall_us: u64 = now_us.saturating_sub(stall_start);
                if stall_us >= STALE_FRAME_US {
                    self.stats.note_frame_lost_timeout();
                    let mut partial: Vec<VideoPacket> = builder.take_partial_packets();
                    let ghost ps0 = partial@;
                    assert(packet_views(ps0).len() == ps0.len());
                    if partial.len() > 0 {
                        stamp(
                            &mut partial,
                            ready_us,
                            now_us,
                            builder.collecting_done_us,
                            builder.fec_submitted_us,
                            builder.fec_done_us,
                            Ghost(f),
                        );
                        let n: usize = partial.len();
                        self.stats.note_frame_emitted(n);
                        let ghost ps = partial@;
                        let ghost os = output@;
                        output.append(&mut partial);
                        assert(packet_views(output@) =~= packet_views(os) + packet_views(ps));
                    } else {
                        assert(stamped(f.partial_packets(), f, now_us) =~= Seq::<
                            PacketModel,
                        >::empty());
                    }
                    self.stats.note_partial_slicing();
                    self.pass_frame(next_id);
                    assert(self@ =~= step.after);
                    true
                } else {
                    let ghost others = self@.frames;
                    assert(builder@ == f);
                    self.frames.insert(next_id, builder);
                    assert(self@.frames =~= others.insert(next_id, f));
                    assert(self@.frames =~= before.frames);
                    assert(self@ =~= step.after);
                    false
                }
            },
            None => {
                assert(!before.frames.contains_key(next_id));
                assert(self@.frames =~= before.frames);
                assert(self@ =~= before);
                let was_evicted: bool = match self.last_evicted_id {
                    Some(e) => next_id <= e,
                    None => false,
                };
                let out_of_window: bool = next_id < min_frame_id;
                if was_evicted || out_of_window {
                    if was_evicted {
                        self.stats.note_frame_lost_evicted();
                    }
                    if out_of_window {
                        self.stats.note_frame_lost_out_of_window();
                    }
                    self.pass_frame(next_id);
                    assert(self@ =~= step.after);
                    return true;
                }
                let stall_start: u64 = self.stall_start(now_us);
                let stall_us: u64 = now_us.saturating_sub(stall_start);
                if stall_us >= STALE_FRAME_US {
                    self.stats.note_frame_lost_timeout();
                    self.pass_frame(next_id);
                    assert(self@ =~= step.after);
                    true
                } else {
                    assert(self@ =~= step.after);
                    false
                }
            },
        }
    }

    /// Goes on to the next frame.
    fn pass_frame(&mut self, next_id: u64)
        requires
            old(self)@.next == Some(next_id),
            next_id < u64::MAX,
        ensures
            final(self)@ == old(self)@.passed(),
    {
        self.next_to_push_id = Some(next_id + 1);
        self.hol_stall_since_us = None;
    }

    /// Since when the next frame has been waited for; from now on, if it was not.
    fn stall_start(&mut self, now_us: u64) -> (r: u64)
        ensures
            r == old(self)@.waiting_since(now_us),
            final(self)@ == (AssemblerModel {
                stall_since: Some(old(self)@.waiting_since(now_us)),
                ..old(self)@
            }),
    {
        match self.hol_stall_since_us {
            Some(t) => t,
            None => {
                self.hol_stall_since_us = Some(now_us);
                now_us
            },
        }
    }

    /// Releases the frames that can be released, in order.
    fn flush_ordered(
        &mut self,
        min_frame_id: u64,
        now_us: u64,
        output: &mut Vec<VideoPacket>,
        Ghost(top): Ghost<int>,
    )
        requires
            old(self)@.valid(),
            old(self)@.next matches Some(id) ==> {
                &&& id < u64::MAX
                &&& id <= top
                &&& min_frame_id <= top
                &&& old(self)@.last_evicted matches Some(e) ==> e <= top
                &&& forall|x: u64| #[trigger] old(self)@.frames.contains_key(x) ==> x <= top
                &&& old(self)@.stats.room(256 * (top + 2 - id))
            },
        ensures
            final(self)@ == old(self)@.flushed(min_frame_id, now_us).0,
            packet_views(final(output)@) == packet_views(old(output)@) + old(self)@.flushed(
                min_frame_id,
                now_us,
            ).1,
            final(self)@.valid(),
    {
        let ghost before = self@;
        let ghost out_before = packet_views(output@);
        let ghost all = before.flushed(min_frame_id, now_us);
        assert(out_before + Seq::<PacketModel>::empty() =~= out_before);
        if self.next_to_push_id.is_none() {
            return ;
        }
        let mut go_on: bool = true;
        while go_on
            invariant
                self@.valid(),
                self@.next is Some,
                self@.next->0 <= top + 2,
                min_frame_id <= top,
                self@.last_evicted matches Some(e) ==> e <= top,
                forall|x: u64| #[trigger] self@.frames.contains_key(x) ==> x <= top,
                go_on && self@.stall_since is Some ==> self@.next->0 <= top + 1 && self@.next->0
                    < u64::MAX,
                self@.stats.room(256 * (top + 2 - self@.next->0)),
                go_on ==> {
                    let rest = self@.flushed(min_frame_id, now_us);
                    &&& rest.0 == all.0
                    &&& packet_views(output@) + rest.1 == out_before + all.1
                },
                !go_on ==> self@ == all.0 && packet_views(output@) == out_before + all.1,
            decreases u64::MAX - self@.next->0 + if go_on {
                1int
            } else {
                0int
            },
        {
            let ghost now = self@;
            let ghost out_now = packet_views(output@);
            let ghost id = now.next->0;
            let ghost step = now.flush_step(min_frame_id, now_us);
            proof {
                if step.go_on {
                    assert(since(now_us, now_us) == 0);
                    if now.frames.contains_key(id) {
                        assert(id <= top);
                    }
                    assert(id < u64::MAX && id <= top + 1);
                    assert(256 * (top + 2 - id) >= 256);
                    lemma_room_mono(now.stats, 256 * (top + 2 - id), 256);
                }
            }
            go_on = self.flush_next(min_frame_id, now_us, output);
            proof {
                if go_on {
                    assert(self@.next == Some((id + 1) as u64));
                    let rest = self@.flushed(min_frame_id, now_us);
                    assert(out_now + (step.packets + rest.1) =~= (out_now + step.packets) + rest.1);
                    assert forall|x: u64| #[trigger] self@.frames.contains_key(x) implies x <= top by {
                        assert(now.frames.contains_key(x));
                    }
                    now.lemma_flush_room(min_frame_id, now_us, 256 * (top + 2 - id));
                } else {
                    assert(step.packets =~= Seq::<PacketModel>::empty());
                    assert(out_now + Seq::<PacketModel>::empty() =~= out_now);
                }
            }
        }
    }
}

impl FrameAssembler {
    /// Gives up old frames, puts a chunk into its frame, and takes a snapshot of it.
    fn take_in(
        &mut self,
        chunk: &DatagramChunk,
        receive_us: u64,
        now_us: u64,
        Ghost(more): Ghost<int>,
        Ghost(top): Ghost<int>,
    )
        requires
            old(self)@.valid(),
            chunk.k + chunk.m <= 255,
            chunk.frame_id <= u64::MAX - 2,
            more >= 0,
            old(self)@.stats.room(0x2_0000 + old(self)@.frames.dom().len() * FRAME_WASTE + more),
            chunk.frame_id <= top,
            forall|x: u64| #[trigger] old(self)@.frames.contains_key(x) ==> x <= top,
            old(self)@.last_evicted matches Some(id) ==> id <= top,
        ensures
            final(self)@ == old(self)@.evicted(
                window_start(chunk.frame_id),
                receive_us,
            ).with_chunk(chunk@, receive_us, now_us).refreshed(chunk.frame_id, receive_us),
            final(self)@.valid(),
            final(self)@.stats.room(1 + more),
            final(self)@.stats.rx_chunks + final(self)@.stats.lost() <= old(self)@.stats.rx_chunks
                + old(self)@.stats.lost() + 256 + old(self)@.frames.dom().len() * FRAME_WASTE,
            forall|x: u64| #[trigger] final(self)@.frames.contains_key(x) ==> x <= top,
            final(self)@.last_evicted matches Some(id) ==> id <= top,
            final(self)@.next == old(self)@.next,
            final(self)@.nack_queue.len() <= old(self)@.nack_queue.len() + 1,
            final(self)@.stats_every_us == old(self)@.stats_every_us,
    {
        let ghost a = self@;
        let frame_id: u64 = chunk.frame_id;
        let ghost wasted = a.frames.dom().len() * FRAME_WASTE;
        let min_frame_id: u64 = frame_id.saturating_sub(MAX_BUFFERED_FRAMES);
        proof {
            assert(a.stats.room(wasted + (0x2_0000 + more)));
            lemma_room_mono(a.stats, wasted + (0x2_0000 + more), wasted);
        }
        self.evict_stale(min_frame_id, receive_us);
        let ghost e = self@;
        proof {
            assert(e.stats.room(0x2_0000 + more));
            assert(e.stats.room(0x1_ffff + (1 + more)));
            lemma_room_mono(e.stats, 0x2_0000 + more, 0x1_ffff);
            assert forall|x: u64| #[trigger] e.frames.contains_key(x) implies x <= top by {
                assert(e.frames.dom().contains(x));
                assert(a.frames.contains_key(x));
            }
            let stale = a.stale(min_frame_id, receive_us);
            assert(stale.subset_of(a.frames.dom()));
            lemma_highest_exists(stale, a.last_evicted);
            assert(e.last_evicted matches Some(id) ==> id <= top) by {
                match e.last_evicted {
                    Some(id) => {
                        if stale.contains(id) {
                            assert(a.frames.contains_key(id));
                        }
                    },
                    None => {},
                }
            }
        }
        self.insert_into_frame(chunk, receive_us, now_us);
        let ghost i = self@;
        assert forall|x: u64| #[trigger] i.frames.contains_key(x) implies x <= top by {
            assert(i.frames.dom().contains(x));
            if x != frame_id {
                assert(e.frames.contains_key(x));
            }
        }
        self.refresh_snap(frame_id, receive_us);
    }

    /// Applies results, sends the requests that are due, and releases frames.
    fn finish(
        &mut self,
        min_frame_id: u64,
        receive_us: u64,
        now_us: u64,
        Ghost(queued): Ghost<int>,
        Ghost(top): Ghost<int>,
    ) -> (r: (Vec<VideoPacket>, Vec<ControlPacket>))
        requires
            old(self)@.valid(),
            old(self)@.next is Some,
            old(self)@.next->0 < u64::MAX,
            old(self)@.next->0 <= top,
            min_frame_id <= top,
            forall|x: u64| #[trigger] old(self)@.frames.contains_key(x) ==> x <= top,
            old(self)@.last_evicted matches Some(id) ==> id <= top,
            old(self)@.nack_queue.len() <= queued,
            old(self)@.stats.room(queued + 256 * (top + 2 - old(self)@.next->0)),
        ensures
            final(self)@.valid(),
            ({
                let c = old(self)@.with_results(receive_us, now_us);
                let f = c.with_nacks(receive_us).flushed(min_frame_id, now_us);
                &&& final(self)@ == f.0
                &&& packet_views(r.0@) == f.1
                &&& nack_views(r.1@) == sent_batches(c.nacks(receive_us).batches)
            }),
    {
        let ghost b = self@;
        let ghost n = 256 * (top + 2 - b.next->0);
        self.apply_results(receive_us, now_us);
        let ghost c = self@;
        let nacks: Vec<ControlPacket> = self.drain_nacks(receive_us);
        let mut output: Vec<VideoPacket> = Vec::new();
        let ghost d = self@;
        proof {
            assert(packet_views(output@) =~= Seq::<PacketModel>::empty());
            assert forall|x: u64| #[trigger] d.frames.contains_key(x) implies x <= top by {
                assert(c.frames.dom().contains(x));
                assert(b.frames.dom().contains(x));
                assert(b.frames.contains_key(x));
            }
            assert(d.stats.room(n));
        }
        self.flush_ordered(min_frame_id, now_us, &mut output, Ghost(top));
        proof {
            let rest = d.flushed(min_frame_id, now_us).1;
            assert(Seq::<PacketModel>::empty() + rest =~= rest);
        }
        (output, nacks)
    }

    /// Takes a chunk in at `receive_us`, with `now_us` on the clock. Returns the packets of
    /// the frames that are released, the requests for missing shards, and the report on a
    /// statistics window that is over.
    pub fn insert_at(&mut self, chunk: &DatagramChunk, receive_us: u64, now_us: u64) -> (r: (
        Vec<VideoPacket>,
        Vec<ControlPacket>,
        Option<RecoveryReport>,
    ))
        requires
            old(self)@.valid(),
            old(self)@.room(chunk.frame_id),
            chunk.k + chunk.m <= 255,
        ensures
            final(self)@.valid(),
            ({
                let o = old(self)@.inserted(chunk@, receive_us, now_us);
                &&& final(self)@ == o.after
                &&& packet_views(r.0@) == o.packets
                &&& nack_views(r.1@) == sent_batches(o.nacks)
                &&& r.2 == o.report
            }),
    {
        let ghost before = self@;
        let frame_id: u64 = chunk.frame_id;
        let ghost top = before.top(frame_id) as int;
        proof {
            before.lemma_top(frame_id);
        }
        self.chunk_counter = self.chunk_counter + 1;
        self.diag.inc_shard_count();
        let hol_id: u64 = match self.next_to_push_id {
            Some(id) => id,
            None => {
                self.next_to_push_id = Some(frame_id);
                frame_id
            },
        };
        let ghost a = self@;
        assert(a =~= before.counted(frame_id));
        let ghost queued = before.nack_queue.len() as int;
        let ghost passed = top + 2 - hol_id;
        let ghost wasted = before.frames.dom().len() * FRAME_WASTE;
        proof {
            assert(before.budget(frame_id) == 0x2_0000 + wasted + queued + 256 * passed);
            assert(wasted >= 0) by (nonlinear_arith)
                requires
                    wasted == before.frames.dom().len() * FRAME_WASTE,
            ;
        }
        if frame_id < hol_id {
            self.stats.note_chunk(chunk, false, true);
            let packets: Vec<VideoPacket> = Vec::new();
            let nacks: Vec<ControlPacket> = Vec::new();
            proof {
                assert(packet_views(packets@) =~= Seq::<PacketModel>::empty());
                assert(nack_views(nacks@) =~= sent_batches(Seq::<Batch>::empty()));
                assert(self@ =~= before.inserted(chunk@, receive_us, now_us).after);
            }
            return (packets, nacks, None);
        }
        let min_frame_id: u64 = frame_id.saturating_sub(MAX_BUFFERED_FRAMES);
        assert(min_frame_id == window_start(frame_id));
        self.take_in(chunk, receive_us, now_us, Ghost(queued + 256 * passed), Ghost(top));
        let ghost b = self@;
        let report: Option<RecoveryReport> = self.stats.maybe_log(receive_us, self.stats_every_us);
        let ghost c0 = self@;
        proof {
            assert(c0.stats.room(1 + queued + 256 * passed));
            assert(b == before.taken(chunk@, receive_us, now_us));
            assert(c0 =~= (AssemblerModel {
                stats: b.stats.after_log(receive_us, b.stats_every_us),
                ..b
            }));
        }
        let (output, nacks) = self.finish(
            min_frame_id,
            receive_us,
            now_us,
            Ghost(1 + queued),
            Ghost(top),
        );
        (output, nacks, report)
    }
}

impl FrameAssembler {
    /// Takes a chunk in that arrived at `receive_us`, as [`FrameAssembler::insert_at`]
    /// does at the time of the clock.
    pub fn insert(&mut self, chunk: &DatagramChunk, receive_us: u64) -> (r: (
        Vec<VideoPacket>,
        Vec<ControlPacket>,
        Option<RecoveryReport>,
    ))
        requires
            old(self)@.valid(),
            old(self)@.room(chunk.frame_id),
            chunk.k + chunk.m <= 255,
        ensures
            final(self)@.valid(),
            exists|now_us: u64|
                {
                    let o = #[trigger] old(self)@.inserted(chunk@, receive_us, now_us);
                    &&& final(self)@ == o.after
                    &&& packet_views(r.0@) == o.packets
                    &&& nack_views(r.1@) == sent_batches(o.nacks)
                    &&& r.2 == o.report
                },
    {
        let now_us: u64 = FrameTrace::now_us();
        let ghost o = self@.inserted(chunk@, receive_us, now_us);
        self.insert_at(chunk, receive_us, now_us)
    }

    /// Applies results, releases frames and sends requests that are due, with `now_us` on
    /// the clock.
    pub fn poll_at(&mut self, now_us: u64) -> (r: (Vec<VideoPacket>, Vec<ControlPacket>))
        requires
            old(self)@.valid(),
            old(self)@.room(old(self)@.head()),
        ensures
            final(self)@.valid(),
            ({
                let o = old(self)@.polled(now_us);
                &&& final(self)@ == o.after
                &&& packet_views(r.0@) == o.packets
                &&& nack_views(r.1@) == sent_batches(o.nacks)
            }),
    {
        let ghost before = self@;
        let head: u64 = match self.next_to_push_id {
            Some(id) => id,
            None => 0,
        };
        let ghost top = before.top(head) as int;
        let ghost wasted = before.frames.dom().len() * FRAME_WASTE;
        let ghost passed = top + 2 - head;
        let ghost queued = before.nack_queue.len() as int;
        proof {
            before.lemma_top(head);
            assert(before.budget(head) == 0x2_0000 + wasted + queued + 256 * passed);
            assert(wasted >= 0) by (nonlinear_arith)
                requires
                    wasted == before.frames.dom().len() * FRAME_WASTE,
            ;
            lemma_room_mono(before.stats, before.budget(head), queued + 256 * passed);
        }
        let min_frame_id: u64 = head.saturating_sub(MAX_BUFFERED_FRAMES);
        self.apply_results(now_us, now_us);
        let ghost a = self@;
        let mut output: Vec<VideoPacket> = Vec::new();
        proof {
            assert(packet_views(output@) =~= Seq::<PacketModel>::empty());
            assert forall|x: u64| #[trigger] a.frames.contains_key(x) implies x <= top by {
                assert(a.frames.dom().contains(x));
                assert(before.frames.contains_key(x));
            }
            lemma_room_mono(a.stats, queued + 256 * passed, 256 * passed);
        }
        self.flush_ordered(min_frame_id, now_us, &mut output, Ghost(top));
        let ghost b = self@;
        proof {
            let rest = a.flushed(min_frame_id, now_us).1;
            assert(Seq::<PacketModel>::empty() + rest =~= rest);
            a.lemma_flushed_keeps(min_frame_id, now_us);
        }
        let nacks: Vec<ControlPacket> = self.drain_nacks(now_us);
        (output, nacks)
    }

    /// Applies results, releases frames and sends requests that are due, as
    /// [`FrameAssembler::poll_at`] does at the time of the clock.
    pub fn poll(&mut self) -> (r: (Vec<VideoPacket>, Vec<ControlPacket>))
        requires
            old(self)@.valid(),
            old(self)@.room(old(self)@.head()),
        ensures
            final(self)@.valid(),
            exists|now_us: u64|
                {
                    let o = #[trigger] old(self)@.polled(now_us);
                    &&& final(self)@ == o.after
                    &&& packet_views(r.0@) == o.packets
                    &&& nack_views(r.1@) == sent_batches(o.nacks)
                },
    {
        let now_us: u64 = FrameTrace::now_us();
        let ghost o = self@.polled(now_us);
        self.poll_at(now_us)
    }

    /// The highest frame number in sight.
    fn top(&self, frame_id: u64) -> (r: u64)
        ensures
            r == self@.top(frame_id),
    {
        let ids: Vec<u64> = self.frame_ids();
        let mut best: u64 = frame_id;
        let mut i: usize = 0;
        while i < ids.len()
            invariant
                i <= ids@.len(),
                frame_id <= best,
                best == frame_id || ids@.contains(best),
                forall|j: int| 0 <= j < i ==> #[trigger] ids@[j] <= best,
            decreases ids@.len() - i,
        {
            if best < ids[i] {
                best = ids[i];
                assert(ids@.contains(best));
            }
            i = i + 1;
        }
        proof {
            let dom = self@.frames.dom();
            assert forall|x: u64| #[trigger] dom.contains(x) implies x <= best by {
                assert(ids@.to_set().contains(x));
                let j = choose|j: int| 0 <= j < ids@.len() && ids@[j] == x;
                assert(ids@[j] <= best);
            }
            if best != frame_id {
                assert(ids@.to_set().contains(best));
            }
            assert(is_highest(dom, Some(frame_id), Some(best)));
            lemma_highest(dom, Some(frame_id), Some(best));
        }
        if let Some(e) = self.last_evicted_id {
            if best < e {
                best = e;
            }
        }
        if let Some(id) = self.next_to_push_id {
            if best < id {
                best = id;
            }
        }
        best
    }

    /// Whether a chunk of frame `frame_id` can be taken in without an overflow of a
    /// counter. It can for all numbers that occur in practice.
    pub fn has_room(&self, frame_id: u64) -> (r: bool)
        ensures
            r == self@.room(frame_id),
    {
        let ids: Vec<u64> = self.frame_ids();
        proof {
            ids@.unique_seq_to_set();
            self@.lemma_top(frame_id);
        }
        let head: u64 = match self.next_to_push_id {
            Some(id) => id,
            None => frame_id,
        };
        let top: u64 = self.top(frame_id);
        let passed: u128 = top as u128 + 2 - head as u128;
        let count: u128 = ids.len() as u128;
        let wasted: u128 = count * 0x100_0000_0000;
        let budget: u128 = 0x2_0000 + wasted + self.nack_queue.len() as u128 + 256 * passed;
        assert(budget == self@.budget(frame_id));
        if frame_id > u64::MAX - 2 || self.chunk_counter == u64::MAX {
            return false;
        }
        if self.next_to_push_id == Some(u64::MAX) {
            return false;
        }
        if budget > u64::MAX as u128 {
            return false;
        }
        let lost: u128 = self.stats.total_lost_chunks as u128
            + self.stats.frames_lost_evicted as u128 + self.stats.frames_lost_out_of_window as u128
            + self.stats.frames_lost_timeout as u128;
        if self.stats.rx_chunks as u128 + lost + 2 * budget > u64::MAX as u128 {
            return false;
        }
        self.stats.has_room(budget as u64)
    }

    /// The frame that is released next; zero when none is known yet.
    pub fn head(&self) -> (r: u64)
        ensures
            r == self@.head(),
    {
        match self.next_to_push_id {
            Some(id) => id,
            None => 0,
        }
    }

    /// Takes out the reconstructions that wait for a worker.
    pub fn take_tasks(&mut self) -> (r: Vec<DecodeTask>)
        requires
            old(self)@.valid(),
        ensures
            task_views(r@) == old(self)@.tasks,
            forall|i: int| 0 <= i < r@.len() ==> (#[trigger] r@[i])@.valid(),
            final(self)@ == (AssemblerModel { tasks: Seq::empty(), ..old(self)@ }),
            final(self)@.valid(),
    {
        let ghost before = self@;
        let r: Vec<DecodeTask> = self.compute_pool.take_tasks();
        proof {
            assert(self@.tasks =~= Seq::<TaskModel>::empty());
            assert forall|i: int| 0 <= i < r@.len() implies (#[trigger] r@[i])@.valid() by {
                assert(before.tasks[i].valid());
            }
            assert(self@ =~= (AssemblerModel { tasks: Seq::empty(), ..before }));
        }
        r
    }

    /// Puts in the result of a reconstruction.
    pub fn complete(&mut self, result: DecodeResult)
        requires
            old(self)@.valid(),
        ensures
            final(self)@ == (AssemblerModel {
                results: old(self)@.results.push((result.frame_id, result.slice_idx)),
                ..old(self)@
            }),
            final(self)@.valid(),
    {
        let ghost before = self@;
        let ghost key = (result.frame_id, result.slice_idx);
        self.compute_pool.complete(result);
        assert(self@.results =~= before.results.push(key));
        assert(self@ =~= (AssemblerModel { results: before.results.push(key), ..before }));
    }

    /// Turns the taking of snapshots on or off.
    pub fn set_debug(&mut self, debug: bool)
        requires
            old(self)@.valid(),
        ensures
            final(self)@ == (AssemblerModel { debug, ..old(self)@ }),
            final(self)@.valid(),
    {
        self.debug = debug;
    }

    /// The snapshots.
    pub fn diag(&self) -> (r: &AssemblyDiag)
        ensures
            r@ == self@.diag,
    {
        &self.diag
    }

    /// The counters.
    pub fn stats(&self) -> (r: RecoveryStats)
        ensures
            r == self@.stats,
    {
        self.stats
    }

    /// Whether the window of snapshots is to be dumped after the last chunk.
    pub fn window_dump_due(&self) -> (r: bool)
        ensures
            r == (self@.chunk_counter % WINDOW_DUMP_EVERY_N_CHUNKS == 0),
    {
        self.chunk_counter % WINDOW_DUMP_EVERY_N_CHUNKS == 0
    }

    /// Takes a snapshot of every frame, if snapshots are taken, and returns the rows of
    /// the window.
    pub fn dump_diagnostics(&mut self, now_us: u64) -> (r: Vec<WindowRow>)
        requires
            old(self)@.valid(),
        ensures
            final(self)@.valid(),
            exists|ids: Seq<u64>|
                ids.no_duplicates() && ids.to_set() == old(self)@.frames.dom() && final(self)@
                    == #[trigger] old(self)@.refreshed_all(ids, now_us, ids.len()),
            forall|i: int, j: int| 0 <= i < j < r@.len() ==> r@[i].frame_id < r@[j].frame_id,
            r@.len() == final(self)@.diag.order.len(),
            forall|i: int|
                0 <= i < r@.len() ==> {
                    let row = #[trigger] r@[i];
                    &&& final(self)@.diag.window.contains_key(row.frame_id)
                    &&& row.is_hol == (old(self)@.next == Some(row.frame_id))
                    &&& row.timings == snap_timings(final(self)@.diag.window[row.frame_id])
                },
    {
        let ghost before = self@;
        let ids: Vec<u64> = self.frame_ids();
        let mut i: usize = 0;
        while i < ids.len()
            invariant
                i <= ids@.len(),
                self@ == before.refreshed_all(ids@, now_us, i as nat),
                self@.valid(),
                self@.next == before.next,
            decreases ids@.len() - i,
        {
            self.refresh_snap(ids[i], now_us);
            i = i + 1;
        }
        self.diag.dump_window(self.next_to_push_id)
    }
}

impl AssemblerModel {
    /// The state with snapshots taken of the first `n` of the frames.
    pub open spec fn refreshed_all(self, ids: Seq<u64>, now_us: u64, n: nat) -> AssemblerModel
        decreases n,
    {
        if n == 0 {
            self
        } else {
            self.refreshed_all(ids, now_us, (n - 1) as nat).refreshed(ids[n - 1], now_us)
        }
    }

    /// The release of frames leaves the queue of requests and the number of sent requests
    /// alone.
    proof fn lemma_flushed_keeps(self, min_frame_id: u64, now_us: u64)
        ensures
            self.flushed(min_frame_id, now_us).0.nack_queue == self.nack_queue,
            self.flushed(min_frame_id, now_us).0.stats.nacks_sent == self.stats.nacks_sent,
        decreases
                match self.next {
                    Some(id) => u64::MAX - id,
                    None => 0,
                },
    {
        match self.next {
            Some(id) => {
                let step = self.flush_step(min_frame_id, now_us);
                if step.go_on && id < u64::MAX && step.after.next == Some((id + 1) as u64) {
                    step.after.lemma_flushed_keeps(min_frame_id, now_us);
                }
            },
            None => {},
        }
    }
}

/// Room for much is room for less.
proof fn lemma_room_mono(s: RecoveryStats, n: int, less: int)
    requires
        s.room(n),
        less <= n,
    ensures
        s.room(less),
{
}

impl AssemblerModel {
    /// The passing of a frame raises no counter by more than 256.
    proof fn lemma_flush_room(self, min_frame_id: u64, now_us: u64, n: int)
        requires
            self.valid(),
            self.next is Some,
            self.flush_step(min_frame_id, now_us).go_on,
            self.stats.room(n),
            n >= 256,
        ensures
            self.flush_step(min_frame_id, now_us).after.stats.room(n - 256),
    {
        let id = self.next->0;
        if self.frames.contains_key(id) {
            let f = self.frames[id];
            assert(f.valid());
            lemma_partial_len(f);
        }
    }
}

/// A frame has no more packets than slices.
proof fn lemma_partial_len(f: FrameModel)
    requires
        f.valid(),
    ensures
        f.ready.len() <= 255,
        f.partial_packets().len() <= 255,
{
    f.lemma_released_len();
}

} // verus!
