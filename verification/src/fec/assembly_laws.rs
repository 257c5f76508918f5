//! Laws of the assembly of frames.
use crate::fec::assembler::{batch_at, nack_round, AssemblerModel, Batch, NACK_BATCH_SIZE};
use crate::fec::codec::{all_present, present};
use crate::fec::decode::{data_present, lemma_joined_same};
use crate::fec::encode::{lemma_group, SliceJob};
use crate::fec::frame_builder::{lemma_run_end, run_end, FrameModel, NackDecision};
use crate::fec::group_builder::{
    lemma_present, lemma_present_add, mask_bit, since, GroupModel, INTERLEAVE_THRESHOLD,
};
use crate::fec::laws::{announced_lens, group_payload, law_slice_recovers, slice_payload};
use crate::fec::slice_builder::SliceModel;
use crate::fec::{MIN_NACK_AGE_US, NACK_SUPPRESS_US};
use crate::packet::ChunkModel;
use vstd::prelude::*;

verus! {

/// The slice holds all data shards of an encoded slice, with the lengths that their
/// headers announced.
pub open spec fn holds_data_of(s: SliceModel, job: SliceJob) -> bool {
    &&& job.valid()
    &&& job.group_count() <= 255
    &&& s.total_groups == job.group_count()
    &&& s.valid()
    &&& forall|g: int|
        0 <= g < job.group_count() ==> {
            let group = #[trigger] s.groups[g as u8];
            &&& s.groups.contains_key(g as u8)
            &&& group.k == job.k(g)
            &&& group.m == job.m(g)
            &&& group.data == all_present(job.data_shards(g))
            &&& group.lens == announced_lens(job, g)
        }
}

/// A slice whose data shards have all arrived is put together into the bytes that were
/// encoded, whatever became of the parity. A shard's length must fit the header field that
/// announces it.
pub proof fn law_slice_arrives(s: SliceModel, job: SliceJob)
    requires
        holds_data_of(s, job),
        job.chunk <= 0xffff,
    ensures
        s.payload() == Some(job.data),
{
    lemma_payload_prefix(s, job, job.group_count());
    law_slice_recovers(job);
}

proof fn lemma_payload_prefix(s: SliceModel, job: SliceJob, n: nat)
    requires
        holds_data_of(s, job),
        n <= job.group_count(),
    ensures
        s.payload_upto(n) == Some(slice_payload(job, n)),
    decreases n,
{
    if n > 0 {
        lemma_payload_prefix(s, job, (n - 1) as nat);
        let g = n - 1;
        let group = s.groups[g as u8];
        lemma_group(job, g);
        assert(s.groups.contains_key(g as u8));
        let shards = group.shards();
        lemma_present_add(group.data, group.parity);
        assert forall|i: int| 0 <= i < group.data.len() implies (#[trigger] group.data[i]) is Some by {}
        lemma_present(group.data);
        assert forall|i: int| 0 <= i < group.k implies (#[trigger] shards[i]) is Some by {
            assert(shards[i] == group.data[i]);
        }
        assert(data_present(group.k as nat, shards));
        assert forall|i: int| 0 <= i < group.k implies #[trigger] shards[i] == group.data[i] by {}
        lemma_joined_same(shards, group.data, group.lens, group.k as nat);
        assert(group.payload() == Some(group_payload(job, g)));
    }
}

/// A group stalls only when it lacks more shards than its parity can replace, and only
/// after the chunks that may be interleaved with it have passed.
pub proof fn law_stall_is_justified(
    g: GroupModel,
    idx: u8,
    data: Seq<u8>,
    payload_len: u16,
    now_us: u64,
    seq: u64,
)
    requires
        g.valid(),
        !(g.state is Stalled),
        g.inserted(idx, data, payload_len, now_us, seq).state is Stalled,
    ensures
        present(g.inserted(idx, data, payload_len, now_us, seq).shards()) < g.k,
        since(seq, g.inserted(idx, data, payload_len, now_us, seq).first_global_seq)
            > INTERLEAVE_THRESHOLD,
{
    g.law_inserted_valid(idx, data, payload_len, now_us, seq);
}

/// A shard that has arrived stays.
pub proof fn law_shards_stay(
    g: GroupModel,
    idx: u8,
    data: Seq<u8>,
    payload_len: u16,
    now_us: u64,
    seq: u64,
    i: int,
)
    requires
        g.valid(),
        0 <= i < g.k + g.m,
        g.shards()[i] is Some,
        i != idx,
    ensures
        g.inserted(idx, data, payload_len, now_us, seq).shards()[i] == g.shards()[i],
{
}

/// A request for missing shards is sent only for a group that cannot do without them. The
/// mask tells which of its first 64 shards are there. Between the stall or the last
/// request and the request lies the time that is prescribed.
pub proof fn law_requests_are_justified(f: FrameModel, s: u8, g: u8, now_us: u64)
    requires
        f.valid(),
        f.nack_decision(s, g, now_us) is Send,
    ensures
        f.open_group(s, g) is Some,
        ({
            let group = f.open_group(s, g)->0;
            let mask = f.nack_decision(s, g, now_us)->received_mask;
            &&& present(group.shards()) < group.k
            &&& forall|i: int|
                0 <= i < 64 && i < group.k + group.m ==> (#[trigger] mask_bit(mask, i)
                    <==> group.shards()[i] is Some)
            &&& group.state matches crate::fec::group_builder::GroupState::Stalled { since_us } ==> since(
                now_us,
                since_us,
            ) >= MIN_NACK_AGE_US
            &&& group.state matches crate::fec::group_builder::GroupState::Requested {
                sent_at_us,
            } ==> since(now_us, sent_at_us) >= NACK_SUPPRESS_US
        }),
{
    assert(f.slices.contains_key(s));
    assert(f.slices[s].valid());
    assert(f.slices[s].groups.contains_key(g));
}

/// A request is not repeated before its time.
pub proof fn law_requests_are_spaced(f: FrameModel, s: u8, g: u8, now_us: u64, later_us: u64)
    requires
        f.nack_decision(s, g, now_us) is Send,
        since(later_us, now_us) < NACK_SUPPRESS_US,
    ensures
        f.requested(s, g, now_us).nack_decision(s, g, later_us) == NackDecision::Keep,
{
}

/// The slices of a frame leave in order: what has left stays, what leaves are the slices
/// from the next one on, and the one that is next then has not been read.
pub proof fn law_slices_leave_in_order(f: FrameModel)
    requires
        f.valid(),
    ensures
        ({
            let t = f.released();
            &&& t.next_emit_idx >= f.next_emit_idx
            &&& t.ready.len() == f.ready.len() + (t.next_emit_idx - f.next_emit_idx)
            &&& t.ready.take(f.ready.len() as int) == f.ready
            &&& forall|i: int|
                f.next_emit_idx <= i < t.next_emit_idx ==> (#[trigger] f.decoded[i]) is Some
                    && t.ready[f.ready.len() + (i - f.next_emit_idx)]
                    == crate::fec::frame_builder::packet_of(f.decoded[i]->0, f.first_us)
            &&& t.next_emit_idx < t.total_slices ==> t.decoded[t.next_emit_idx as int] is None
        }),
{
    let from = f.next_emit_idx as nat;
    lemma_run_end(f.decoded, from);
    lemma_run(f.decoded, from);
    assert(f.released().ready.take(f.ready.len() as int) =~= f.ready);
}

pub proof fn lemma_run(decoded: Seq<Option<crate::packet::VideoSliceModel>>, i: nat)
    requires
        i <= decoded.len(),
    ensures
        forall|j: int| i <= j < run_end(decoded, i) ==> (#[trigger] decoded[j]) is Some,
        run_end(decoded, i) < decoded.len() ==> decoded[run_end(decoded, i) as int] is None,
    decreases decoded.len() - i,
{
    if i < decoded.len() && decoded[i as int] is Some {
        lemma_run(decoded, i + 1);
    }
}

/// The frames leave in order: the number of the frame that is next never goes back, and it
/// is not that of a complete frame when nothing more is released.
pub proof fn law_frames_leave_in_order(a: AssemblerModel, min_frame_id: u64, now_us: u64)
    requires
        a.valid(),
        a.next is Some,
        a.next->0 < u64::MAX || a.stall_since is None,
    ensures
        ({
            let b = a.flushed(min_frame_id, now_us).0;
            &&& b.next is Some
            &&& b.next->0 >= a.next->0
            &&& b.frames.contains_key(b.next->0) ==> !(b.frames[b.next->0].state is Complete)
        }),
    decreases u64::MAX - a.next->0,
{
    let id = a.next->0;
    let step = a.flush_step(min_frame_id, now_us);
    assert(since(now_us, now_us) == 0);
    if step.go_on {
        if a.frames.contains_key(id) {
            assert(id <= u64::MAX - 2);
        }
        assert(id < u64::MAX);
        assert(step.after.next == Some((id + 1) as u64));
        assert(step.after.frames.dom() =~= a.frames.dom() || step.after.frames.dom()
            =~= a.frames.dom().remove(id));
        law_frames_leave_in_order(step.after, min_frame_id, now_us);
    }
}

/// A chunk of a frame that has been passed changes nothing but counters.
pub proof fn law_late_chunks_only_count(
    a: AssemblerModel,
    chunk: ChunkModel,
    receive_us: u64,
    now_us: u64,
)
    requires
        a.next is Some,
        chunk.frame_id < a.next->0,
    ensures
        ({
            let o = a.inserted(chunk, receive_us, now_us);
            &&& o.packets.len() == 0
            &&& o.nacks.len() == 0
            &&& o.report is None
            &&& o.after.frames == a.frames
            &&& o.after.next == a.next
            &&& o.after.nack_queue == a.nack_queue
            &&& o.after.tasks == a.tasks
            &&& o.after.results == a.results
        }),
{
}

/// Old frames do not stay: after an eviction every frame is in the window and young enough.
pub proof fn law_old_frames_are_evicted(a: AssemblerModel, min_frame_id: u64, now_us: u64, id: u64)
    requires
        a.evicted(min_frame_id, now_us).frames.contains_key(id),
    ensures
        id >= min_frame_id,
        since(now_us, a.frames[id].first_us) < crate::fec::assembler::STALE_FRAME_US,
        a.evicted(min_frame_id, now_us).frames[id] == a.frames[id],
{
    assert(!a.stale(min_frame_id, now_us).contains(id));
}

/// A message asks for a bounded number of groups of one frame, and no two messages are for
/// the same frame.
pub proof fn law_batches_are_bounded(
    frames: Map<u64, FrameModel>,
    queue: Seq<(u64, u8, u8)>,
    now_us: u64,
    n: nat,
)
    requires
        n <= queue.len(),
    ensures
        ({
            let b = nack_round(frames, queue, now_us, n).batches;
            &&& forall|i: int|
                0 <= i < b.len() ==> 1 <= (#[trigger] b[i]).1.len() <= NACK_BATCH_SIZE
            &&& forall|i: int, j: int| 0 <= i < j < b.len() ==> b[i].0 != b[j].0
        }),
    decreases n,
{
    if n > 0 {
        law_batches_are_bounded(frames, queue, now_us, (n - 1) as nat);
        let r = nack_round(frames, queue, now_us, (n - 1) as nat);
        let id = queue[n - 1].0;
        lemma_batch_at_found(r.batches, id);
    }
}

pub proof fn lemma_batch_at_found(batches: Seq<Batch>, id: u64)
    ensures
        -1 <= batch_at(batches, id) < batches.len(),
        batch_at(batches, id) >= 0 ==> batches[batch_at(batches, id)].0 == id,
        batch_at(batches, id) < 0 ==> forall|i: int|
            0 <= i < batches.len() ==> (#[trigger] batches[i]).0 != id,
    decreases batches.len(),
{
    if batches.len() > 0 && batches.last().0 != id {
        let front = batches.drop_last();
        lemma_batch_at_found(front, id);
        if batch_at(front, id) < 0 {
            assert forall|i: int| 0 <= i < batches.len() implies (#[trigger] batches[i]).0 != id by {
                if i < front.len() {
                    assert(front[i].0 != id);
                }
            }
        }
    }
}

} // verus!
