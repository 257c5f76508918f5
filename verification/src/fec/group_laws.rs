//! Laws of groups: what a shard changes, and what becomes of a group that is complete.
use crate::fec::codec::present;
use crate::fec::decode_task::TaskModel;
use crate::fec::frame_builder::{
    arrived_bytes, group_waste, lemma_run_end, new_frame, read_payload, tasks_upto, FrameModel,
};
use crate::fec::group_builder::{lemma_present, GroupModel, GroupState};
use crate::fec::slice_builder::{needs_decoding, new_slice, SliceModel};
use crate::fec::GroupRecovery;
use crate::packet::ChunkModel;
use vstd::prelude::*;

verus! {

/// A shard of a group that waits for shards is put in its place with the length that was
/// announced for it, and is counted if it is the first in that place: among all, and among
/// the data if it is data. Other shards, other lengths and the shape of the group stay.
pub proof fn law_shard_is_taken_in(
    g: GroupModel,
    idx: u8,
    data: Seq<u8>,
    payload_len: u16,
    now_us: u64,
    seq: u64,
    i: int,
)
    requires
        g.valid(),
        g.state.open(),
        idx < g.k + g.m,
        0 <= i < g.k + g.m,
    ensures
        ({
            let t = g.inserted(idx, data, payload_len, now_us, seq);
            let fresh: int = if g.shards()[idx as int] is None {
                1
            } else {
                0
            };
            &&& t.shards()[idx as int] == Some(data)
            &&& i != idx ==> t.shards()[i] == g.shards()[i]
            &&& idx < g.k ==> t.lens[idx as int] == payload_len
            &&& i < g.k && i != idx ==> t.lens[i] == g.lens[i]
            &&& t.received == g.received + fresh
            &&& t.data_received == g.data_received + (if idx < g.k {
                fresh
            } else {
                0
            })
            &&& t.first_us == (if g.first_us == 0 && fresh == 1 {
                now_us
            } else {
                g.first_us
            })
            &&& t.first_global_seq == (if g.first_global_seq == 0 {
                seq
            } else {
                g.first_global_seq
            })
        }),
{
    g.law_inserted_valid(idx, data, payload_len, now_us, seq);
    lemma_present(g.shards());
    lemma_present(g.data);
    if g.shards()[idx as int] is None {
        assert(g.received < g.k + g.m);
        if idx < g.k {
            assert(g.data[idx as int] is None);
            assert(g.data_received < g.k);
        }
    }
}

/// A group that waits for shards stalls with a shard exactly when it then lacks more than its
/// parity can replace and more than forty chunks have come since its first one; it is no
/// longer stalled or asked for as soon as it has enough.
pub proof fn law_group_stalls_in_time(
    g: GroupModel,
    idx: u8,
    data: Seq<u8>,
    payload_len: u16,
    now_us: u64,
    seq: u64,
)
    requires
        g.valid(),
        g.state.open(),
        idx < g.k + g.m,
    ensures
        ({
            let t = g.inserted(idx, data, payload_len, now_us, seq);
            let enough = present(t.shards()) >= g.k;
            &&& enough ==> t.state is Collecting
            &&& !enough && !(g.state is Collecting) ==> t.state == g.state
            &&& !enough && g.state is Collecting ==> t.state == (if seq > t.first_global_seq + 40 {
                GroupState::Stalled { since_us: now_us }
            } else {
                GroupState::Collecting
            })
        }),
{
    g.law_inserted_valid(idx, data, payload_len, now_us, seq);
}

/// A group can be put together when all its data is there, or when as many shards are there as
/// it has data and one of them at least is data.
pub proof fn law_group_is_ready_with_enough(g: GroupModel)
    requires
        g.valid(),
        g.state.open(),
    ensures
        g.ready() <==> present(g.data) == g.k || (present(g.shards()) >= g.k && present(g.data)
            > 0),
        g.direct() <==> forall|i: int| 0 <= i < g.k ==> (#[trigger] g.data[i]) is Some,
{
    lemma_present(g.data);
}

/// A group that a chunk completes counts as complete by itself when all its data is there;
/// else parity stands in for exactly the data that is missing.
pub proof fn law_recovery_tells_what_was_missing(
    s: SliceModel,
    chunk: ChunkModel,
    seq: u64,
    now_us: u64,
)
    requires
        s.valid(),
        chunk.k + chunk.m <= 255,
        s.group_after(chunk, seq, now_us).state.open(),
    ensures
        ({
            let b = s.group_before(chunk);
            let g = s.group_after(chunk, seq, now_us);
            match s.recovery(chunk, seq, now_us) {
                None => b.ready() || !g.ready(),
                Some(GroupRecovery::Direct) => !b.ready() && present(g.data) == g.k,
                Some(GroupRecovery::Fec { missing_data_shards, .. }) => {
                    &&& !b.ready()
                    &&& g.ready()
                    &&& missing_data_shards > 0
                    &&& missing_data_shards == g.k - present(g.data)
                },
            }
        }),
{
    let b = s.group_before(chunk);
    s.law_inserted_valid(chunk, seq, now_us);
    b.law_inserted_valid(chunk.shard_idx, chunk.data, chunk.payload_len, now_us, seq);
    lemma_present(s.group_after(chunk, seq, now_us).data);
}

/// There is a task for group `g`, with its shards and lengths.
pub open spec fn has_task(
    tasks: Seq<TaskModel>,
    frame_id: u64,
    slice_idx: u8,
    g: u8,
    group: GroupModel,
) -> bool {
    exists|i: int|
        0 <= i < tasks.len() && (#[trigger] tasks[i]).frame_id == frame_id && tasks[i].slice_idx
            == slice_idx && tasks[i].group_idx == g && tasks[i].k == group.k && tasks[i].m
            == group.m && tasks[i].shards == group.data + group.parity && tasks[i].lens
            == group.lens
}

/// Every group whose reconstruction is due gets a task with all that has come of it, and no
/// other group gets one.
pub proof fn law_due_groups_get_their_task(
    frame_id: u64,
    slice_idx: u8,
    groups: Map<u8, GroupModel>,
    n: nat,
    g: u8,
)
    requires
        n <= 256,
        g < n,
        groups.contains_key(g),
    ensures
        groups[g].state is Decoding ==> has_task(
            tasks_upto(frame_id, slice_idx, groups, n),
            frame_id,
            slice_idx,
            g,
            groups[g],
        ),
        forall|i: int|
            #![trigger tasks_upto(frame_id, slice_idx, groups, n)[i]]
            0 <= i < tasks_upto(frame_id, slice_idx, groups, n).len() ==> {
                let t = tasks_upto(frame_id, slice_idx, groups, n)[i];
                &&& t.frame_id == frame_id
                &&& t.slice_idx == slice_idx
                &&& t.group_idx < n
                &&& groups.contains_key(t.group_idx)
                &&& groups[t.group_idx].state is Decoding
            },
    decreases n,
{
    let all = tasks_upto(frame_id, slice_idx, groups, n);
    let front = tasks_upto(frame_id, slice_idx, groups, (n - 1) as nat);
    lemma_tasks_are_due(frame_id, slice_idx, groups, n);
    if groups[g].state is Decoding {
        if g == n - 1 {
            assert(all[front.len() as int].group_idx == g);
        } else {
            law_due_groups_get_their_task(frame_id, slice_idx, groups, (n - 1) as nat, g);
            let i = choose|i: int|
                0 <= i < front.len() && (#[trigger] front[i]).frame_id == frame_id
                    && front[i].slice_idx == slice_idx && front[i].group_idx == g && front[i].k
                    == groups[g].k && front[i].m == groups[g].m && front[i].shards
                    == groups[g].data + groups[g].parity && front[i].lens == groups[g].lens;
            assert(all[i] == front[i]);
        }
    }
}

proof fn lemma_tasks_are_due(frame_id: u64, slice_idx: u8, groups: Map<u8, GroupModel>, n: nat)
    requires
        n <= 256,
    ensures
        forall|i: int|
            #![trigger tasks_upto(frame_id, slice_idx, groups, n)[i]]
            0 <= i < tasks_upto(frame_id, slice_idx, groups, n).len() ==> {
                let t = tasks_upto(frame_id, slice_idx, groups, n)[i];
                &&& t.frame_id == frame_id
                &&& t.slice_idx == slice_idx
                &&& t.group_idx < n
                &&& groups.contains_key(t.group_idx)
                &&& groups[t.group_idx].state is Decoding
            },
    decreases n,
{
    if n > 0 {
        let front = tasks_upto(frame_id, slice_idx, groups, (n - 1) as nat);
        let all = tasks_upto(frame_id, slice_idx, groups, n);
        lemma_tasks_are_due(frame_id, slice_idx, groups, (n - 1) as nat);
        assert forall|i: int| #![trigger all[i]] 0 <= i < all.len() implies {
            let t = all[i];
            &&& t.frame_id == frame_id
            &&& t.slice_idx == slice_idx
            &&& t.group_idx < n
            &&& groups.contains_key(t.group_idx)
            &&& groups[t.group_idx].state is Decoding
        } by {
            if i < front.len() {
                assert(all[i] == front[i]);
            }
        }
    }
}

/// A slice whose groups are all complete leaves: at once when none of them lacks data, after
/// the reconstruction of those that do else.
pub proof fn law_complete_slice_leaves(s: SliceModel, chunk: ChunkModel, seq: u64, now_us: u64)
    requires
        s.state is Assembling,
    ensures
        ({
            let w = s.with_chunk(chunk, seq, now_us);
            let t = s.inserted(chunk, seq, now_us);
            let lacking = exists|g: u8| #[trigger]
                w.groups.contains_key(g) && w.groups[g].state is Ready && w.groups[g].data_received
                    != w.groups[g].k;
            &&& w.ready_groups != w.total_groups ==> t == w && t.state is Assembling
            &&& w.ready_groups == w.total_groups && !lacking ==> t.state is EmittingDirect
            &&& w.ready_groups == w.total_groups && lacking ==> t.state is EmittingFec
            &&& w.ready_groups == w.total_groups ==> forall|g: u8| #[trigger]
                w.groups.contains_key(g) ==> (t.groups[g].state is Decoding <==> (
                w.groups[g].state is Decoding || (w.groups[g].state is Ready
                    && w.groups[g].data_received != w.groups[g].k)))
        }),
{
    let w = s.with_chunk(chunk, seq, now_us);
    let t = s.inserted(chunk, seq, now_us);
    let lacking = exists|g: u8| #[trigger]
        w.groups.contains_key(g) && w.groups[g].state is Ready && w.groups[g].data_received
            != w.groups[g].k;
    if w.ready_groups == w.total_groups {
        if lacking {
            let g = choose|g: u8| #[trigger]
                w.groups.contains_key(g) && w.groups[g].state is Ready
                    && w.groups[g].data_received != w.groups[g].k;
            assert(w.groups.contains_key(g) && needs_decoding(w.groups[g]));
        }
        assert forall|g: u8| #[trigger] w.groups.contains_key(g) implies (
        t.groups[g].state is Decoding <==> (w.groups[g].state is Decoding || (
        w.groups[g].state is Ready && w.groups[g].data_received != w.groups[g].k))) by {
            assert(t.groups.contains_key(g));
        }
    }
}

/// The bytes of the first data shards that have come, each by the length that was announced.
pub proof fn law_arrived_bytes_are_summed(g: GroupModel, n: nat)
    requires
        g.valid(),
        n < g.k,
    ensures
        arrived_bytes(g, n + 1) == arrived_bytes(g, n) + (if g.data[n as int] is Some {
            g.lens[n as int] as nat
        } else {
            0nat
        }),
        arrived_bytes(g, 0) == 0,
{
}

/// With a group that did not become ready go the group, the bytes that came for it, and the
/// shards that did not come; with one that did goes nothing.
pub proof fn law_waste_is_what_did_not_help(g: GroupModel)
    requires
        g.valid(),
    ensures
        g.state is Ready ==> group_waste(g).groups == 0 && group_waste(g).bytes == 0 && group_waste(
            g,
        ).chunks == 0,
        !(g.state is Ready) ==> group_waste(g).groups == 1 && group_waste(g).bytes == arrived_bytes(
            g,
            g.k as nat,
        ),
        g.state.open() ==> group_waste(g).chunks == g.k + g.m - present(g.shards()),
{
    lemma_present(g.shards());
}

/// A new frame has as many slices as were announced, none of them read, and is dated when its
/// first chunk came.
pub proof fn law_new_frame_is_empty(total_slices: u8, now_us: u64)
    ensures
        ({
            let f = new_frame(total_slices, now_us);
            &&& f.total_slices == total_slices
            &&& f.decoded.len() == total_slices
            &&& forall|i: int| 0 <= i < total_slices ==> (#[trigger] f.decoded[i]) is None
            &&& f.next_emit_idx == 0
            &&& f.ready.len() == 0
            &&& f.first_us == now_us
        }),
{
}

/// A frame notes when the shards of a slice were first complete, when the first
/// reconstruction was asked for and when it was done, each once; it is complete at the moment
/// at which its last slice was read.
pub proof fn law_times_are_noted_once(f: FrameModel, chunk: ChunkModel, seq: u64, now_us: u64)
    requires
        f.valid(),
        f.takes(chunk),
    ensures
        ({
            let t = f.inserted(chunk, seq, now_us);
            let s = f.slice_before(chunk);
            let done = s.state is Assembling && s.with_chunk(chunk, seq, now_us).ready_groups
                == s.with_chunk(chunk, seq, now_us).total_groups;
            &&& t.first_us == f.first_us
            &&& t.last_us == now_us
            &&& t.collecting_done_us == (if done && f.collecting_done_us == 0 {
                now_us
            } else {
                f.collecting_done_us
            })
            &&& t.fec_submitted_us == (if f.tasks(chunk, seq, now_us).len() > 0
                && f.fec_submitted_us == 0 {
                now_us
            } else {
                f.fec_submitted_us
            })
            &&& t.fec_done_us == f.fec_done_us
            &&& !(f.state is Complete) && t.state is Complete ==> t.network_ready_us == Some(
                if f.network_ready_us is Some {
                    f.network_ready_us->0
                } else {
                    now_us
                },
            )
        }),
{
}

/// A group that waits for its reconstruction or is ready takes a shard in but counts none; one
/// that was given up takes none.
pub proof fn law_closed_group_counts_nothing(
    g: GroupModel,
    idx: u8,
    data: Seq<u8>,
    payload_len: u16,
    now_us: u64,
    seq: u64,
)
    requires
        g.valid(),
        g.state is Ready || g.state is Decoding || g.state is Abandoned,
    ensures
        ({
            let t = g.inserted(idx, data, payload_len, now_us, seq);
            &&& t.state == g.state
            &&& t.received == g.received
            &&& t.data_received == g.data_received
            &&& t.received_mask == g.received_mask
            &&& t.first_us == g.first_us
            &&& g.state is Abandoned ==> t == g
            &&& !(g.state is Abandoned) && idx < g.k + g.m ==> t.shards()[idx as int] == Some(data)
            &&& idx >= g.k + g.m ==> t.data == g.data && t.parity == g.parity
        }),
{
}

/// A slice has as many groups as its chunks say, one at least. A chunk goes into its own
/// group, which is made by the first one, and leaves the others.
pub proof fn law_chunk_goes_into_its_group(
    s: SliceModel,
    chunk: ChunkModel,
    seq: u64,
    now_us: u64,
    g: u8,
)
    ensures
        new_slice(chunk.total_groups).total_groups >= 1,
        chunk.total_groups > 0 ==> new_slice(chunk.total_groups).total_groups
            == chunk.total_groups,
        new_slice(chunk.total_groups).ready_groups == 0,
        ({
            let t = s.with_chunk(chunk, seq, now_us);
            &&& t.groups.contains_key(chunk.group_idx)
            &&& g != chunk.group_idx ==> t.groups.contains_key(g) == s.groups.contains_key(g)
            &&& g != chunk.group_idx && s.groups.contains_key(g) ==> t.groups[g] == s.groups[g]
            &&& chunk.total_groups > 0 ==> t.total_groups == chunk.total_groups
            &&& chunk.total_groups == 0 ==> t.total_groups == s.total_groups
            &&& t.state == s.state
            &&& !s.groups.contains_key(chunk.group_idx) ==> t.groups[chunk.group_idx].k == chunk.k
                && t.groups[chunk.group_idx].m == chunk.m
            &&& t.groups[chunk.group_idx].state is Ready <==> (
            s.group_after(chunk, seq, now_us).state is Ready || (!s.group_before(chunk).ready()
                && s.group_after(chunk, seq, now_us).ready()))
            &&& s.ready_groups < 255 ==> t.ready_groups - s.ready_groups == (if !s.group_before(
                chunk,
            ).ready() && s.group_after(chunk, seq, now_us).ready() {
                1int
            } else {
                0
            })
        }),
{
}

/// A chunk that is not wanted changes nothing: when the frame is complete, when it has no such
/// slice, and when the slice has been read.
pub proof fn law_unwanted_chunks_change_nothing(
    f: FrameModel,
    chunk: ChunkModel,
    seq: u64,
    now_us: u64,
)
    requires
        f.valid(),
        !(f.state is Receiving) || chunk.slice_idx >= f.total_slices
            || f.decoded[chunk.slice_idx as int] is Some,
    ensures
        f.inserted(chunk, seq, now_us) == f,
        f.tasks(chunk, seq, now_us).len() == 0,
        f.stalls(chunk, seq, now_us) is None,
        f.recoveries(chunk, seq, now_us).len() == 0,
        !f.awaits(chunk),
{
}

/// A chunk comes in answer to a request when its group had been asked for.
pub proof fn law_answers_are_known(f: FrameModel, chunk: ChunkModel)
    requires
        f.takes(chunk),
    ensures
        f.awaits(chunk) <==> {
            &&& f.slices.contains_key(chunk.slice_idx)
            &&& f.slices[chunk.slice_idx].groups.contains_key(chunk.group_idx)
            &&& f.slices[chunk.slice_idx].groups[chunk.group_idx].state is Requested
            &&& chunk.shard_idx < f.slices[chunk.slice_idx].groups[chunk.group_idx].k
                + f.slices[chunk.slice_idx].groups[chunk.group_idx].m
        },
{
}

/// When a reconstruction is done the slice is read, if it was waited for and can be, and
/// either waits for the slices before it or has left; else nothing is read.
pub proof fn law_reconstructed_slices_are_read(f: FrameModel, idx: u8, now_us: u64)
    requires
        f.valid(),
    ensures
        ({
            let t = f.applied(idx, now_us);
            let waited = f.state is Receiving && idx < f.total_slices && f.decoded[idx as int] is None
                && f.slices.contains_key(idx) && f.slices[idx].state is EmittingFec;
            &&& !waited ==> t == f
            &&& waited && read_payload(f.slices[idx]) is None ==> t.slices == f.slices && t.decoded
                == f.decoded && t.ready == f.ready
            &&& waited && read_payload(f.slices[idx]) is Some ==> {
                &&& t.slices[idx].state is Emitted
                &&& t.next_emit_idx > idx || t.decoded[idx as int] == read_payload(f.slices[idx])
                    || f.next_emit_idx > idx
            }
            &&& waited ==> t.fec_done_us == (if f.fec_done_us == 0 {
                now_us
            } else {
                f.fec_done_us
            })
        }),
{
    if idx < f.total_slices && f.next_emit_idx <= f.total_slices {
        let d = f.decoded.update(idx as int, Some(read_payload(f.slices[idx])->0));
        lemma_run_end(d, f.next_emit_idx as nat);
    }
}

/// A reconstruction is asked for once: the groups of a slice that got their tasks are in work
/// afterwards, and a chunk gives rise to tasks only when it makes its slice whole.
pub proof fn law_tasks_are_given_out_once(f: FrameModel, chunk: ChunkModel, seq: u64, now_us: u64)
    requires
        f.valid(),
        f.tasks(chunk, seq, now_us).len() > 0,
    ensures
        ({
            let t = f.inserted(chunk, seq, now_us);
            let s = t.slices[chunk.slice_idx];
            &&& f.takes(chunk)
            &&& s.state is EmittingFec
            &&& forall|g: u8| #[trigger] s.groups.contains_key(g) ==> !(s.groups[g].state is Decoding)
            &&& forall|g: u8| #[trigger]
                s.groups.contains_key(g) && f.slice_after(
                    chunk,
                    seq,
                    now_us,
                ).groups[g].state is Decoding ==> s.groups[g].state is DecodingInProgress
        }),
{
}

/// A group stalls once: it is put in the queue when it was collecting before.
pub proof fn law_stalls_are_told_once(s: SliceModel, chunk: ChunkModel, seq: u64, now_us: u64)
    ensures
        s.stalls(chunk, seq, now_us) matches Some((slice, group)) ==> {
            &&& slice == chunk.slice_idx
            &&& group == chunk.group_idx
            &&& s.groups.contains_key(group) ==> s.groups[group].state is Collecting
            &&& s.group_after(chunk, seq, now_us).state is Stalled
        },
        s.group_before(chunk).state is Collecting && s.group_after(
            chunk,
            seq,
            now_us,
        ).state is Stalled ==> s.stalls(chunk, seq, now_us) is Some,
{
}

} // verus!
