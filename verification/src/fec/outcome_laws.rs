//! Laws of what a chunk, or a look without one, brings about.
use crate::fec::assembler::{lemma_highest_exists, window_start, AssemblerModel};
use crate::fec::assembly_laws::law_frames_leave_in_order;
use crate::fec::frame_builder::FrameModel;
use crate::packet::{ChunkModel, PacketModel};
use vstd::prelude::*;

verus! {

/// The packets of the frame stand in `packets` from place `p` on.
pub open spec fn frame_stands_at(packets: Seq<PacketModel>, f: FrameModel, p: int) -> bool {
    &&& 0 <= p
    &&& p + f.ready.len() <= packets.len()
    &&& forall|i: int|
        0 <= i < f.ready.len() ==> {
            let q = #[trigger] packets[p + i];
            &&& q.frame_id == f.ready[i].frame_id
            &&& q.slice_idx == f.ready[i].slice_idx
            &&& q.payload == f.ready[i].payload
            &&& q.is_key == f.ready[i].is_key
            &&& q.is_last == f.ready[i].is_last
            &&& q.is_concealed == f.ready[i].is_concealed
        }
}

/// The frames from the next one up to `id` are there and complete.
pub open spec fn complete_up_to(a: AssemblerModel, id: u64) -> bool {
    &&& a.next is Some
    &&& a.next->0 <= id
    &&& forall|x: u64|
        a.next->0 <= x <= id ==> #[trigger] a.frames.contains_key(x) && a.frames[x].state is Complete
}

/// When the frames from the next one on are complete they leave at once, each with all its
/// packets in their order, and the frame behind them is next.
pub proof fn law_complete_frames_leave(a: AssemblerModel, min_frame_id: u64, now_us: u64, id: u64)
    requires
        a.valid(),
        complete_up_to(a, id),
    ensures
        ({
            let (b, packets) = a.flushed(min_frame_id, now_us);
            &&& b.next is Some
            &&& b.next->0 > id
            &&& exists|p: int| #[trigger] frame_stands_at(packets, a.frames[id], p)
        }),
    decreases id - a.next->0,
{
    let first = a.next->0;
    assert(a.frames.contains_key(first));
    let step = a.flush_step(min_frame_id, now_us);
    let b = step.after;
    assert(b.frames.dom() =~= a.frames.dom().remove(first));
    assert(b.valid());
    let rest = b.flushed(min_frame_id, now_us);
    let packets = a.flushed(min_frame_id, now_us).1;
    assert(packets == step.packets + rest.1);
    if first == id {
        assert(frame_stands_at(packets, a.frames[id], 0));
        law_frames_leave_in_order(b, min_frame_id, now_us);
    } else {
        assert forall|x: u64| b.next->0 <= x <= id implies #[trigger] b.frames.contains_key(x)
            && b.frames[x].state is Complete by {
            assert(a.frames.contains_key(x));
        }
        assert(a.frames.contains_key(id));
        law_complete_frames_leave(b, min_frame_id, now_us, id);
        let p = choose|p: int| #[trigger] frame_stands_at(rest.1, b.frames[id], p);
        let f = a.frames[id];
        let q = step.packets.len() + p;
        assert forall|i: int| 0 <= i < f.ready.len() implies {
            let y = #[trigger] packets[q + i];
            &&& y.frame_id == f.ready[i].frame_id
            &&& y.slice_idx == f.ready[i].slice_idx
            &&& y.payload == f.ready[i].payload
            &&& y.is_key == f.ready[i].is_key
            &&& y.is_last == f.ready[i].is_last
            &&& y.is_concealed == f.ready[i].is_concealed
        } by {
            assert(packets[q + i] == rest.1[p + i]);
        }
        assert(frame_stands_at(packets, f, q));
    }
}

/// The state in which the arrival of a chunk leaves the frames before requests are sent: with
/// the chunk and all results in them.
pub open spec fn before_requests(
    a: AssemblerModel,
    chunk: ChunkModel,
    receive_us: u64,
    now_us: u64,
) -> AssemblerModel {
    let t = a.taken(chunk, receive_us, now_us);
    AssemblerModel {
        stats: t.stats.after_log(receive_us, t.stats_every_us),
        ..t
    }.with_results(receive_us, now_us)
}

/// A chunk in time brings about the requests that are due once it is in its frame, and the
/// packets that can leave then.
pub proof fn law_chunk_brings_what_is_due(
    a: AssemblerModel,
    chunk: ChunkModel,
    receive_us: u64,
    now_us: u64,
)
    requires
        a.next matches Some(id) ==> chunk.frame_id >= id,
    ensures
        ({
            let o = a.inserted(chunk, receive_us, now_us);
            let c = before_requests(a, chunk, receive_us, now_us);
            let f = c.with_nacks(receive_us).flushed(window_start(chunk.frame_id), now_us);
            &&& o.nacks == c.nacks(receive_us).batches
            &&& o.packets == f.1
            &&& o.after == f.0
        }),
{
}

/// A look without a chunk brings about the packets that can leave once all results are in
/// their frames, and the requests that are due then.
pub proof fn law_look_brings_what_is_due(a: AssemblerModel, now_us: u64)
    ensures
        ({
            let o = a.polled(now_us);
            let f = a.with_results(now_us, now_us).flushed(
                window_start(
                    if a.next is Some {
                        a.next->0
                    } else {
                        0
                    },
                ),
                now_us,
            );
            &&& o.packets == f.1
            &&& o.nacks == f.0.nacks(now_us).batches
            &&& o.after == f.0.with_nacks(now_us)
            &&& o.report is None
        }),
{
}

/// The first chunk of all tells which frame leaves first; later ones do not change that.
pub proof fn law_first_chunk_tells_the_start(a: AssemblerModel, frame_id: u64)
    requires
        a.chunk_counter < u64::MAX,
    ensures
        a.next is None ==> a.counted(frame_id).next == Some(frame_id),
        a.next is Some ==> a.counted(frame_id).next == a.next,
        a.counted(frame_id).chunk_counter == a.chunk_counter + 1,
        a.counted(frame_id).frames == a.frames,
{
}

/// A frame stays when it is in the window and began to come less than 150 milliseconds ago;
/// else it is given up, and the highest number of such a frame is remembered.
pub proof fn law_young_frames_stay(a: AssemblerModel, min_frame_id: u64, now_us: u64, id: u64)
    requires
        a.frames.dom().finite(),
        a.frames.contains_key(id),
    ensures
        ({
            let b = a.evicted(min_frame_id, now_us);
            let stays = id >= min_frame_id && now_us < a.frames[id].first_us + 150_000;
            &&& b.frames.contains_key(id) <==> stays
            &&& stays ==> b.frames[id] == a.frames[id]
            &&& !stays ==> b.last_evicted is Some && b.last_evicted->0 >= id
            &&& a.last_evicted is Some ==> b.last_evicted is Some && b.last_evicted->0
                >= a.last_evicted->0
        }),
{
    let gone = a.stale(min_frame_id, now_us);
    assert(gone.subset_of(a.frames.dom()));
    vstd::set_lib::lemma_len_subset(gone, a.frames.dom());
    lemma_highest_exists(gone, a.last_evicted);
    assert(gone.contains(id) <==> !(id >= min_frame_id && now_us < a.frames[id].first_us + 150_000));
}

/// A chunk of the frame that is next ends the waiting for it, and any other leaves it. It goes
/// into its own frame, which is made by the first one, and leaves the others.
pub proof fn law_chunk_goes_into_its_frame(
    a: AssemblerModel,
    chunk: ChunkModel,
    receive_us: u64,
    now_us: u64,
    id: u64,
)
    ensures
        ({
            let b = a.with_chunk(chunk, receive_us, now_us);
            &&& b.stall_since == (if a.next == Some(chunk.frame_id) {
                None
            } else {
                a.stall_since
            })
            &&& b.next == a.next
            &&& b.results == a.results
            &&& b.frames.contains_key(chunk.frame_id)
            &&& id != chunk.frame_id ==> b.frames.contains_key(id) == a.frames.contains_key(id)
            &&& id != chunk.frame_id && a.frames.contains_key(id) ==> b.frames[id] == a.frames[id]
            &&& b.frames[chunk.frame_id].first_us == (if a.frames.contains_key(chunk.frame_id) {
                a.frames[chunk.frame_id].first_us
            } else {
                receive_us
            })
            &&& b.frames[chunk.frame_id].total_slices == (if a.frames.contains_key(
                chunk.frame_id,
            ) {
                a.frames[chunk.frame_id].total_slices
            } else {
                chunk.total_slices
            })
            &&& a.tasks == b.tasks.take(a.tasks.len() as int)
            &&& a.nack_queue == b.nack_queue.take(a.nack_queue.len() as int)
        }),
{
    let b = a.with_chunk(chunk, receive_us, now_us);
    assert(b.tasks.take(a.tasks.len() as int) =~= a.tasks);
    assert(b.nack_queue.take(a.nack_queue.len() as int) =~= a.nack_queue);
}

/// Snapshots are for looking at: taking one changes nothing else, and none is taken unless it
/// is asked for.
pub proof fn law_snapshots_change_nothing(a: AssemblerModel, frame_id: u64, now_us: u64)
    ensures
        ({
            let b = a.refreshed(frame_id, now_us);
            &&& b == (AssemblerModel { diag: b.diag, ..a })
            &&& !a.debug || !a.frames.contains_key(frame_id) ==> b == a
        }),
{
}

} // verus!
