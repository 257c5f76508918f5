//! Laws of the requests for missing shards.
use crate::control::NackEntry;
use crate::fec::assembler::{
    batch_at, batch_len, nack_round, new_assembler, window_start, with_entry, AssemblerModel, Batch,
    NackRound, NACK_BATCH_SIZE,
};
use crate::fec::assembly_laws::lemma_batch_at_found;
use crate::fec::codec::present;
use crate::fec::frame_builder::FrameModel;
use crate::fec::group_builder::{GroupModel, GroupState};
use crate::fec::slice_builder::SliceState;
use crate::packet::ChunkModel;
use vstd::prelude::*;

verus! {

/// There is a group `g` in slice `s` of frame `id`, and the slice still waits for shards.
pub open spec fn is_open(frames: Map<u64, FrameModel>, id: u64, s: u8, g: u8) -> bool {
    &&& frames.contains_key(id)
    &&& frames[id].slices.contains_key(s)
    &&& frames[id].slices[s].state == SliceState::Assembling
    &&& frames[id].slices[s].groups.contains_key(g)
}

/// Group `g` in slice `s` of frame `id`.
pub open spec fn group_at(frames: Map<u64, FrameModel>, id: u64, s: u8, g: u8) -> GroupModel {
    frames[id].slices[s].groups[g]
}

/// The group is there and lacks shards that parity cannot replace.
pub open spec fn lacks(frames: Map<u64, FrameModel>, id: u64, s: u8, g: u8) -> bool {
    &&& is_open(frames, id, s, g)
    &&& group_at(frames, id, s, g).state is Stalled || group_at(frames, id, s, g).state is Requested
}

/// The group lacks shards, and it has done so for five milliseconds, or eight have passed
/// since it was asked for.
pub open spec fn is_due(frames: Map<u64, FrameModel>, id: u64, s: u8, g: u8, now_us: u64) -> bool {
    &&& is_open(frames, id, s, g)
    &&& match group_at(frames, id, s, g).state {
        GroupState::Stalled { since_us } => now_us >= since_us + 5_000,
        GroupState::Requested { sent_at_us } => now_us >= sent_at_us + 8_000,
        _ => false,
    }
}

/// One of the batches is for frame `id` and holds `e`.
pub open spec fn asks(batches: Seq<Batch>, id: u64, e: NackEntry) -> bool {
    exists|i: int, j: int|
        0 <= i < batches.len() && batches[i].0 == id && 0 <= j < batches[i].1.len()
            && #[trigger] batches[i].1[j] == e
}

/// One of the batches is for frame `id` and has no room left.
pub open spec fn is_full(batches: Seq<Batch>, id: u64) -> bool {
    exists|i: int|
        0 <= i < batches.len() && (#[trigger] batches[i]).0 == id && batches[i].1.len() >= 64
}

/// The entry that asks for what group `g` of slice `s` lacks, and tells what is there of it.
pub open spec fn entry_for(frames: Map<u64, FrameModel>, id: u64, s: u8, g: u8) -> NackEntry {
    NackEntry {
        slice_idx: s,
        group_idx: g,
        received_mask: group_at(frames, id, s, g).received_mask,
    }
}

/// An entry for frame `id` names a group of that frame which was queued, is due and lacks
/// shards, and tells what is there of it.
pub open spec fn is_justified(
    frames: Map<u64, FrameModel>,
    queue: Seq<(u64, u8, u8)>,
    now_us: u64,
    id: u64,
    e: NackEntry,
) -> bool {
    &&& queue.contains((id, e.slice_idx, e.group_idx))
    &&& is_due(frames, id, e.slice_idx, e.group_idx, now_us)
    &&& e.received_mask == group_at(frames, id, e.slice_idx, e.group_idx).received_mask
}

/// A queued group that is due is asked for, if there is room for it.
pub open spec fn is_answered(
    frames: Map<u64, FrameModel>,
    batches: Seq<Batch>,
    now_us: u64,
    item: (u64, u8, u8),
) -> bool {
    is_due(frames, item.0, item.1, item.2, now_us) ==> asks(
        batches,
        item.0,
        entry_for(frames, item.0, item.1, item.2),
    ) || is_full(batches, item.0)
}

/// A round leaves a group as it was, or it asks for the group and notes when it did.
pub open spec fn is_noted(
    frames: Map<u64, FrameModel>,
    r: NackRound,
    now_us: u64,
    id: u64,
    s: u8,
    g: u8,
) -> bool {
    &&& is_open(r.frames, id, s, g) == is_open(frames, id, s, g)
    &&& is_open(frames, id, s, g) ==> if asks(r.batches, id, entry_for(frames, id, s, g)) {
        group_at(r.frames, id, s, g) == (GroupModel {
            state: GroupState::Requested { sent_at_us: now_us },
            ..group_at(frames, id, s, g)
        })
    } else {
        group_at(r.frames, id, s, g) == group_at(frames, id, s, g)
    }
}

proof fn lemma_with_entry(batches: Seq<Batch>, id: u64, e: NackEntry)
    ensures
        asks(with_entry(batches, id, e), id, e),
        forall|x: u64, d: NackEntry| #[trigger]
            asks(with_entry(batches, id, e), x, d) <==> asks(batches, x, d) || (x == id && d == e),
        forall|x: u64| is_full(batches, x) ==> #[trigger] is_full(with_entry(batches, id, e), x),
{
    lemma_batch_at_found(batches, id);
    let i = batch_at(batches, id);
    let t = with_entry(batches, id, e);
    if i < 0 {
        assert(t[batches.len() as int].1[0] == e);
    } else {
        assert(t[i].1[batches[i].1.len() as int] == e);
    }
    assert forall|x: u64, d: NackEntry| #[trigger] asks(t, x, d) implies asks(batches, x, d) || (x
        == id && d == e) by {
        let (a, b) = choose|a: int, b: int|
            0 <= a < t.len() && t[a].0 == x && 0 <= b < t[a].1.len() && #[trigger] t[a].1[b] == d;
        if a < batches.len() && b < batches[a].1.len() {
            assert(batches[a].1[b] == d);
        }
    }
    assert forall|x: u64, d: NackEntry| asks(batches, x, d) implies #[trigger] asks(t, x, d) by {
        let (a, b) = choose|a: int, b: int|
            0 <= a < batches.len() && batches[a].0 == x && 0 <= b < batches[a].1.len()
                && #[trigger] batches[a].1[b] == d;
        assert(t[a].1[b] == d);
    }
    assert forall|x: u64| is_full(batches, x) implies #[trigger] is_full(t, x) by {
        let a = choose|a: int|
            0 <= a < batches.len() && (#[trigger] batches[a]).0 == x && batches[a].1.len() >= 64;
        assert(t[a].0 == x);
    }
}

proof fn lemma_full(batches: Seq<Batch>, id: u64)
    requires
        batch_len(batches, id) >= NACK_BATCH_SIZE,
    ensures
        is_full(batches, id),
{
    lemma_batch_at_found(batches, id);
    let i = batch_at(batches, id);
    assert(batches[i].0 == id);
}

/// What holds after the first `n` requests of a queue.
spec fn so_far(
    frames: Map<u64, FrameModel>,
    queue: Seq<(u64, u8, u8)>,
    now_us: u64,
    n: nat,
    r: NackRound,
) -> bool {
    &&& forall|id: u64, e: NackEntry| #[trigger]
        asks(r.batches, id, e) ==> is_justified(frames, queue, now_us, id, e)
    &&& forall|q: int| 0 <= q < n ==> is_answered(frames, r.batches, now_us, #[trigger] queue[q])
    &&& forall|id: u64, s: u8, g: u8| #[trigger] is_noted(frames, r, now_us, id, s, g)
    &&& r.frames.dom() == frames.dom()
    &&& forall|q: int|
        0 <= q < n && lacks(frames, queue[q].0, queue[q].1, queue[q].2) ==> r.kept.contains(
            #[trigger] queue[q],
        )
    &&& forall|i: int| 0 <= i < r.kept.len() ==> queue.contains(#[trigger] r.kept[i])
}

proof fn lemma_sends(
    frames: Map<u64, FrameModel>,
    queue: Seq<(u64, u8, u8)>,
    now_us: u64,
    n: nat,
    r: NackRound,
)
    requires
        n < queue.len(),
        so_far(frames, queue, now_us, n, r),
        batch_len(r.batches, queue[n as int].0) < NACK_BATCH_SIZE,
        r.frames.contains_key(queue[n as int].0),
        r.frames[queue[n as int].0].nack_decision(queue[n as int].1, queue[n as int].2, now_us)
            is Send,
    ensures
        so_far(frames, queue, now_us, n + 1, r.step(queue[n as int], now_us)),
{
    let item = queue[n as int];
    let (id, s, g) = item;
    let t = r.step(item, now_us);
    let f = r.frames[id];
    assert(queue.contains(item));
    assert(is_noted(frames, r, now_us, id, s, g));
    assert(is_open(r.frames, id, s, g));
    let e = entry_for(frames, id, s, g);
    // A group that was asked for in this round is not due again.
    assert(!asks(r.batches, id, e));
    assert(is_due(frames, id, s, g, now_us));
    assert(t.batches == with_entry(r.batches, id, e));
    lemma_with_entry(r.batches, id, e);
    assert forall|x: u64, y: u8, z: u8| #[trigger] is_noted(frames, t, now_us, x, y, z) by {
        assert(is_noted(frames, r, now_us, x, y, z));
        if x == id && y == s && z == g {
        } else {
            assert(is_open(t.frames, x, y, z) == is_open(r.frames, x, y, z));
            assert(is_open(r.frames, x, y, z) ==> group_at(t.frames, x, y, z) == group_at(
                r.frames,
                x,
                y,
                z,
            ));
            assert(entry_for(frames, x, y, z) == e && x == id ==> y == s && z == g);
        }
    }
    assert(t.frames.dom() =~= frames.dom());
    lemma_kept(queue, n, r.kept, frames);
    assert forall|q: int| 0 <= q < n + 1 implies is_answered(
        frames,
        t.batches,
        now_us,
        #[trigger] queue[q],
    ) by {
        if q < n {
            assert(is_answered(frames, r.batches, now_us, queue[q]));
        }
    }
}

proof fn lemma_kept(
    queue: Seq<(u64, u8, u8)>,
    n: nat,
    kept: Seq<(u64, u8, u8)>,
    frames: Map<u64, FrameModel>,
)
    requires
        n < queue.len(),
        forall|q: int|
            0 <= q < n && lacks(frames, queue[q].0, queue[q].1, queue[q].2) ==> kept.contains(
                #[trigger] queue[q],
            ),
        forall|i: int| 0 <= i < kept.len() ==> queue.contains(#[trigger] kept[i]),
    ensures
        ({
            let k = kept.push(queue[n as int]);
            &&& forall|q: int|
                0 <= q < n + 1 && lacks(frames, queue[q].0, queue[q].1, queue[q].2) ==> k.contains(
                    #[trigger] queue[q],
                )
            &&& forall|i: int| 0 <= i < k.len() ==> queue.contains(#[trigger] k[i])
        }),
{
    let k = kept.push(queue[n as int]);
    assert(k[kept.len() as int] == queue[n as int]);
    assert(queue.contains(queue[n as int]));
    assert forall|q: int|
        0 <= q < n + 1 && lacks(frames, queue[q].0, queue[q].1, queue[q].2) implies k.contains(
        #[trigger] queue[q],
    ) by {
        if q < n {
            let i = choose|i: int| 0 <= i < kept.len() && kept[i] == queue[q];
            assert(k[i] == queue[q]);
        }
    }
    assert forall|i: int| 0 <= i < k.len() implies queue.contains(#[trigger] k[i]) by {
        if i < kept.len() {
            assert(queue.contains(kept[i]));
        }
    }
}

proof fn lemma_stays(
    frames: Map<u64, FrameModel>,
    queue: Seq<(u64, u8, u8)>,
    now_us: u64,
    n: nat,
    r: NackRound,
)
    requires
        n < queue.len(),
        so_far(frames, queue, now_us, n, r),
        !(r.frames.contains_key(queue[n as int].0) && batch_len(r.batches, queue[n as int].0)
            < NACK_BATCH_SIZE && r.frames[queue[n as int].0].nack_decision(
            queue[n as int].1,
            queue[n as int].2,
            now_us,
        ) is Send),
    ensures
        so_far(frames, queue, now_us, n + 1, r.step(queue[n as int], now_us)),
{
    let item = queue[n as int];
    let (id, s, g) = item;
    let t = r.step(item, now_us);
    assert(is_noted(frames, r, now_us, id, s, g));
    assert forall|x: u64, y: u8, z: u8| #[trigger] is_noted(frames, t, now_us, x, y, z) by {
        assert(is_noted(frames, r, now_us, x, y, z));
    }
    lemma_kept(queue, n, r.kept, frames);
    if batch_len(r.batches, id) >= NACK_BATCH_SIZE {
        lemma_full(r.batches, id);
    }
    assert(is_answered(frames, r.batches, now_us, item));
}

proof fn lemma_so_far(
    frames: Map<u64, FrameModel>,
    queue: Seq<(u64, u8, u8)>,
    now_us: u64,
    n: nat,
)
    requires
        n <= queue.len(),
    ensures
        so_far(frames, queue, now_us, n, nack_round(frames, queue, now_us, n)),
    decreases n,
{
    if n > 0 {
        let m = (n - 1) as nat;
        lemma_so_far(frames, queue, now_us, m);
        let r = nack_round(frames, queue, now_us, m);
        let (id, s, g) = queue[m as int];
        if r.frames.contains_key(id) && batch_len(r.batches, id) < NACK_BATCH_SIZE
            && r.frames[id].nack_decision(s, g, now_us) is Send {
            lemma_sends(frames, queue, now_us, m, r);
        } else {
            lemma_stays(frames, queue, now_us, m, r);
        }
    }
}

/// Every entry of every batch names a group of the batch's frame that was queued, is due and
/// has fewer shards than it needs, and tells which of its shards are there. Every queued
/// group that is due has such an entry, unless the batch for its frame is full. A group that
/// was asked for is marked with the time, and no other group changes. A group that lacks
/// shards stays in the queue.
pub proof fn law_requests_name_what_is_due(a: AssemblerModel, now_us: u64)
    requires
        a.valid(),
    ensures
        ({
            let r = a.nacks(now_us);
            &&& forall|i: int, j: int|
                0 <= i < r.batches.len() && 0 <= j < r.batches[i].1.len() ==> is_justified(
                    a.frames,
                    a.nack_queue,
                    now_us,
                    r.batches[i].0,
                    #[trigger] r.batches[i].1[j],
                )
            &&& forall|i: int, j: int|
                0 <= i < r.batches.len() && 0 <= j < r.batches[i].1.len() ==> {
                    let e = #[trigger] r.batches[i].1[j];
                    let group = group_at(a.frames, r.batches[i].0, e.slice_idx, e.group_idx);
                    present(group.shards()) < group.k
                }
            &&& forall|q: int|
                0 <= q < a.nack_queue.len() ==> is_answered(
                    a.frames,
                    r.batches,
                    now_us,
                    #[trigger] a.nack_queue[q],
                )
            &&& forall|id: u64, s: u8, g: u8| #[trigger] is_noted(a.frames, r, now_us, id, s, g)
            &&& forall|q: int|
                0 <= q < a.nack_queue.len() && lacks(
                    a.frames,
                    a.nack_queue[q].0,
                    a.nack_queue[q].1,
                    a.nack_queue[q].2,
                ) ==> r.kept.contains(#[trigger] a.nack_queue[q])
        }),
{
    let r = a.nacks(now_us);
    lemma_so_far(a.frames, a.nack_queue, now_us, a.nack_queue.len());
    assert forall|i: int, j: int|
        0 <= i < r.batches.len() && 0 <= j < r.batches[i].1.len() implies is_justified(
        a.frames,
        a.nack_queue,
        now_us,
        r.batches[i].0,
        #[trigger] r.batches[i].1[j],
    ) by {
        assert(asks(r.batches, r.batches[i].0, r.batches[i].1[j]));
    }
    assert forall|i: int, j: int|
        0 <= i < r.batches.len() && 0 <= j < r.batches[i].1.len() implies {
        let e = #[trigger] r.batches[i].1[j];
        let group = group_at(a.frames, r.batches[i].0, e.slice_idx, e.group_idx);
        present(group.shards()) < group.k
    } by {
        let e = r.batches[i].1[j];
        let id = r.batches[i].0;
        assert(asks(r.batches, id, e));
        assert(is_justified(a.frames, a.nack_queue, now_us, id, e));
        assert(a.frames[id].slices[e.slice_idx].valid());
        assert(group_at(a.frames, id, e.slice_idx, e.group_idx).valid());
    }
}

/// No group is asked for twice in a round.
pub proof fn law_no_request_is_repeated(
    frames: Map<u64, FrameModel>,
    queue: Seq<(u64, u8, u8)>,
    now_us: u64,
    n: nat,
)
    requires
        n <= queue.len(),
    ensures
        ({
            let b = nack_round(frames, queue, now_us, n).batches;
            forall|i: int, j: int, k: int|
                #![trigger b[i].1[j], b[i].1[k]]
                0 <= i < b.len() && 0 <= j < k < b[i].1.len() ==> b[i].1[j].slice_idx
                    != b[i].1[k].slice_idx || b[i].1[j].group_idx != b[i].1[k].group_idx
        }),
    decreases n,
{
    if n > 0 {
        let m = (n - 1) as nat;
        law_no_request_is_repeated(frames, queue, now_us, m);
        lemma_so_far(frames, queue, now_us, m);
        let r = nack_round(frames, queue, now_us, m);
        let (id, s, g) = queue[m as int];
        let t = r.step(queue[m as int], now_us);
        if t.batches != r.batches {
            lemma_batch_at_found(r.batches, id);
            assert(is_noted(frames, r, now_us, id, s, g));
            assert(!asks(r.batches, id, entry_for(frames, id, s, g)));
            let x = batch_at(r.batches, id);
            if x >= 0 {
                assert forall|j: int| 0 <= j < r.batches[x].1.len() implies (
                #[trigger] r.batches[x].1[j]).slice_idx != s || r.batches[x].1[j].group_idx != g by {
                    let e = r.batches[x].1[j];
                    assert(asks(r.batches, id, e));
                    assert(is_justified(frames, queue, now_us, id, e));
                }
            }
        }
    }
}

/// Every group that lacks shards is in the queue.
pub open spec fn all_queued(a: AssemblerModel) -> bool {
    forall|id: u64, s: u8, g: u8| #[trigger]
        lacks(a.frames, id, s, g) ==> a.nack_queue.contains((id, s, g))
}

proof fn lemma_chunk_queued(a: AssemblerModel, chunk: ChunkModel, receive_us: u64, now_us: u64)
    requires
        all_queued(a),
    ensures
        all_queued(a.with_chunk(chunk, receive_us, now_us)),
{
    let b = a.with_chunk(chunk, receive_us, now_us);
    let f = a.frame_before(chunk, receive_us);
    let seq = a.chunk_counter;
    assert forall|id: u64, s: u8, g: u8| #[trigger] lacks(b.frames, id, s, g) implies
        b.nack_queue.contains((id, s, g)) by {
        let fresh = id == chunk.frame_id && s == chunk.slice_idx && g == chunk.group_idx
            && f.stalls(chunk, seq, now_us) is Some;
        if fresh {
            assert(b.nack_queue.last() == (id, s, g));
        } else {
            if id == chunk.frame_id && f.takes(chunk) {
                let before = f.slice_before(chunk);
                let after = f.slice_after(chunk, seq, now_us);
                if s == chunk.slice_idx {
                    assert(after.state is Assembling);
                    assert(before.state is Assembling);
                    if g != chunk.group_idx {
                        assert(before.groups.contains_key(g));
                    }
                }
            }
            assert(lacks(a.frames, id, s, g));
            let i = choose|i: int| 0 <= i < a.nack_queue.len() && a.nack_queue[i] == (id, s, g);
            assert(b.nack_queue[i] == (id, s, g));
        }
    }
}

proof fn lemma_fewer_queued(a: AssemblerModel, b: AssemblerModel)
    requires
        all_queued(a),
        b.nack_queue == a.nack_queue,
        forall|id: u64| #[trigger]
            b.frames.contains_key(id) ==> a.frames.contains_key(id) && a.frames[id] == b.frames[id],
    ensures
        all_queued(b),
{
    assert forall|id: u64, s: u8, g: u8| #[trigger] lacks(b.frames, id, s, g) implies
        b.nack_queue.contains((id, s, g)) by {
        assert(lacks(a.frames, id, s, g));
    }
}

proof fn lemma_applied_queued(
    a: AssemblerModel,
    results: Seq<(u64, u8)>,
    receive_us: u64,
    now_us: u64,
    n: nat,
)
    requires
        all_queued(a),
    ensures
        all_queued(a.applied(results, receive_us, now_us, n)),
    decreases n,
{
    if n > 0 {
        lemma_applied_queued(a, results, receive_us, now_us, (n - 1) as nat);
        let b = a.applied(results, receive_us, now_us, (n - 1) as nat);
        let c = a.applied(results, receive_us, now_us, n);
        assert forall|id: u64, s: u8, g: u8| #[trigger] lacks(c.frames, id, s, g) implies
            c.nack_queue.contains((id, s, g)) by {
            assert(lacks(b.frames, id, s, g));
        }
    }
}

proof fn lemma_sent_queued(a: AssemblerModel, now_us: u64)
    requires
        all_queued(a),
    ensures
        all_queued(a.with_nacks(now_us)),
{
    let r = a.nacks(now_us);
    lemma_so_far(a.frames, a.nack_queue, now_us, a.nack_queue.len());
    assert forall|id: u64, s: u8, g: u8| #[trigger] lacks(r.frames, id, s, g) implies
        r.kept.contains((id, s, g)) by {
        assert(is_noted(a.frames, r, now_us, id, s, g));
        let e = entry_for(a.frames, id, s, g);
        if asks(r.batches, id, e) {
            assert(is_justified(a.frames, a.nack_queue, now_us, id, e));
        }
        assert(lacks(a.frames, id, s, g));
        let q = choose|q: int| 0 <= q < a.nack_queue.len() && a.nack_queue[q] == (id, s, g);
        assert(r.kept.contains(a.nack_queue[q]));
    }
}

proof fn lemma_flushed_queued(a: AssemblerModel, min_frame_id: u64, now_us: u64)
    requires
        all_queued(a),
    ensures
        all_queued(a.flushed(min_frame_id, now_us).0),
    decreases
        match a.next {
            Some(id) => u64::MAX - id,
            None => 0,
        },
{
    if let Some(id) = a.next {
        let step = a.flush_step(min_frame_id, now_us);
        lemma_fewer_queued(a, step.after);
        if step.go_on && id < u64::MAX && step.after.next == Some((id + 1) as u64) {
            lemma_flushed_queued(step.after, min_frame_id, now_us);
        }
    }
}

/// No group that lacks shards is forgotten: an assembler that has seen nothing has none, and
/// whatever a chunk or a look without one brings about, every such group is in the queue
/// from which the requests are sent.
pub proof fn law_no_group_is_forgotten(
    a: AssemblerModel,
    chunk: ChunkModel,
    receive_us: u64,
    now_us: u64,
)
    requires
        all_queued(a),
    ensures
        all_queued(new_assembler()),
        all_queued(a.inserted(chunk, receive_us, now_us).after),
        all_queued(a.polled(now_us).after),
{
    let min = window_start(a.head());
    let results = AssemblerModel { results: Seq::empty(), ..a };
    lemma_applied_queued(results, a.results, now_us, now_us, a.results.len());
    let c = a.with_results(now_us, now_us);
    lemma_flushed_queued(c, min, now_us);
    lemma_sent_queued(c.flushed(min, now_us).0, now_us);
    if chunk.frame_id >= a.counted(chunk.frame_id).next->0 {
        let b = a.counted(chunk.frame_id).evicted(window_start(chunk.frame_id), receive_us);
        lemma_fewer_queued(a, b);
        lemma_chunk_queued(b, chunk, receive_us, now_us);
        let t = a.taken(chunk, receive_us, now_us);
        let e = AssemblerModel { stats: t.stats.after_log(receive_us, t.stats_every_us), ..t };
        lemma_applied_queued(
            AssemblerModel { results: Seq::empty(), ..e },
            e.results,
            receive_us,
            now_us,
            e.results.len(),
        );
        let d = e.with_results(receive_us, now_us);
        lemma_sent_queued(d, receive_us);
        lemma_flushed_queued(d.with_nacks(receive_us), window_start(chunk.frame_id), now_us);
    }
}

} // verus!
