//! The packets that leave carry the slices that came, in order.
use crate::fec::assembler::{nack_round, stamped, window_start, AssemblerModel};
use crate::fec::frame_builder::{
    lemma_run_end, new_frame, packet_of, read_payload, run_end, FrameModel,
};
use crate::fec::assembly_laws::lemma_run;
use crate::fec::slice_builder::{SliceModel, SliceState};
use crate::fec::slice_wire::{slice_of, SliceFieldsView, TraceFields};
use crate::packet::{ChunkModel, FrameTrace, NaluType, PacketModel, VideoSliceModel};
use vstd::prelude::*;

verus! {

/// The fields of a trace in their order on the wire.
pub open spec fn trace_values(t: FrameTrace) -> TraceFields {
    (
        t.capture_us,
        t.encode_us,
        t.serialize_us,
        t.receive_us,
        t.reassembled_us,
        t.jitter_out_us,
        t.decoder_submit_us,
        t.decode_us,
        t.present_us,
        t.network_ready_us,
        t.hol_released_us,
        t.collecting_done_us,
        t.fec_submitted_us,
        t.fec_done_us,
    )
}

/// The number of a unit type on the wire, and the byte that some have behind it.
pub open spec fn type_number(t: NaluType) -> (u32, Seq<u8>) {
    match t {
        NaluType::VideoParamSet => (0, Seq::empty()),
        NaluType::SeqParamSet => (1, Seq::empty()),
        NaluType::PicParamSet => (2, Seq::empty()),
        NaluType::Sei => (3, Seq::empty()),
        NaluType::SliceIdr => (4, Seq::empty()),
        NaluType::SliceTrailing => (5, Seq::empty()),
        NaluType::Other(b) => (6, seq![b]),
    }
}

/// A slice whose fields were written in their order is read as that slice, whatever follows.
pub proof fn law_slice_is_read_from_its_fields(v: VideoSliceModel, rest: Seq<u8>)
    ensures
        ({
            let fields: SliceFieldsView = (
                v.frame_id,
                v.slice_idx,
                v.total_slices,
                v.is_key,
                v.is_last,
                v.payload,
                match v.trace {
                    Some(t) => Some(trace_values(t)),
                    None => None,
                },
                type_number(v.nal_type).0,
            );
            slice_of(fields, type_number(v.nal_type).1 + rest) == Some(v)
        }),
{
}

/// The packet carries the slice: its numbers, its bytes and its flags, and its trace with the
/// time at which the frame began to come.
pub open spec fn carries(p: PacketModel, v: VideoSliceModel, first_us: u64) -> bool {
    &&& p.frame_id == v.frame_id
    &&& p.slice_idx == v.slice_idx
    &&& p.payload == v.payload
    &&& p.is_key == v.is_key
    &&& p.is_last == v.is_last
    &&& !p.is_concealed
    &&& (p.trace is Some) == (v.trace is Some)
    &&& p.trace is Some ==> {
        let (t, u) = (p.trace->0, v.trace->0);
        &&& t.receive_us == first_us
        &&& t.capture_us == u.capture_us
        &&& t.encode_us == u.encode_us
        &&& t.serialize_us == u.serialize_us
    }
}

/// The packet that leaves carries the slice. The last one of a frame that is given up is
/// marked as the end and as concealed; else the flag is that of the slice.
pub open spec fn delivers(p: PacketModel, v: VideoSliceModel, f: FrameModel, now_us: u64) -> bool {
    &&& p.frame_id == v.frame_id
    &&& p.slice_idx == v.slice_idx
    &&& p.payload == v.payload
    &&& p.is_key == v.is_key
    &&& p.is_last == (v.is_last || p.is_concealed)
    &&& p.is_concealed ==> !(f.state is Complete)
    &&& (p.trace is Some) == (v.trace is Some)
    &&& p.trace is Some ==> {
        let (t, u) = (p.trace->0, v.trace->0);
        &&& t.receive_us == f.first_us
        &&& t.capture_us == u.capture_us
        &&& t.encode_us == u.encode_us
        &&& t.serialize_us == u.serialize_us
        &&& t.hol_released_us == now_us
        &&& t.collecting_done_us == f.collecting_done_us
        &&& t.fec_submitted_us == f.fec_submitted_us
        &&& t.fec_done_us == f.fec_done_us
        &&& f.network_ready_us is Some ==> t.network_ready_us == f.network_ready_us->0
    }
}

/// Slice `i` has been read from the bytes of its groups.
pub open spec fn slice_is_read(f: FrameModel, i: int) -> bool {
    &&& f.slices.contains_key(i as u8)
    &&& f.slices[i as u8].state is Emitted
    &&& read_payload(f.slices[i as u8]) is Some
}

/// The slice that stands in the bytes of slice `i`.
pub open spec fn slice_read(f: FrameModel, i: int) -> VideoSliceModel {
    read_payload(f.slices[i as u8])->0
}

/// Packet `i` of a frame carries its slice `i`, as it was read.
pub open spec fn packet_carries(f: FrameModel, i: int) -> bool {
    slice_is_read(f, i) && carries(f.ready[i], slice_read(f, i), f.first_us)
}

/// Slice `i` waits as it was read, if it waits.
pub open spec fn waits_as_read(f: FrameModel, i: int) -> bool {
    f.decoded[i] is Some ==> slice_is_read(f, i) && f.decoded[i] == Some(slice_read(f, i))
}

/// The packets of a frame are those of its slices from the first one on, each read from the
/// bytes that came for it.
pub open spec fn faithful(f: FrameModel) -> bool {
    &&& f.valid()
    &&& f.ready.len() == f.next_emit_idx
    &&& forall|i: int| 0 <= i < f.next_emit_idx ==> #[trigger] packet_carries(f, i)
    &&& forall|i: int| 0 <= i < f.decoded.len() ==> #[trigger] waits_as_read(f, i)
    &&& f.state is Complete ==> f.next_emit_idx == f.total_slices
}

/// All frames are faithful.
pub open spec fn all_faithful(a: AssemblerModel) -> bool {
    forall|id: u64| #[trigger] a.frames.contains_key(id) ==> faithful(a.frames[id])
}

proof fn lemma_new_faithful(total_slices: u8, receive_us: u64)
    ensures
        faithful(new_frame(total_slices, receive_us)),
{
}

proof fn lemma_released_faithful(f: FrameModel)
    requires
        faithful(f),
    ensures
        faithful(f.released()),
        f.released().slices == f.slices,
{
    let t = f.released();
    let from = f.next_emit_idx as nat;
    lemma_run_end(f.decoded, from);
    lemma_run(f.decoded, from);
    assert forall|i: int| 0 <= i < t.next_emit_idx implies #[trigger] packet_carries(t, i) by {
        if i < from {
            assert(packet_carries(f, i));
        } else {
            assert(f.decoded[i] is Some);
            assert(waits_as_read(f, i));
            assert(t.ready[i] == packet_of(f.decoded[i]->0, f.first_us));
        }
    }
    assert forall|i: int| 0 <= i < t.decoded.len() implies #[trigger] waits_as_read(t, i) by {
        assert(waits_as_read(f, i));
    }
}

/// A slice takes the place of one that was not read.
proof fn lemma_slice_put(f: FrameModel, t: FrameModel, idx: u8, s: SliceModel)
    requires
        faithful(f),
        t.valid(),
        !f.slices.contains_key(idx) || !(f.slices[idx].state is Emitted),
        t.slices == f.slices.insert(idx, s),
        t.decoded == f.decoded,
        t.ready == f.ready,
        t.next_emit_idx == f.next_emit_idx,
        t.total_slices == f.total_slices,
        t.first_us == f.first_us,
        t.state == f.state,
    ensures
        faithful(t),
{
    assert forall|i: int| 0 <= i < t.next_emit_idx implies #[trigger] packet_carries(t, i) by {
        assert(packet_carries(f, i));
    }
    assert forall|i: int| 0 <= i < t.decoded.len() implies #[trigger] waits_as_read(t, i) by {
        assert(waits_as_read(f, i));
    }
}

proof fn lemma_with_slice_faithful(
    f: FrameModel,
    idx: u8,
    s: SliceModel,
    slice: VideoSliceModel,
    now_us: u64,
)
    requires
        faithful(f),
        s.valid(),
        idx < f.decoded.len(),
        !f.slices.contains_key(idx) || !(f.slices[idx].state is Emitted),
        read_payload(s) == Some(slice),
    ensures
        faithful(f.with_slice(idx, s, slice, now_us)),
{
    let e = SliceModel { state: SliceState::Emitted, ..s };
    lemma_payload_same(s, e, s.total_groups as nat);
    assert(e.valid());
    let mid = FrameModel { slices: f.slices.insert(idx, e), ..f };
    assert(mid.valid());
    lemma_slice_put(f, mid, idx, e);
    let t = FrameModel { decoded: f.decoded.update(idx as int, Some(slice)), ..mid };
    assert(read_payload(e) == Some(slice));
    assert forall|i: int| 0 <= i < t.next_emit_idx implies #[trigger] packet_carries(t, i) by {
        assert(packet_carries(mid, i));
    }
    assert forall|i: int| 0 <= i < t.decoded.len() implies #[trigger] waits_as_read(t, i) by {
        if i != idx {
            assert(waits_as_read(mid, i));
        }
    }
    assert(faithful(t));
    lemma_released_faithful(t);
    lemma_times_faithful(t.released(), t.released().advanced(now_us));
}

/// The state of a slice has no part in its bytes.
proof fn lemma_payload_same(s: SliceModel, t: SliceModel, n: nat)
    requires
        s.groups == t.groups,
    ensures
        s.payload_upto(n) == t.payload_upto(n),
    decreases n,
{
    if n > 0 {
        lemma_payload_same(s, t, (n - 1) as nat);
    }
}

/// What a frame releases stays what was read when a chunk arrives.
pub proof fn law_arrivals_keep_frames_faithful(
    f: FrameModel,
    chunk: ChunkModel,
    seq: u64,
    now_us: u64,
)
    requires
        faithful(f),
        chunk.k + chunk.m <= 255,
    ensures
        faithful(f.inserted(chunk, seq, now_us)),
{
    f.law_inserted_valid(chunk, seq, now_us);
    let g = FrameModel { last_us: now_us, ..f };
    assert(faithful(g)) by {
        assert forall|i: int| 0 <= i < g.next_emit_idx implies #[trigger] packet_carries(g, i) by {
            assert(packet_carries(f, i));
        }
        assert forall|i: int| 0 <= i < g.decoded.len() implies #[trigger] waits_as_read(g, i) by {
            assert(waits_as_read(f, i));
        }
    }
    if f.takes(chunk) {
        let idx = chunk.slice_idx;
        let s = g.slice_after(chunk, seq, now_us);
        lemma_slice_valid(f, chunk, seq, now_us);
        let t = g.with_chunk(chunk, seq, now_us);
        match s.state {
            SliceState::EmittingFec => {
                let put = t.slices[idx];
                lemma_frame_put_valid(g, t, idx, put);
                lemma_slice_put(g, t, idx, put);
            },
            SliceState::EmittingDirect => {
                match read_payload(s) {
                    Some(slice) => {
                        lemma_with_slice_faithful(g, idx, s, slice, now_us);
                    },
                    None => {
                        lemma_frame_put_valid(g, t, idx, s);
                        lemma_slice_put(g, t, idx, s);
                    },
                }
            },
            _ => {
                lemma_frame_put_valid(g, t, idx, s);
                lemma_slice_put(g, t, idx, s);
            },
        }
        lemma_times_faithful(t, f.inserted(chunk, seq, now_us));
    }
}

proof fn lemma_slice_valid(f: FrameModel, chunk: ChunkModel, seq: u64, now_us: u64)
    requires
        f.valid(),
        chunk.k + chunk.m <= 255,
    ensures
        f.slice_before(chunk).valid(),
        f.slice_after(chunk, seq, now_us).valid(),
{
    f.slice_before(chunk).law_inserted_valid(chunk, seq, now_us);
}

proof fn lemma_frame_put_valid(f: FrameModel, t: FrameModel, idx: u8, s: SliceModel)
    requires
        f.valid(),
        t.slices == f.slices.insert(idx, s),
        t.decoded == f.decoded,
        t.ready == f.ready,
        t.next_emit_idx == f.next_emit_idx,
        t.total_slices == f.total_slices,
        s.valid(),
    ensures
        t.valid(),
{
}

/// Times have no part in what a frame releases.
proof fn lemma_times_faithful(f: FrameModel, t: FrameModel)
    requires
        faithful(f),
        t.slices == f.slices,
        t.decoded == f.decoded,
        t.ready == f.ready,
        t.next_emit_idx == f.next_emit_idx,
        t.total_slices == f.total_slices,
        t.first_us == f.first_us,
        t.state is Complete ==> t.next_emit_idx == t.total_slices,
    ensures
        faithful(t),
{
    assert forall|i: int| 0 <= i < t.next_emit_idx implies #[trigger] packet_carries(t, i) by {
        assert(packet_carries(f, i));
    }
    assert forall|i: int| 0 <= i < t.decoded.len() implies #[trigger] waits_as_read(t, i) by {
        assert(waits_as_read(f, i));
    }
}

/// What a frame releases stays what was read when a reconstruction is done.
pub proof fn law_results_keep_frames_faithful(f: FrameModel, idx: u8, now_us: u64)
    requires
        faithful(f),
    ensures
        faithful(f.applied(idx, now_us)),
{
    if f.awaits_result(idx) {
        let g = FrameModel {
            fec_done_us: if f.fec_done_us == 0 {
                now_us
            } else {
                f.fec_done_us
            },
            ..f
        };
        lemma_times_faithful(f, g);
        if let Some(slice) = read_payload(f.slices[idx]) {
            lemma_with_slice_faithful(g, idx, f.slices[idx], slice, now_us);
        }
    }
}

/// What a frame releases stays what was read when a request is sent.
pub proof fn law_requests_keep_frames_faithful(f: FrameModel, s: u8, g: u8, now_us: u64)
    requires
        faithful(f),
    ensures
        faithful(f.requested(s, g, now_us)),
{
    if f.nack_decision(s, g, now_us) is Send {
        let t = f.requested(s, g, now_us);
        let put = t.slices[s];
        let slice = f.slices[s];
        assert(slice.valid());
        assert(slice.groups.contains_key(g));
        assert(slice.groups[g].valid());
        crate::fec::slice_builder::lemma_state_valid(slice.groups[g], put.groups[g].state);
        assert(put.valid());
        lemma_frame_put_valid(f, t, s, put);
        lemma_slice_put(f, t, s, put);
    }
}

/// Where a packet comes from: a frame and one of its slices.
pub open spec fn comes_from(a: AssemblerModel, p: PacketModel, id: u64, i: int, now_us: u64) -> bool {
    &&& a.frames.contains_key(id)
    &&& 0 <= i < a.frames[id].total_slices
    &&& slice_is_read(a.frames[id], i)
    &&& delivers(p, slice_read(a.frames[id], i), a.frames[id], now_us)
}

/// The packets come from frames in the order of their numbers, from the next one on, each
/// with its slices in order from the first one on.
pub open spec fn in_order(
    a: AssemblerModel,
    packets: Seq<PacketModel>,
    src: Seq<(u64, int)>,
    now_us: u64,
) -> bool {
    &&& src.len() == packets.len()
    &&& forall|j: int|
        0 <= j < src.len() ==> comes_from(
            a,
            #[trigger] packets[j],
            src[j].0,
            src[j].1,
            now_us,
        ) && src[j].0 >= a.next->0
    &&& forall|j: int|
        0 < j < src.len() ==> (src[j].0 > src[j - 1].0 && src[j].1 == 0) || (#[trigger] src[j]
            == (src[j - 1].0, src[j - 1].1 + 1))
    &&& src.len() > 0 ==> src[0].1 == 0
}

proof fn lemma_stamped_delivers(f: FrameModel, t: FrameModel, i: int, now_us: u64)
    requires
        faithful(t),
        t.slices == f.slices,
        t.first_us == f.first_us,
        0 <= i < t.ready.len(),
    ensures
        slice_is_read(f, i),
        delivers(stamped(t.ready, f, now_us)[i], slice_read(f, i), f, now_us),
        stamped(t.ready, f, now_us)[i].is_last == slice_read(f, i).is_last,
        !stamped(t.ready, f, now_us)[i].is_concealed,
{
    assert(packet_carries(t, i));
}

/// A complete frame leaves whole: one packet for each of its slices, in their order, each with
/// the numbers, the bytes and the flags that were read for it, and none concealed. Where the
/// sender has marked the last slice alone, the last packet alone is marked.
pub proof fn law_complete_frame_leaves_whole(a: AssemblerModel, min_frame_id: u64, now_us: u64)
    requires
        all_faithful(a),
        a.next is Some,
        a.frames.contains_key(a.next->0),
        a.frames[a.next->0].state is Complete,
    ensures
        ({
            let f = a.frames[a.next->0];
            let out = a.flush_step(min_frame_id, now_us).packets;
            &&& out.len() == f.total_slices
            &&& forall|i: int|
                0 <= i < out.len() ==> slice_is_read(f, i) && delivers(
                    #[trigger] out[i],
                    slice_read(f, i),
                    f,
                    now_us,
                ) && !out[i].is_concealed && out[i].is_last == slice_read(f, i).is_last
            &&& (forall|i: int|
                0 <= i < f.total_slices ==> (#[trigger] slice_read(f, i)).is_last == (i
                    == f.total_slices - 1)) ==> forall|i: int|
                0 <= i < out.len() ==> (#[trigger] out[i]).is_last == (i == out.len() - 1)
        }),
{
    let f = a.frames[a.next->0];
    let out = a.flush_step(min_frame_id, now_us).packets;
    assert forall|i: int| 0 <= i < out.len() implies slice_is_read(f, i) && delivers(
        #[trigger] out[i],
        slice_read(f, i),
        f,
        now_us,
    ) && !out[i].is_concealed && out[i].is_last == slice_read(f, i).is_last by {
        lemma_stamped_delivers(f, f, i, now_us);
    }
}

/// A frame that was waited for too long leaves with the slices that can be released in order,
/// the last of them marked as the end and as concealed, and is passed.
pub proof fn law_overdue_frame_leaves_in_part(a: AssemblerModel, min_frame_id: u64, now_us: u64)
    requires
        all_faithful(a),
        a.next is Some,
        a.stall_since is Some,
        now_us - a.stall_since->0 >= 150_000,
        a.frames.contains_key(a.next->0),
        !(a.frames[a.next->0].state is Complete),
        a.next->0 < u64::MAX,
    ensures
        ({
            let f = a.frames[a.next->0];
            let step = a.flush_step(min_frame_id, now_us);
            let out = step.packets;
            &&& step.go_on
            &&& step.after.next == Some((a.next->0 + 1) as u64)
            &&& !step.after.frames.contains_key(a.next->0)
            &&& out.len() == run_end(f.decoded, f.next_emit_idx as nat)
            &&& forall|i: int|
                0 <= i < out.len() ==> slice_is_read(f, i) && delivers(
                    #[trigger] out[i],
                    slice_read(f, i),
                    f,
                    now_us,
                ) && out[i].is_concealed == (i == out.len() - 1)
        }),
{
    let f = a.frames[a.next->0];
    let t = f.released();
    let out = a.flush_step(min_frame_id, now_us).packets;
    lemma_released_faithful(f);
    lemma_run_end(f.decoded, f.next_emit_idx as nat);
    assert forall|i: int| 0 <= i < out.len() implies slice_is_read(f, i) && delivers(
        #[trigger] out[i],
        slice_read(f, i),
        f,
        now_us,
    ) && out[i].is_concealed == (i == out.len() - 1) by {
        lemma_stamped_delivers(f, t, i, now_us);
    }
}

proof fn lemma_step_sources(a: AssemblerModel, min_frame_id: u64, now_us: u64) -> (src: Seq<
    (u64, int),
>)
    requires
        all_faithful(a),
        a.next is Some,
    ensures
        in_order(a, a.flush_step(min_frame_id, now_us).packets, src, now_us),
        forall|j: int| 0 <= j < src.len() ==> (#[trigger] src[j]).0 == a.next->0,
{
    let id = a.next->0;
    let out = a.flush_step(min_frame_id, now_us).packets;
    let src = Seq::new(out.len(), |j: int| (id, j));
    if out.len() > 0 {
        let f = a.frames[id];
        let t = if f.state is Complete {
            f
        } else {
            f.released()
        };
        lemma_released_faithful(f);
        assert forall|j: int| 0 <= j < src.len() implies comes_from(
            a,
            #[trigger] out[j],
            src[j].0,
            src[j].1,
            now_us,
        ) && src[j].0 >= a.next->0 by {
            lemma_stamped_delivers(f, t, j, now_us);
        }
    }
    src
}

proof fn lemma_step_faithful(a: AssemblerModel, min_frame_id: u64, now_us: u64)
    requires
        all_faithful(a),
        a.next is Some,
    ensures
        all_faithful(a.flush_step(min_frame_id, now_us).after),
        forall|id: u64| #[trigger]
            a.flush_step(min_frame_id, now_us).after.frames.contains_key(id)
                ==> a.frames.contains_key(id) && a.flush_step(min_frame_id, now_us).after.frames[id]
                == a.frames[id],
{
    let b = a.flush_step(min_frame_id, now_us).after;
    assert(b.frames.dom() =~= a.frames.dom() || b.frames.dom() =~= a.frames.dom().remove(
        a.next->0,
    ));
}

/// The packets of a frame and those of later frames, one behind the other.
proof fn lemma_orders_join(
    a: AssemblerModel,
    b: AssemblerModel,
    head: Seq<PacketModel>,
    first: Seq<(u64, int)>,
    rest: Seq<PacketModel>,
    more: Seq<(u64, int)>,
    now_us: u64,
)
    requires
        in_order(a, head, first, now_us),
        in_order(b, rest, more, now_us),
        forall|j: int| 0 <= j < first.len() ==> (#[trigger] first[j]).0 == a.next->0,
        forall|id: u64| #[trigger]
            b.frames.contains_key(id) ==> a.frames.contains_key(id) && b.frames[id]
                == a.frames[id],
        b.next->0 > a.next->0,
    ensures
        in_order(a, head + rest, first + more, now_us),
{
    let src = first + more;
    let all = head + rest;
    assert forall|j: int| 0 <= j < src.len() implies comes_from(
        a,
        #[trigger] all[j],
        src[j].0,
        src[j].1,
        now_us,
    ) && src[j].0 >= a.next->0 by {
        if j < first.len() {
            assert(comes_from(a, head[j], first[j].0, first[j].1, now_us));
        } else {
            let k = j - first.len();
            assert(comes_from(b, rest[k], more[k].0, more[k].1, now_us));
        }
    }
    assert forall|j: int| 0 < j < src.len() implies (src[j].0 > src[j - 1].0 && src[j].1 == 0) || (
    #[trigger] src[j] == (src[j - 1].0, src[j - 1].1 + 1)) by {
        if j < first.len() {
            assert(first[j] == src[j]);
        } else if j == first.len() {
            assert(first[j - 1].0 == a.next->0);
            assert(comes_from(b, rest[0], more[0].0, more[0].1, now_us));
            assert(more[0] == src[j]);
        } else {
            assert(more[j - first.len()] == src[j]);
        }
    }
}

proof fn lemma_flushed_sources(a: AssemblerModel, min_frame_id: u64, now_us: u64) -> (src: Seq<
    (u64, int),
>)
    requires
        all_faithful(a),
        a.next is Some,
    ensures
        in_order(a, a.flushed(min_frame_id, now_us).1, src, now_us),
        all_faithful(a.flushed(min_frame_id, now_us).0),
    decreases u64::MAX - a.next->0,
{
    let id = a.next->0;
    let step = a.flush_step(min_frame_id, now_us);
    let first = lemma_step_sources(a, min_frame_id, now_us);
    lemma_step_faithful(a, min_frame_id, now_us);
    if step.go_on && id < u64::MAX && step.after.next == Some((id + 1) as u64) {
        let b = step.after;
        let more = lemma_flushed_sources(b, min_frame_id, now_us);
        lemma_orders_join(
            a,
            b,
            step.packets,
            first,
            b.flushed(min_frame_id, now_us).1,
            more,
            now_us,
        );
        first + more
    } else {
        Seq::empty()
    }
}

/// Packets leave in order: those of a frame after those of the frames before it, and of each
/// frame its slices from the first one on. Each carries the slice that was read from the
/// bytes that came for it. What is left is as faithful as before.
pub proof fn law_packets_leave_in_order(a: AssemblerModel, min_frame_id: u64, now_us: u64)
    requires
        all_faithful(a),
        a.next is Some,
    ensures
        exists|src: Seq<(u64, int)>| #[trigger]
            in_order(a, a.flushed(min_frame_id, now_us).1, src, now_us),
        all_faithful(a.flushed(min_frame_id, now_us).0),
{
    let src = lemma_flushed_sources(a, min_frame_id, now_us);
}

/// The packets left some state of the assembly in order, each with the slice that was read
/// from the bytes that had come for it.
pub open spec fn left_in_order(packets: Seq<PacketModel>, now_us: u64) -> bool {
    exists|c: AssemblerModel, src: Seq<(u64, int)>|
        all_faithful(c) && #[trigger] in_order(c, packets, src, now_us)
}

proof fn lemma_applied_faithful(
    a: AssemblerModel,
    results: Seq<(u64, u8)>,
    receive_us: u64,
    now_us: u64,
    n: nat,
)
    requires
        all_faithful(a),
    ensures
        all_faithful(a.applied(results, receive_us, now_us, n)),
        a.applied(results, receive_us, now_us, n).next == a.next,
    decreases n,
{
    if n > 0 {
        lemma_applied_faithful(a, results, receive_us, now_us, (n - 1) as nat);
        let b = a.applied(results, receive_us, now_us, (n - 1) as nat);
        let (id, s) = results[n - 1];
        if b.frames.contains_key(id) && b.frames[id].state is Receiving {
            law_results_keep_frames_faithful(b.frames[id], s, now_us);
        }
    }
}

proof fn lemma_round_faithful(
    frames: Map<u64, FrameModel>,
    queue: Seq<(u64, u8, u8)>,
    now_us: u64,
    n: nat,
)
    requires
        forall|id: u64| #[trigger] frames.contains_key(id) ==> faithful(frames[id]),
    ensures
        ({
            let r = nack_round(frames, queue, now_us, n).frames;
            forall|id: u64| #[trigger] r.contains_key(id) ==> faithful(r[id])
        }),
    decreases n,
{
    if n > 0 {
        lemma_round_faithful(frames, queue, now_us, (n - 1) as nat);
        let r = nack_round(frames, queue, now_us, (n - 1) as nat);
        let (id, s, g) = queue[n - 1];
        if r.frames.contains_key(id) {
            law_requests_keep_frames_faithful(r.frames[id], s, g, now_us);
        }
    }
}

/// An assembler that has seen nothing holds nothing unfaithful. The arrival of a chunk and a
/// look without one keep all frames faithful, and the packets that leave then leave in order,
/// each with the slice that was read from the bytes that had come for it.
pub proof fn law_assembly_is_faithful(
    a: AssemblerModel,
    chunk: ChunkModel,
    receive_us: u64,
    now_us: u64,
)
    requires
        all_faithful(a),
        chunk.k + chunk.m <= 255,
    ensures
        all_faithful(crate::fec::assembler::new_assembler()),
        all_faithful(a.inserted(chunk, receive_us, now_us).after),
        left_in_order(a.inserted(chunk, receive_us, now_us).packets, now_us),
        all_faithful(a.polled(now_us).after),
        left_in_order(a.polled(now_us).packets, now_us),
{
    lemma_inserted_faithful(a, chunk, receive_us, now_us);
    lemma_polled_faithful(a, now_us);
}

proof fn lemma_taken_faithful(a: AssemblerModel, chunk: ChunkModel, receive_us: u64, now_us: u64)
    requires
        all_faithful(a),
        chunk.k + chunk.m <= 255,
    ensures
        all_faithful(a.taken(chunk, receive_us, now_us)),
        a.taken(chunk, receive_us, now_us).next is Some,
{
    let b = a.counted(chunk.frame_id).evicted(window_start(chunk.frame_id), receive_us);
    assert forall|id: u64| #[trigger] b.frames.contains_key(id) implies faithful(b.frames[id]) by {
        assert(a.frames.contains_key(id) && a.frames[id] == b.frames[id]);
    }
    let f = b.frame_before(chunk, receive_us);
    lemma_new_faithful(chunk.total_slices, receive_us);
    law_arrivals_keep_frames_faithful(f, chunk, b.chunk_counter, now_us);
    let c = b.with_chunk(chunk, receive_us, now_us);
    assert(all_faithful(c));
}

proof fn lemma_inserted_faithful(
    a: AssemblerModel,
    chunk: ChunkModel,
    receive_us: u64,
    now_us: u64,
)
    requires
        all_faithful(a),
        chunk.k + chunk.m <= 255,
    ensures
        all_faithful(a.inserted(chunk, receive_us, now_us).after),
        left_in_order(a.inserted(chunk, receive_us, now_us).packets, now_us),
{
    if chunk.frame_id < a.counted(chunk.frame_id).next->0 {
        assert(in_order(a, Seq::<PacketModel>::empty(), Seq::<(u64, int)>::empty(), now_us));
    } else {
        lemma_taken_faithful(a, chunk, receive_us, now_us);
        let b = a.taken(chunk, receive_us, now_us);
        let e = AssemblerModel {
            stats: b.stats.after_log(receive_us, b.stats_every_us),
            ..b
        };
        let c = e.with_results(receive_us, now_us);
        lemma_applied_faithful(
            AssemblerModel { results: Seq::empty(), ..e },
            e.results,
            receive_us,
            now_us,
            e.results.len(),
        );
        let d = c.with_nacks(receive_us);
        lemma_round_faithful(c.frames, c.nack_queue, receive_us, c.nack_queue.len());
        assert(all_faithful(d));
        let src = lemma_flushed_sources(d, window_start(chunk.frame_id), now_us);
        assert(in_order(d, a.inserted(chunk, receive_us, now_us).packets, src, now_us));
    }
}

proof fn lemma_polled_faithful(a: AssemblerModel, now_us: u64)
    requires
        all_faithful(a),
    ensures
        all_faithful(a.polled(now_us).after),
        left_in_order(a.polled(now_us).packets, now_us),
{
    let c = a.with_results(now_us, now_us);
    lemma_applied_faithful(
        AssemblerModel { results: Seq::empty(), ..a },
        a.results,
        now_us,
        now_us,
        a.results.len(),
    );
    let min = window_start(a.head());
    let (d, packets) = c.flushed(min, now_us);
    if c.next is Some {
        let src = lemma_flushed_sources(c, min, now_us);
        assert(in_order(c, packets, src, now_us));
    } else {
        assert(in_order(c, packets, Seq::<(u64, int)>::empty(), now_us));
    }
    assert(all_faithful(d));
    lemma_round_faithful(d.frames, d.nack_queue, now_us, d.nack_queue.len());
    assert(all_faithful(d.with_nacks(now_us)));
}

} // verus!
