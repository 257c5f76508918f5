//! A slice comes back from enough of its shards, and requests lie apart.
use crate::fec::codec::{agrees, all_present, present, rs_parity, uniform};
use crate::fec::decode::shards_of;
use crate::fec::group_builder::{lemma_present, lemma_present_none, lemma_present_update, since};
use crate::chunked::reassembly::reassembled_trace;
use crate::fec::slice_wire::slice_in;
use crate::packet::{ChunkModel, VideoSliceModel};
use crate::slice_fec::assembler::{frame_of, slice_number, slice_of, AssemblerModel};
use crate::slice_fec::encode::{cut, lemma_raw, lemma_shards_for, SliceCut};
use crate::slice_fec::frame::{Assembly, FrameModel};
use crate::slice_fec::slice::{new_slice, real_part, real_parts, SliceModel};
use crate::slice_fec::NACK_SUPPRESS_US;
use vstd::prelude::*;

verus! {

/// What the receiver holds of a slice after shards of it have come in some order, each
/// perhaps more than once.
pub open spec fn after_shards(
    c: SliceCut,
    frame_id: u64,
    slice_idx: u8,
    total_slices: u8,
    flags: u8,
    order: Seq<u8>,
) -> SliceModel
    decreases order.len(),
{
    if order.len() == 0 {
        new_slice(c.k() as u8, c.m() as u8)
    } else {
        after_shards(c, frame_id, slice_idx, total_slices, flags, order.drop_last()).inserted(
            c.chunk(frame_id, slice_idx, total_slices, flags, order.last() as int),
        )
    }
}

/// The slice is sent in shards that hold it, of one length that a header can tell.
pub open spec fn well_sent(c: SliceCut) -> bool {
    &&& c.some()
    &&& c.codable()
    &&& c.size() <= 0xffff
    &&& c.word().len() == c.k() + c.m()
    &&& uniform(c.word())
}

/// Each shard that has come is there as it was sent, and no other.
proof fn lemma_after_shards(
    c: SliceCut,
    frame_id: u64,
    slice_idx: u8,
    total_slices: u8,
    flags: u8,
    order: Seq<u8>,
)
    requires
        well_sent(c),
        forall|i: int| 0 <= i < order.len() ==> (#[trigger] order[i]) < c.k() + c.m(),
    ensures
        ({
            let s = after_shards(c, frame_id, slice_idx, total_slices, flags, order);
            &&& s.valid()
            &&& s.k == c.k()
            &&& s.m == c.m()
            &&& s.received == present(s.shards)
            &&& order.len() > 0 ==> s.size == c.size()
            &&& order.len() == 0 ==> s.size == 0
            &&& forall|i: int|
                0 <= i < c.k() + c.m() ==> (#[trigger] s.shards[i]) == if order.contains(i as u8) {
                    Some(c.word()[i])
                } else {
                    None
                }
            &&& forall|i: int|
                0 <= i < c.k() ==> (#[trigger] s.lens[i]) == if order.contains(i as u8) {
                    c.payload_len(i)
                } else {
                    0
                }
        }),
    decreases order.len(),
{
    let s = after_shards(c, frame_id, slice_idx, total_slices, flags, order);
    assert(c.m() <= 4 && c.k() + c.m() <= 255);
    if order.len() == 0 {
        lemma_present_none(s.shards);
    } else {
        let front = order.drop_last();
        assert forall|i: int| 0 <= i < front.len() implies (#[trigger] front[i]) < c.k()
            + c.m() by {
            assert(front[i] == order[i]);
        }
        lemma_after_shards(c, frame_id, slice_idx, total_slices, flags, front);
        let b = after_shards(c, frame_id, slice_idx, total_slices, flags, front);
        let last = order.last();
        assert(last == order[order.len() - 1]);
        let p = c.chunk(frame_id, slice_idx, total_slices, flags, last as int);
        b.lemma_inserted(p);
        lemma_raw(c, 0);
        assert(c.word()[0] == c.padded(0));
        assert(c.word()[last as int].len() == c.size());
        if last < c.k() {
            lemma_raw(c, last as int);
        }
        assert(c.payload_len(last as int) <= 0xffff);
        if b.shards[last as int] is None {
            lemma_present_update(b.shards, last as int, p.data);
            lemma_present(b.shards);
        }
        assert forall|x: u8| #[trigger] order.contains(x) == (front.contains(x) || x == last) by {
            if front.contains(x) {
                let j = choose|j: int| 0 <= j < front.len() && front[j] == x;
                assert(order[j] == x);
            }
            if order.contains(x) && x != last {
                let j = choose|j: int| 0 <= j < order.len() && order[j] == x;
                assert(front[j] == x);
            }
            if x == last {
                assert(order[order.len() - 1] == x);
            }
        }
    }
}

/// The first `n` shards hold the beginning of the slice, and the last one perhaps zeros
/// behind it.
proof fn lemma_prefix(c: SliceCut, lens: Seq<u16>, n: nat)
    requires
        well_sent(c),
        n <= c.k(),
        lens.len() == c.k(),
        forall|i: int|
            0 <= i < c.k() ==> (#[trigger] lens[i]) == 0 || lens[i] == c.payload_len(i),
    ensures
        ({
            let got = real_parts(all_present(c.data_shards()), lens, c.size(), n);
            let end = if n * c.size() < c.data.len() {
                (n * c.size()) as int
            } else {
                c.data.len() as int
            };
            &&& got.len() >= end
            &&& n < c.k() ==> got.len() == end
            &&& got.take(end) == c.data.take(end)
            &&& forall|i: int| end <= i < got.len() ==> (#[trigger] got[i]) == 0
        }),
    decreases n,
{
    let size = c.size();
    let shards = all_present(c.data_shards());
    if n == 0 {
        assert(0 * size == 0) by (nonlinear_arith);
        assert(real_parts(shards, lens, size, 0).take(0) =~= c.data.take(0));
    } else {
        let i = n - 1;
        lemma_prefix(c, lens, i as nat);
        lemma_raw(c, i);
        assert(i * size + size == n * size) by (nonlinear_arith)
            requires
                i == n - 1,
        ;
        let before = real_parts(shards, lens, size, i as nat);
        let part = real_part(shards[i]->0, lens[i], size);
        assert(shards[i] == Some(c.padded(i)));
        assert(lens[i] == 0 || lens[i] == c.payload_len(i));
        assert(before =~= c.data.take(i * size)) by {
            assert(before.take(i * size) =~= before);
        }
        let got = before + part;
        let end = if n * size < c.data.len() {
            (n * size) as int
        } else {
            c.data.len() as int
        };
        assert(c.raw(i) =~= c.data.subrange(i * size, end));
        assert(part.len() >= c.raw(i).len());
        assert(part.take(c.raw(i).len() as int) =~= c.raw(i));
        assert(got.take(end) =~= c.data.take(end)) by {
            assert forall|x: int| 0 <= x < end implies got.take(end)[x] == c.data.take(end)[x] by {
                if x >= i * size {
                    assert(got[x] == part[x - i * size]);
                    assert(part.take(c.raw(i).len() as int)[x - i * size] == c.raw(i)[x - i
                        * size]);
                }
            }
        }
        assert forall|x: int| end <= x < got.len() implies (#[trigger] got[x]) == 0 by {
            assert(got[x] == part[x - i * size]);
            assert(part[x - i * size] == c.padded(i)[x - i * size]);
        }
    }
}

/// Once as many shards of a slice have come as it has data shards, whichever they are, the
/// slice is recovered: its bytes come out, perhaps with zeros behind them.
pub proof fn law_enough_shards_recover(
    c: SliceCut,
    frame_id: u64,
    slice_idx: u8,
    total_slices: u8,
    flags: u8,
    order: Seq<u8>,
)
    requires
        well_sent(c),
        forall|i: int| 0 <= i < order.len() ==> (#[trigger] order[i]) < c.k() + c.m(),
        present(
            after_shards(c, frame_id, slice_idx, total_slices, flags, order).shards,
        ) >= c.k(),
    ensures
        ({
            let s = after_shards(c, frame_id, slice_idx, total_slices, flags, order);
            let got = real_parts(all_present(c.data_shards()), s.lens, s.size, s.k as nat);
            &&& s.ready()
            &&& shards_of(s.k, s.m, s.shards, c.data_shards())
            &&& got.len() >= c.data.len()
            &&& got.take(c.data.len() as int) == c.data
            &&& forall|i: int| c.data.len() <= i < got.len() ==> (#[trigger] got[i]) == 0
        }),
{
    let s = after_shards(c, frame_id, slice_idx, total_slices, flags, order);
    let word = c.word();
    lemma_after_shards(c, frame_id, slice_idx, total_slices, flags, order);
    if order.len() == 0 {
        lemma_present_none(s.shards);
    }
    lemma_raw(c, 0);
    assert forall|i: int| 0 <= i < c.k() implies (#[trigger] c.data_shards()[i]).len()
        == c.data_shards()[0].len() by {
        lemma_raw(c, i);
    }
    assert(uniform(c.data_shards()));
    assert(c.data_shards() + rs_parity(c.data_shards(), s.m as nat) == word);
    assert(agrees(s.shards, word));
    lemma_prefix(c, s.lens, c.k());
    lemma_shards_for(c.data.len(), c.size());
    assert(c.data.take(c.data.len() as int) =~= c.data);
}

/// A frame comes out once: it counts as handed out from the shard on that brings it, and
/// shards that come after that bring nothing.
pub proof fn law_whole_frame_comes_out_once(f: FrameModel, c: ChunkModel, now_us: u64)
    requires
        f.valid(),
    ensures
        f.accepted(c, now_us).0.handed_out == (f.handed_out || f.accepted(c, now_us).1 is Some),
        f.handed_out ==> f.accepted(c, now_us).1 is None,
{
}

/// A slice that was asked for is not asked for again before some time has passed.
pub proof fn law_requests_lie_apart(
    a: AssemblerModel,
    number: u128,
    asked_us: u64,
    current: u64,
    now_us: u64,
)
    requires
        since(now_us, asked_us) < NACK_SUPPRESS_US,
    ensures
        !a.with_request(number, asked_us).asks(current, now_us, number),
{
}

/// Frames that were given up are not asked for.
pub proof fn law_given_up_frames_are_not_asked_for(
    a: AssemblerModel,
    given_up: u64,
    current: u64,
    now_us: u64,
    number: u128,
)
    requires
        a.last_evicted == Some(given_up),
        a.asks(current, now_us, number),
    ensures
        given_up < crate::slice_fec::assembler::frame_of(number) < current,
{
}

/// The slice that stands in the bytes of slice `i`, if they can be had.
pub open spec fn slice_read(f: FrameModel, i: int) -> Option<VideoSliceModel> {
    if f.slices.contains_key(i as u8) {
        match f.slices[i as u8].recovered() {
            Some(bytes) => slice_in(bytes),
            None => None,
        }
    } else {
        None
    }
}

/// The bytes of the slices below `n`, one behind the other.
pub open spec fn payloads(f: FrameModel, n: nat) -> Seq<u8>
    decreases n,
{
    if n == 0 {
        Seq::empty()
    } else {
        payloads(f, (n - 1) as nat) + (slice_read(f, n - 1)->0).payload
    }
}

/// Slices from `n` on are read alike.
spec fn read_alike(f: FrameModel, t: FrameModel, n: nat) -> bool {
    &&& t.total_slices == f.total_slices
    &&& t.first_us == f.first_us
    &&& forall|i: int|
        n <= i < f.total_slices ==> #[trigger] slice_read(t, i) == slice_read(f, i)
}

proof fn lemma_assembled(f: FrameModel, t: FrameModel, i: nat, got: Assembly, now_us: u64)
    requires
        i <= f.total_slices,
        read_alike(f, t, i),
        forall|x: int| 0 <= x < i ==> (#[trigger] slice_read(f, x)) is Some,
        got.payload == payloads(f, i),
        i == 0 ==> got.trace is None,
        i > 0 ==> got.trace == reassembled_trace((slice_read(f, 0)->0).trace, f.first_us, now_us),
    ensures
        ({
            let all = t.assembled_from(i, got, now_us).1;
            &&& all is Some <==> forall|x: int|
                0 <= x < f.total_slices ==> (#[trigger] slice_read(f, x)) is Some
            &&& all matches Some(a) ==> {
                &&& a.payload == payloads(f, f.total_slices as nat)
                &&& f.total_slices == 0 ==> a.trace is None
                &&& f.total_slices > 0 ==> a.trace == reassembled_trace(
                    (slice_read(f, 0)->0).trace,
                    f.first_us,
                    now_us,
                )
            }
        }),
    decreases f.total_slices - i,
{
    if i < f.total_slices {
        assert(slice_read(t, i as int) == slice_read(f, i as int));
        if slice_read(f, i as int) is Some {
            let bytes = t.slices[i as u8].recovered()->0;
            let more = t.with_slice(got, i, bytes, now_us)->0;
            let next = t.filled_in(i as u8);
            assert forall|x: int| i + 1 <= x < f.total_slices implies #[trigger] slice_read(next, x)
                == slice_read(f, x) by {
                assert(slice_read(t, x) == slice_read(f, x));
            }
            lemma_assembled(f, next, i + 1, more, now_us);
        }
    }
}

/// A frame is put together exactly when each of its slices can be recovered and read. Its
/// packet then holds their bytes in order, is the whole frame, is a key frame if the frame
/// was announced as one, and has the trace of the first slice with the times at which the
/// frame began to come and was whole.
pub proof fn law_frame_is_its_slices(f: FrameModel, frame_id: u64, now_us: u64)
    ensures
        f.assembled(frame_id, now_us).1 is Some <==> forall|i: int|
            0 <= i < f.total_slices ==> (#[trigger] slice_read(f, i)) is Some,
        f.assembled(frame_id, now_us).1 matches Some(p) ==> {
            &&& p.frame_id == frame_id
            &&& p.payload == payloads(f, f.total_slices as nat)
            &&& p.slice_idx == 0
            &&& p.is_key == f.is_key
            &&& p.is_last
            &&& !p.is_concealed
            &&& f.total_slices > 0 ==> (p.trace is Some) == ((slice_read(f, 0)->0).trace is Some)
            &&& f.total_slices > 0 && p.trace is Some ==> {
                let (t, u) = (p.trace->0, (slice_read(f, 0)->0).trace->0);
                &&& t.receive_us == f.first_us
                &&& t.reassembled_us == now_us
                &&& t.capture_us == u.capture_us
                &&& t.encode_us == u.encode_us
                &&& t.serialize_us == u.serialize_us
            }
        },
{
    lemma_assembled(f, f, 0, Assembly { payload: Seq::empty(), trace: None }, now_us);
}

/// A slice survives the loss of a shard at least and of four at most; one that matters more
/// survives the loss of as many as it has data shards, where four do, and never of fewer
/// than another one.
pub proof fn law_parity_follows_importance(data: Seq<u8>, max: nat)
    requires
        max > 0,
    ensures
        ({
            let usual = SliceCut { data, max, strong: false };
            let strong = SliceCut { data, max, strong: true };
            &&& usual.k() == strong.k()
            &&& usual.k() <= 254 ==> 1 <= usual.m() <= 4
            &&& usual.m() <= strong.m() || strong.k() <= 1
            &&& strong.k() <= 4 ==> strong.m() == strong.k()
            &&& 4 <= strong.k() <= 251 ==> strong.m() == 4
            &&& usual.k() <= 5 ==> 2 * (usual.m() - 1) <= usual.k() < 2 * usual.m()
            &&& usual.k() + usual.m() <= 255
            &&& strong.k() + strong.m() <= 255
        }),
{
}

/// A request is for a slice of a frame before the current one, eight at most
/// before it and not given up. Of a frame of which nothing has come it is the first slice;
/// else a slice of the frame that is missing or has fewer shards than it needs. It was not
/// asked for in the last ten milliseconds.
pub proof fn law_requests_are_for_what_lacks(
    a: AssemblerModel,
    current: u64,
    now_us: u64,
    id: u64,
    slice: u8,
)
    requires
        id < current,
    ensures
        a.asks(current, now_us, slice_number(id, slice)) <==> {
            &&& id + 8 >= current
            &&& a.last_evicted matches Some(e) ==> id > e
            &&& if a.frames.contains_key(id) {
                let f = a.frames[id];
                &&& slice < f.total_slices
                &&& f.slices.contains_key(slice) ==> f.slices[slice].received < f.slices[slice].k
                &&& !f.complete()
            } else {
                slice == 0
            }
            &&& if a.asked.contains_key(slice_number(id, slice)) {
                now_us >= a.asked[slice_number(id, slice)] + 10_000
            } else {
                now_us >= 10_000
            }
        },
{
    let n = slice_number(id, slice);
    assert(n == id * 256 + slice);
    assert(frame_of(n) == id);
    assert(slice_of(n) == slice);
}

/// When a shard comes the frames stay that are at most eight before its own and began to
/// come less than a tenth of a second ago, and they stay as they are.
pub proof fn law_young_frames_stay(a: AssemblerModel, frame_id: u64, now_us: u64, id: u64)
    requires
        a.frames.contains_key(id),
    ensures
        ({
            let b = a.evicted(frame_id, now_us);
            &&& b.frames.contains_key(id) <==> id + 8 >= frame_id && now_us < a.frames[id].first_us
                + 100_000
            &&& b.frames.contains_key(id) ==> b.frames[id] == a.frames[id]
        }),
{
    assert(a.gone(frame_id, now_us).contains(id) == a.goes(id, frame_id, now_us));
}

/// A slice gets more parity when it is the first of its frame or when its flags say so.
pub proof fn law_important_slices_are_strong(data: Seq<u8>, max: nat, slice_idx: u8, flags: u8)
    ensures
        cut(data, max, slice_idx, flags).strong <==> slice_idx == 0 || (flags / 2) % 2 == 1,
        cut(data, max, slice_idx, flags).data == data,
        cut(data, max, slice_idx, flags).max == max,
{
    assert((flags & 2 != 0) == ((flags / 2) % 2 == 1)) by (bit_vector);
}

/// A datagram tells of its shard what the receiver has to know: where it belongs, how many
/// there are of each kind, and how much of it is data.
pub proof fn law_datagrams_tell_of_their_shard(
    c: SliceCut,
    frame_id: u64,
    slice_idx: u8,
    total_slices: u8,
    flags: u8,
    i: int,
)
    requires
        well_sent(c),
        0 <= i < c.k() + c.m(),
    ensures
        ({
            let p = c.chunk(frame_id, slice_idx, total_slices, flags, i);
            &&& p.frame_id == frame_id
            &&& p.slice_idx == slice_idx
            &&& p.total_slices == total_slices
            &&& p.flags == flags
            &&& p.shard_idx == i
            &&& p.k == c.k()
            &&& p.m == c.m()
            &&& p.group_idx == 0
            &&& p.total_groups == 1
            &&& p.packet_type == 0
            &&& p.data.len() == c.size()
            &&& p.payload_len == (if i >= c.k() || (i + 1) * c.size() <= c.data.len() {
                c.size() as int
            } else {
                c.data.len() - i * c.size()
            })
        }),
{
    lemma_raw(c, 0);
    assert(c.word()[0] == c.padded(0));
    assert(c.word()[i].len() == c.word()[0].len());
    assert((i + 1) * c.size() == i * c.size() + c.size()) by (nonlinear_arith);
    if i < c.k() {
        lemma_raw(c, i);
    }
}

/// A frame comes out with the shard that completes it: as many slices are there then as it has,
/// each with enough shards, and all can be recovered and read. It did not come out before.
pub proof fn law_frame_comes_out_complete(f: FrameModel, c: ChunkModel, now_us: u64)
    requires
        f.valid(),
        f.slices.dom().len() < 255,
    ensures
        f.accepted(c, now_us).1 is Some <==> {
            let with = f.inserted(c);
            &&& !f.handed_out
            &&& with.slices.dom().len() == f.total_slices
            &&& forall|i: u8| #[trigger]
                with.slices.contains_key(i) ==> with.slices[i].received >= with.slices[i].k
            &&& forall|i: int|
                0 <= i < f.total_slices ==> (#[trigger] slice_read(with, i)) is Some
        },
        f.accepted(c, now_us).1 matches Some(p) ==> p.frame_id == c.frame_id && p.payload
            == payloads(f.inserted(c), f.total_slices as nat),
{
    let with = f.inserted(c);
    law_frame_is_its_slices(with, c.frame_id, now_us);
    assert(with.slices.dom() =~= f.slices.dom().insert(c.slice_idx));
    assert(with.slices.len() == with.slices.dom().len());
    if with.complete() {
        assert forall|i: u8| #[trigger] with.slices.contains_key(i) implies
            with.slices[i].received >= with.slices[i].k by {
            assert(with.slices[i].ready());
        }
    }
}

/// A frame is what its first shard says: a key frame if the lowest flag is set, with so many
/// slices, and it began to come then.
pub proof fn law_first_shard_tells_of_the_frame(a: AssemblerModel, c: ChunkModel, now_us: u64)
    ensures
        !a.frames.contains_key(c.frame_id) ==> {
            let f = a.frame_for(c, now_us);
            &&& f.is_key == (c.flags % 2 == 1)
            &&& f.total_slices == c.total_slices
            &&& f.first_us == now_us
            &&& !f.handed_out
            &&& forall|i: u8| !#[trigger] f.slices.contains_key(i)
        },
        a.frames.contains_key(c.frame_id) ==> a.frame_for(c, now_us) == a.frames[c.frame_id],
{
    let flags = c.flags;
    assert((flags & 1 != 0) == (flags % 2 == 1)) by (bit_vector);
}

/// A shard goes into its slice, which is made by the first one, and leaves the others. It is
/// taken in if its place is empty; then it counts.
pub proof fn law_shard_goes_into_its_slice(f: FrameModel, c: ChunkModel, i: u8)
    requires
        f.valid(),
        c.k + c.m <= 255,
        f.slices.contains_key(c.slice_idx) ==> f.slices[c.slice_idx].received < 255,
    ensures
        ({
            let t = f.inserted(c);
            let before = if f.slices.contains_key(c.slice_idx) {
                f.slices[c.slice_idx]
            } else {
                new_slice(c.k, c.m)
            };
            let s = t.slices[c.slice_idx];
            let free = c.shard_idx < before.k + before.m && before.shards[c.shard_idx as int] is None;
            &&& i != c.slice_idx ==> t.slices.contains_key(i) == f.slices.contains_key(i)
            &&& i != c.slice_idx && f.slices.contains_key(i) ==> t.slices[i] == f.slices[i]
            &&& t.slices.contains_key(c.slice_idx)
            &&& !free ==> s == before
            &&& free ==> {
                &&& s.shards == before.shards.update(c.shard_idx as int, Some(c.data))
                &&& s.received == before.received + 1
                &&& c.shard_idx < before.k ==> s.lens[c.shard_idx as int] == c.payload_len
                &&& c.shard_idx >= before.k ==> s.lens == before.lens
            }
        }),
{
}

} // verus!
