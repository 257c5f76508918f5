//! Slices go in order, and groups are asked for at intervals.
use crate::fec::codec::{all_present, present};
use crate::fec::decode::{data_present, lemma_joined_same};
use crate::fec::encode::{lemma_group, SliceJob};
use crate::fec::group_builder::{lemma_present, lemma_present_add, since, GroupState};
use crate::fec::laws::{announced_lens, group_payload, law_slice_recovers, slice_payload};
use crate::fec::slice_wire::slice_in;
use crate::fec::NACK_SUPPRESS_US;
use crate::lazy_fec::frame::{packet_of, scan_groups, FrameModel};
use crate::lazy_fec::group::GroupModel;
use crate::lazy_fec::slice::SliceModel;
use crate::lazy_fec::GroupRecovery;
use crate::packet::{ChunkModel, PacketModel, VideoSliceModel};
use vstd::prelude::*;

verus! {

/// A group that was asked for is not asked for again before some time has passed.
pub proof fn law_asked_group_rests(g: GroupModel, asked_us: u64, now_us: u64)
    requires
        g.state == (GroupState::Requested { sent_at_us: asked_us }),
        since(now_us, asked_us) < NACK_SUPPRESS_US,
    ensures
        !g.refreshed(now_us).state.wants_nack(now_us),
{
}

/// A group with enough shards is never asked for.
pub proof fn law_ready_group_is_not_asked_for(g: GroupModel, now_us: u64)
    requires
        g.valid(),
        g.ready(),
        !(g.state is Abandoned),
    ensures
        !g.refreshed(now_us).state.wants_nack(now_us),
{
}

/// Slices go in the order of their numbers, each once, up to the first that was not read;
/// packets that went before stay.
pub proof fn law_slices_go_in_order(f: FrameModel, now_us: u64)
    requires
        f.valid(),
    ensures
        ({
            let after = f.emitted(now_us);
            let n = f.packets.len() as int;
            &&& f.next <= after.next <= f.total_slices
            &&& after.packets.len() == n + after.next - f.next
            &&& after.packets.take(n) == f.packets
            &&& forall|i: int|
                f.next <= i < after.next ==> (#[trigger] f.decoded[i]) is Some
            &&& forall|i: int|
                n <= i < after.packets.len() ==> (#[trigger] after.packets[i]) == packet_of(
                    f.decoded[f.next + (i - n)]->0,
                    f.first_us,
                    now_us,
                )
            &&& after.next < f.total_slices ==> f.decoded[after.next as int] is None
        }),
    decreases f.total_slices - f.next,
{
    let n = f.packets.len() as int;
    let after = f.emitted(now_us);
    if f.next < f.total_slices && f.decoded[f.next as int] is Some {
        let one = f.emitted_one(now_us);
        law_slices_go_in_order(one, now_us);
        assert(after == one.emitted(now_us));
        assert(after.packets.take(n + 1) == one.packets);
        assert(after.packets.take(n) =~= f.packets) by {
            assert(after.packets.take(n) =~= after.packets.take(n + 1).take(n));
            assert(one.packets.take(n) =~= f.packets);
        }
        assert forall|i: int| f.next <= i < after.next implies (#[trigger] f.decoded[i]) is Some by {
            if i > f.next {
                assert(one.decoded[i] == f.decoded[i]);
            }
        }
        assert forall|i: int| n <= i < after.packets.len() implies (#[trigger] after.packets[i])
            == packet_of(f.decoded[f.next + (i - n)]->0, f.first_us, now_us) by {
            if i == n {
                assert(after.packets[n] == after.packets.take(n + 1)[n]);
            } else {
                assert(one.decoded[one.next + (i - (n + 1))] == f.decoded[f.next + (i - n)]);
            }
        }
        assert(after.next < f.total_slices ==> f.decoded[after.next as int] is None) by {
            if after.next < f.total_slices {
                assert(one.decoded[after.next as int] == f.decoded[after.next as int]);
            }
        }
    } else {
        assert(after == f);
        assert(after.packets.take(n) =~= f.packets);
    }
}

/// The packet carries the slice: its numbers, its bytes and its flags, and its trace with the
/// times at which the frame began to come and was whole.
pub open spec fn carries(p: PacketModel, v: VideoSliceModel, first_us: u64, now_us: u64) -> bool {
    &&& p.frame_id == v.frame_id
    &&& p.slice_idx == v.slice_idx
    &&& p.payload == v.payload
    &&& p.is_key == v.is_key
    &&& p.is_last == v.is_last
    &&& !p.is_concealed
    &&& (p.trace is Some) == (v.trace is Some)
    &&& p.trace is Some ==> {
        let (t, u) = (p.trace->0, v.trace->0);
        &&& t.receive_us == first_us
        &&& t.reassembled_us == now_us
        &&& t.capture_us == u.capture_us
        &&& t.encode_us == u.encode_us
        &&& t.serialize_us == u.serialize_us
    }
}

/// Each packet that goes carries the slice that was read in its place.
pub proof fn law_packets_carry_their_slices(f: FrameModel, now_us: u64, i: int)
    requires
        f.valid(),
        f.packets.len() == f.next,
        f.next <= i < f.emitted(now_us).next,
    ensures
        f.emitted(now_us).packets.len() == f.emitted(now_us).next,
        f.decoded[i] is Some,
        carries(f.emitted(now_us).packets[i], f.decoded[i]->0, f.first_us, now_us),
{
    law_slices_go_in_order(f, now_us);
    assert(f.decoded[i] is Some);
    let n = f.packets.len() as int;
    assert(f.emitted(now_us).packets[i] == packet_of(
        f.decoded[f.next + (i - n)]->0,
        f.first_us,
        now_us,
    ));
}

/// The group has too few shards, and it has been stalled for five milliseconds, or eight have
/// passed since it was asked for.
pub open spec fn is_due(g: GroupModel, now_us: u64) -> bool {
    &&& g.received < g.k
    &&& match g.state {
        GroupState::Stalled { since_us } => now_us >= since_us + 5_000,
        GroupState::Requested { sent_at_us } => now_us >= sent_at_us + 8_000,
        _ => false,
    }
}

/// Group `g` of a slice is there and due.
pub open spec fn due_in(s: SliceModel, g: int, now_us: u64) -> bool {
    s.groups.contains_key(g as u8) && is_due(s.groups[g as u8], now_us)
}

/// The first group of a slice that is due from `from` on is found, with the mask of its
/// shards, and is marked as asked for; when none is due, none is found.
pub proof fn law_first_due_group_is_found(s: SliceModel, from: nat, now_us: u64)
    ensures
        ({
            let (t, found) = scan_groups(s, from, now_us);
            match found {
                Some((g, mask)) => {
                    &&& from <= g < s.total_groups
                    &&& due_in(s, g as int, now_us)
                    &&& mask == s.groups[g].received_mask
                    &&& forall|x: int| from <= x < g ==> !#[trigger] due_in(s, x, now_us)
                    &&& t.groups[g] == (GroupModel {
                        state: GroupState::Requested { sent_at_us: now_us },
                        ..s.groups[g]
                    })
                },
                None => forall|x: int|
                    from <= x < s.total_groups ==> !#[trigger] due_in(s, x, now_us),
            }
        }),
        scan_groups(s, from, now_us).0.total_groups == s.total_groups,
        scan_groups(s, from, now_us).0.ready_groups == s.ready_groups,
        forall|x: u8| x < from ==> (#[trigger] scan_groups(s, from, now_us).0.groups[x])
            == s.groups[x],
    decreases s.total_groups - from,
{
    if from < s.total_groups {
        let g = from as u8;
        let x = s.groups[g].refreshed(now_us);
        let next = if s.unfinished(g) {
            SliceModel { groups: s.groups.insert(g, x), ..s }
        } else {
            s
        };
        law_first_due_group_is_found(next, from + 1, now_us);
        if !(s.unfinished(g) && x.state.wants_nack(now_us)) {
            assert(!due_in(s, from as int, now_us));
            let (t, found) = scan_groups(next, from + 1, now_us);
            assert forall|y: int| from < y < s.total_groups implies #[trigger] due_in(s, y, now_us)
                == due_in(next, y, now_us) by {}
        }
    }
}

/// Group `g` of slice `i` is there and due, and the slice is not whole.
pub open spec fn due_at(f: FrameModel, i: int, g: int, now_us: u64) -> bool {
    &&& f.slices.contains_key(i as u8)
    &&& !f.slices[i as u8].ready()
    &&& 0 <= g < f.slices[i as u8].total_groups
    &&& due_in(f.slices[i as u8], g, now_us)
}

/// A group that is asked for is a group of the frame that is due, the first such one in the
/// order of slices and groups, and the mask tells which of its shards are there; when none is
/// asked for, none is due.
pub proof fn law_first_due_slice_is_found(f: FrameModel, from: nat, now_us: u64)
    ensures
        match f.scanned(from, now_us).1 {
            Some((i, g, mask)) => {
                &&& from <= i < f.total_slices
                &&& due_at(f, i as int, g as int, now_us)
                &&& mask == f.slices[i].groups[g].received_mask
                &&& forall|x: int, y: int|
                    from <= x < i || (x == i && y < g) ==> !#[trigger] due_at(f, x, y, now_us)
                &&& f.scanned(from, now_us).0.slices[i].groups[g] == (GroupModel {
                    state: GroupState::Requested { sent_at_us: now_us },
                    ..f.slices[i].groups[g]
                })
            },
            None => forall|x: int, y: int|
                from <= x < f.total_slices ==> !#[trigger] due_at(f, x, y, now_us),
        },
        forall|x: u8| x < from ==> (#[trigger] f.scanned(from, now_us).0.slices[x]) == f.slices[x],
    decreases f.total_slices - from,
{
    if from < f.total_slices {
        let i = from as u8;
        if !f.slices.contains_key(i) || f.slices[i].ready() {
            law_first_due_slice_is_found(f, from + 1, now_us);
            assert forall|y: int| !#[trigger] due_at(f, from as int, y, now_us) by {}
        } else {
            law_first_due_group_is_found(f.slices[i], 0, now_us);
            let (s, found) = scan_groups(f.slices[i], 0, now_us);
            let with = FrameModel { slices: f.slices.insert(i, s), ..f };
            if found is None {
                law_first_due_slice_is_found(with, from + 1, now_us);
                assert forall|x: int, y: int| from < x < f.total_slices implies
                    #[trigger] due_at(f, x, y, now_us) == due_at(with, x, y, now_us) by {}
                assert forall|y: int| !#[trigger] due_at(f, from as int, y, now_us) by {
                    if 0 <= y < f.slices[i].total_groups {
                        assert(!due_in(f.slices[i], y, now_us));
                    }
                }
            } else {
                let g = (found->0).0;
                assert forall|x: int, y: int| x == i && y < g implies !#[trigger] due_at(
                    f,
                    x,
                    y,
                    now_us,
                ) by {
                    if 0 <= y {
                        assert(!due_in(f.slices[i], y, now_us));
                    }
                }
            }
        }
    }
}

/// Nothing is asked for in the first five milliseconds of a frame; later, what is due first.
pub proof fn law_young_frames_ask_for_nothing(f: FrameModel, now_us: u64)
    ensures
        now_us < f.first_us + 5_000 ==> f.searched(now_us).1 is None,
        now_us >= f.first_us + 5_000 ==> (f.searched(now_us).1 is Some <==> exists|i: int, g: int|
            0 <= i < f.total_slices && #[trigger] due_at(f, i, g, now_us)),
{
    law_first_due_slice_is_found(f, 0, now_us);
}

/// The slice holds all data shards of an encoded slice, with the lengths that their headers
/// announced.
pub open spec fn holds_data_of(s: SliceModel, job: SliceJob) -> bool {
    &&& job.valid()
    &&& job.group_count() <= 255
    &&& s.total_groups == job.group_count()
    &&& s.valid()
    &&& forall|g: int|
        0 <= g < job.group_count() ==> {
            let group = #[trigger] s.groups[g as u8];
            &&& s.groups.contains_key(g as u8)
            &&& group.k == job.k(g)
            &&& group.m == job.m(g)
            &&& group.shards.take(group.k as int) == all_present(job.data_shards(g))
            &&& group.lens == announced_lens(job, g)
        }
}

/// A slice whose data shards have all come is put together into the bytes that were encoded.
/// A shard's length must fit the header field that announces it.
pub proof fn law_slice_arrives(s: SliceModel, job: SliceJob)
    requires
        holds_data_of(s, job),
        job.chunk <= 0xffff,
    ensures
        s.joined_from(0, Seq::empty()) == Some(job.data),
{
    lemma_joined_rest(s, job, 0, Seq::empty());
    law_slice_recovers(job);
}

proof fn lemma_joined_rest(s: SliceModel, job: SliceJob, n: nat, out: Seq<u8>)
    requires
        holds_data_of(s, job),
        n <= job.group_count(),
        out == slice_payload(job, n),
    ensures
        s.joined_from(n, out) == Some(slice_payload(job, job.group_count())),
    decreases job.group_count() - n,
{
    if n < job.group_count() {
        let g = n as int;
        let group = s.groups[g as u8];
        lemma_group(job, g);
        assert(s.groups.contains_key(g as u8));
        let data = group.shards.take(group.k as int);
        assert forall|i: int| 0 <= i < data.len() implies (#[trigger] data[i]) is Some by {}
        lemma_present(data);
        lemma_present_add(data, group.shards.skip(group.k as int));
        assert(data + group.shards.skip(group.k as int) =~= group.shards);
        assert forall|i: int| 0 <= i < group.k implies (#[trigger] group.shards[i]) is Some by {
            assert(group.shards[i] == data[i]);
        }
        assert(data_present(group.k as nat, group.shards));
        assert forall|i: int| 0 <= i < group.k implies #[trigger] group.shards[i] == data[i] by {}
        lemma_joined_same(group.shards, data, group.lens, group.k as nat);
        assert(group.payload() == Some(group_payload(job, g)));
        lemma_joined_rest(s, job, n + 1, out + group_payload(job, g));
    }
}

/// A shard is put in its place with the length that was announced for it, and counts if it is
/// the first in that place; other shards and lengths stay. One that is none of the group
/// changes nothing.
pub proof fn law_shard_is_taken_in(
    g: GroupModel,
    idx: u8,
    data: Seq<u8>,
    payload_len: u16,
    now_us: u64,
    i: int,
)
    requires
        g.valid(),
        0 <= i < g.k + g.m,
    ensures
        ({
            let t = g.inserted(idx, data, payload_len, now_us);
            if idx < g.k + g.m {
                &&& t.shards[idx as int] == Some(data)
                &&& i != idx ==> t.shards[i] == g.shards[i]
                &&& idx < g.k ==> t.lens[idx as int] == payload_len
                &&& i < g.k && i != idx ==> t.lens[i] == g.lens[i]
                &&& t.received == g.received + (if g.shards[idx as int] is None {
                    1int
                } else {
                    0
                })
                &&& t.first_us == (if g.first_us == 0 && g.shards[idx as int] is None {
                    now_us
                } else {
                    g.first_us
                })
            } else {
                t == g
            }
        }),
{
    lemma_present(g.shards);
    if idx < g.k + g.m && g.shards[idx as int] is None {
        assert(g.received < g.k + g.m);
    }
}

/// A group that was collecting stalls with the first shard that leaves it with too few, and
/// one that was stalled or asked for collects again once it has enough.
pub proof fn law_group_stalls_at_once(
    g: GroupModel,
    idx: u8,
    data: Seq<u8>,
    payload_len: u16,
    now_us: u64,
)
    requires
        g.valid(),
        g.state.open(),
        idx < g.k + g.m,
    ensures
        ({
            let t = g.inserted(idx, data, payload_len, now_us);
            let enough = present(t.shards) >= g.k;
            &&& enough ==> t.state is Collecting
            &&& !enough && g.state is Collecting ==> t.state == (GroupState::Stalled {
                since_us: now_us,
            })
            &&& !enough && !(g.state is Collecting) ==> t.state == g.state
        }),
{
    g.lemma_inserted(idx, data, payload_len, now_us);
}

/// A group that a shard completes counts as complete by itself when all its data is there;
/// else parity stands in for exactly the data that is missing.
pub proof fn law_recovery_tells_what_was_missing(s: SliceModel, c: ChunkModel, now_us: u64)
    requires
        s.valid(),
        s.group_for(c).valid(),
    ensures
        ({
            let b = s.group_for(c);
            let g = s.group_with(c, now_us);
            let data = present(g.shards.take(g.k as int));
            match s.recovery(c, now_us) {
                None => present(b.shards) >= b.k || present(g.shards) < g.k,
                Some(GroupRecovery::Direct) => present(b.shards) < b.k && data == g.k,
                Some(GroupRecovery::Fec { missing_data_shards }) => {
                    &&& present(b.shards) < b.k
                    &&& present(g.shards) >= g.k
                    &&& data < g.k
                    &&& missing_data_shards == g.k - data
                },
            }
        }),
{
    let b = s.group_for(c);
    b.lemma_inserted(c.shard_idx, c.data, c.payload_len, now_us);
    let g = s.group_with(c, now_us);
    lemma_present(g.shards.take(g.k as int));
}

/// A reconstruction is called for when a shard makes its slice whole while data of its group is
/// missing, unless one was called for or the slice was read. It is for the first group of the
/// slice that is not marked as ready, with all that has come of it.
pub proof fn law_task_is_for_the_first_unfinished_group(f: FrameModel, c: ChunkModel, now_us: u64)
    requires
        f.valid(),
        c.slice_idx < f.total_slices,
    ensures
        ({
            let s = f.slice_for(c).inserted(c, now_us);
            let g = s.groups[c.group_idx];
            let lacks = s.ready_groups == s.total_groups && present(g.shards.take(g.k as int)) < g.k
                && !(g.state is Decoding) && !(g.state is Ready);
            match f.task(c, now_us) {
                Some(t) => {
                    &&& lacks
                    &&& f.decoded[c.slice_idx as int] is None
                    &&& t.frame_id == c.frame_id
                    &&& t.slice_idx == c.slice_idx
                    &&& exists|x: int| #[trigger] is_first_unfinished(
                        f.slice_with(c, now_us),
                        x,
                    ) && {
                        let u = f.slice_with(c, now_us).groups[x as u8];
                        &&& t.k == u.k
                        &&& t.m == u.m
                        &&& t.shards == u.shards
                        &&& t.lens == u.lens
                    }
                },
                None => {
                    ||| !lacks
                    ||| f.decoded[c.slice_idx as int] is Some
                    ||| forall|x: int|
                        0 <= x < f.slice_with(c, now_us).total_groups
                            ==> !#[trigger] f.slice_with(c, now_us).unfinished(x as u8)
                },
            }
        }),
{
    lemma_first_unfinished(f.slice_with(c, now_us), 0);
}

/// Group `x` is there and not marked as ready, and none before it is so.
pub open spec fn is_first_unfinished(s: SliceModel, x: int) -> bool {
    &&& 0 <= x < s.total_groups
    &&& s.groups.contains_key(x as u8)
    &&& !(s.groups[x as u8].state is Ready)
    &&& forall|y: int|
        0 <= y < x ==> !(#[trigger] s.groups.contains_key(y as u8))
            || s.groups[y as u8].state is Ready
}

proof fn lemma_first_unfinished(s: SliceModel, from: nat)
    requires
        forall|y: int| 0 <= y < from ==> !#[trigger] s.unfinished(y as u8),
    ensures
        match s.first_unfinished(from) {
            Some(w) => exists|x: int| #[trigger] is_first_unfinished(s, x) && w.k
                == s.groups[x as u8].k && w.m == s.groups[x as u8].m && w.shards
                == s.groups[x as u8].shards && w.lens == s.groups[x as u8].lens,
            None => forall|x: int|
                0 <= x < s.total_groups ==> !#[trigger] s.unfinished(x as u8),
        },
    decreases s.total_groups - from,
{
    if from < s.total_groups {
        if s.unfinished(from as u8) {
            assert forall|y: int| 0 <= y < from implies !(#[trigger] s.groups.contains_key(
                y as u8,
            )) || s.groups[y as u8].state is Ready by {
                assert(!s.unfinished(y as u8));
            }
            assert(is_first_unfinished(s, from as int));
        } else {
            lemma_first_unfinished(s, from + 1);
        }
    }
}

/// A slice that is whole and lacks no data is read, if it can be, and waits for those before it
/// or has gone; so is one whose bytes were reconstructed. A slice that was read is not read
/// again.
pub proof fn law_whole_slices_are_read(f: FrameModel, c: ChunkModel, data: Seq<u8>, now_us: u64)
    requires
        f.valid(),
        c.slice_idx < f.total_slices,
        f.next <= c.slice_idx,
    ensures
        ({
            let t = f.inserted(c, now_us);
            let s = f.slice_with(c, now_us);
            let read = FrameModel::readable(s);
            &&& s.ready() && f.decoded[c.slice_idx as int] is None && !f.needs_fec(c, now_us)
                && read is Some ==> t.next > c.slice_idx || t.decoded[c.slice_idx as int] == read
            &&& f.decoded[c.slice_idx as int] is Some || !s.ready() ==> t.decoded == f.decoded
                && t.next == f.next && t.packets == f.packets
            &&& t.slices == f.slices.insert(c.slice_idx, s)
        }),
        ({
            let t = f.applied(c.slice_idx, data, now_us);
            &&& f.decoded[c.slice_idx as int] is None && slice_in(data) is Some ==> t.next
                > c.slice_idx || t.decoded[c.slice_idx as int] == slice_in(data)
            &&& f.decoded[c.slice_idx as int] is Some ==> t == f
        }),
{
    let idx = c.slice_idx;
    let with = f.with_slice(c, now_us).with_decoded(
        idx,
        FrameModel::readable(f.slice_with(c, now_us)),
    );
    lemma_emitted_keeps(with, now_us, idx as int);
    lemma_emitted_keeps(f.with_decoded(idx, slice_in(data)), now_us, idx as int);
}

/// A slice that was read stays so until it goes.
proof fn lemma_emitted_keeps(f: FrameModel, now_us: u64, i: int)
    requires
        f.decoded.len() == f.total_slices,
        f.next <= i < f.total_slices,
    ensures
        f.emitted(now_us).next > i || f.emitted(now_us).decoded[i] == f.decoded[i],
        f.emitted(now_us).slices == f.slices,
    decreases f.total_slices - f.next,
{
    if f.next < f.total_slices && f.decoded[f.next as int] is Some {
        if f.next < i {
            lemma_emitted_keeps(f.emitted_one(now_us), now_us, i);
        } else {
            lemma_next_grows(f.emitted_one(now_us), now_us);
        }
    }
}

proof fn lemma_next_grows(f: FrameModel, now_us: u64)
    requires
        f.next <= f.total_slices,
    ensures
        f.emitted(now_us).next >= f.next,
        f.emitted(now_us).slices == f.slices,
    decreases f.total_slices - f.next,
{
    if f.next < f.total_slices && f.decoded[f.next as int] is Some {
        lemma_next_grows(f.emitted_one(now_us), now_us);
    }
}

} // verus!
