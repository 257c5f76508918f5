//! Laws of the snapshots of the assembly.
use crate::fec::assembler::{frame_snap, group_snaps, slice_snaps};
use crate::fec::assembly_log::{
    blocks, group_label, snap_timings, DiagModel, FrameSnapModel, GroupSnapModel, SliceSnapModel,
};
use crate::fec::frame_builder::FrameModel;
use crate::fec::group_builder::{mask_bit, GroupModel};
use crate::fec::slice_builder::SliceModel;
use vstd::prelude::*;

verus! {

/// The snapshot tells of the group what there is to tell.
pub open spec fn tells_group(x: GroupSnapModel, g: int, group: GroupModel) -> bool {
    &&& x.group_idx == g
    &&& x.k == group.k
    &&& x.m == group.m
    &&& x.received == group.received
    &&& x.data_received == group.data_received
    &&& x.received_mask == group.received_mask
    &&& x.first_us == group.first_us
    &&& x.label == group_label(group.state)
}

/// One of the snapshots is that of group `g`.
pub open spec fn has_group_snap(snaps: Seq<GroupSnapModel>, g: int, group: GroupModel) -> bool {
    exists|i: int| 0 <= i < snaps.len() && tells_group(#[trigger] snaps[i], g, group)
}

/// Every group below `n` that is there has its snapshot, and the snapshots stand in the order
/// of the groups.
pub proof fn law_every_group_is_told(s: SliceModel, n: nat)
    requires
        n <= 256,
    ensures
        forall|g: u8|
            g < n && #[trigger] s.groups.contains_key(g) ==> has_group_snap(
                group_snaps(s, n),
                g as int,
                s.groups[g],
            ),
        forall|i: int|
            0 <= i < group_snaps(s, n).len() ==> (#[trigger] group_snaps(s, n)[i]).group_idx < n
                && s.groups.contains_key(group_snaps(s, n)[i].group_idx),
        forall|i: int, j: int|
            #![trigger group_snaps(s, n)[i], group_snaps(s, n)[j]]
            0 <= i < j < group_snaps(s, n).len() ==> group_snaps(s, n)[i].group_idx
                < group_snaps(s, n)[j].group_idx,
    decreases n,
{
    if n > 0 {
        let m = (n - 1) as nat;
        law_every_group_is_told(s, m);
        let front = group_snaps(s, m);
        let all = group_snaps(s, n);
        assert forall|g: u8| g < n && #[trigger] s.groups.contains_key(g) implies has_group_snap(
            all,
            g as int,
            s.groups[g],
        ) by {
            if g < m {
                assert(has_group_snap(front, g as int, s.groups[g]));
                let i = choose|i: int|
                    0 <= i < front.len() && tells_group(#[trigger] front[i], g as int, s.groups[g]);
                assert(all[i] == front[i]);
            } else {
                assert(tells_group(all[front.len() as int], g as int, s.groups[g]));
            }
        }
        assert forall|i: int| 0 <= i < all.len() implies (#[trigger] all[i]).group_idx < n
            && s.groups.contains_key(all[i].group_idx) by {
            if i < front.len() {
                assert(all[i] == front[i]);
            }
        }
        assert forall|i: int, j: int| #![trigger all[i], all[j]]
            0 <= i < j < all.len() implies all[i].group_idx < all[j].group_idx by {
            assert(all[i] == front[i]);
            if j < front.len() {
                assert(all[j] == front[j]);
            }
        }
    }
}

/// One of the snapshots is that of slice `i`, with all its groups.
pub open spec fn has_slice_snap(snaps: Seq<SliceSnapModel>, i: int, s: SliceModel) -> bool {
    exists|x: int|
        0 <= x < snaps.len() && (#[trigger] snaps[x]).slice_idx == i && snaps[x].total_groups
            == s.total_groups && snaps[x].ready_groups == s.ready_groups && snaps[x].groups
            == group_snaps(s, s.total_groups as nat)
}

/// Every slice below `n` that is there has its snapshot.
pub proof fn law_every_slice_is_told(f: FrameModel, n: nat, i: u8)
    requires
        n <= 256,
        i < n,
        f.slices.contains_key(i),
    ensures
        has_slice_snap(slice_snaps(f, n), i as int, f.slices[i]),
    decreases n,
{
    let m = (n - 1) as nat;
    let front = slice_snaps(f, m);
    let all = slice_snaps(f, n);
    let s = f.slices[i];
    if i < m {
        law_every_slice_is_told(f, m, i);
        let x = choose|x: int|
            0 <= x < front.len() && (#[trigger] front[x]).slice_idx == i && front[x].total_groups
                == s.total_groups && front[x].ready_groups == s.ready_groups && front[x].groups
                == group_snaps(s, s.total_groups as nat);
        assert(all[x] == front[x]);
    } else {
        assert(all[front.len() as int].slice_idx == i);
    }
}

/// The snapshot of a frame tells how far it is, how old it is, and when it passed the stages.
pub proof fn law_frame_is_told(f: FrameModel, frame_id: u64, now_us: u64, is_hol: bool)
    requires
        now_us >= f.first_us,
    ensures
        ({
            let x = frame_snap(f, frame_id, now_us, is_hol);
            &&& x.frame_id == frame_id
            &&& x.is_hol == is_hol
            &&& x.total_slices == f.total_slices
            &&& x.emitted_slices == f.next_emit_idx
            &&& x.next_emit_idx == f.next_emit_idx
            &&& x.age_us + x.first_us == now_us
            &&& x.first_us == f.first_us
            &&& x.collecting_done_us == f.collecting_done_us
            &&& x.fec_submitted_us == f.fec_submitted_us
            &&& x.fec_done_us == f.fec_done_us
            &&& x.network_ready_us == f.network_ready_us
            &&& forall|i: u8|
                i < f.total_slices && #[trigger] f.slices.contains_key(i) ==> has_slice_snap(
                    x.slices,
                    i as int,
                    f.slices[i],
                )
        }),
{
    assert forall|i: u8|
        i < f.total_slices && #[trigger] f.slices.contains_key(i) implies has_slice_snap(
        frame_snap(f, frame_id, now_us, is_hol).slices,
        i as int,
        f.slices[i],
    ) by {
        law_every_slice_is_told(f, f.total_slices as nat, i);
    }
}

/// The times of the stages add up to the time from the first chunk to the readiness of the
/// frame: with a reconstruction, all four of them; without one, the first and the last.
pub proof fn law_stage_times_add_up(s: FrameSnapModel)
    requires
        s.network_ready_us is Some,
        0 < s.first_us <= s.collecting_done_us <= s.network_ready_us->0,
        s.fec_done_us > 0 ==> s.collecting_done_us <= s.fec_submitted_us <= s.fec_done_us
            <= s.network_ready_us->0,
        s.fec_done_us == 0 ==> s.fec_submitted_us == 0,
    ensures
        ({
            let t = snap_timings(s);
            &&& t is Some
            &&& (t->0).total_age == s.age_us
            &&& (t->0).collect_time == s.collecting_done_us - s.first_us
            &&& (t->0).collect_time + (t->0).fec_submit_lag + (t->0).fec_duration + (
            t->0).ready_lag == s.network_ready_us->0 - s.first_us
            &&& s.fec_done_us > 0 ==> (t->0).fec_duration == s.fec_done_us - s.fec_submitted_us
            &&& s.fec_done_us == 0 ==> (t->0).fec_submit_lag == 0 && (t->0).fec_duration == 0
        }),
{
}

/// While the shards of a frame have not been collected there are no times to tell.
pub proof fn law_no_times_before_the_shards(s: FrameSnapModel)
    ensures
        snap_timings(s) is None <==> s.collecting_done_us == 0,
{
}

/// A snapshot takes the place of that of its frame, or of the one that came first when there
/// are ten; all others stay, in their order.
pub proof fn law_other_snapshots_stay(d: DiagModel, snap: FrameSnapModel, id: u64)
    requires
        d.valid(),
        d.window.contains_key(id),
        id != snap.frame_id,
    ensures
        ({
            let t = d.upserted(snap);
            let full = !d.window.contains_key(snap.frame_id) && d.order.len() >= 10;
            &&& t.window.contains_key(id) <==> !(full && d.order[0] == id)
            &&& t.window.contains_key(id) ==> t.window[id] == d.window[id]
            &&& t.shard_count == d.shard_count
            &&& !full ==> d.order == t.order.take(d.order.len() as int)
            &&& full ==> d.order.skip(1) == t.order.take(d.order.len() - 1)
        }),
{
    let t = d.upserted(snap);
    let n = d.order.len() as int;
    if d.window.contains_key(snap.frame_id) {
        assert(t.order.take(n) =~= d.order);
    } else if n >= 10 {
        assert(t.order.take(n - 1) =~= d.order.skip(1));
    } else {
        assert(t.order.take(n) =~= d.order);
    }
}

/// A shard that is there is drawn full, one that is missing light.
pub proof fn law_shards_are_drawn(mask: u64, from: int, to: int, i: int)
    requires
        from <= i < to,
    ensures
        blocks(mask, from, to).len() == to - from,
        blocks(mask, from, to)[i - from] == (if mask_bit(mask, i) {
            '█'
        } else {
            '░'
        }),
{
}

} // verus!
