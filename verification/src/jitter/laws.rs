//! What the buffers promise.
use crate::jitter::audio::{
    by_release, lemma_due_count, AudioEntryModel, AudioFrameModel, AudioModel,
};
use crate::jitter::av::{earlier, AvModel};
use crate::jitter::video::{
    empty_buffer, entry_key, is_oldest, listing, oldest, packet_key, JitterModel,
};
use crate::jitter::{INTER_PACKET_GAP_US, JITTER_MAX_FRAMES};
use crate::packet::PacketModel;
use crate::sorting::{lemma_insert, lemma_insert_at};
use vstd::prelude::*;

verus! {

/// No slice leaves before its time.
pub proof fn law_nothing_leaves_early(m: JitterModel, now_us: u64, k: u128)
    requires
        m.valid(),
        m.released(now_us).contains_key(k),
    ensures
        exists|i: int|
            0 <= i < m.entries.len() && entry_key(#[trigger] m.entries[i]) == k
                && m.entries[i].release_us <= now_us,
{
    assert(m.due(k, now_us));
}

/// A slice that is taken in while there is room leaves as it came once its time has come.
pub proof fn law_what_comes_in_leaves(m: JitterModel, p: PacketModel, release_us: u64, now_us: u64)
    requires
        m.valid(),
        m.packets.len() < JITTER_MAX_FRAMES,
        m.slot(release_us) <= now_us,
    ensures
        m.pushed(p, release_us).released(now_us).contains_key(packet_key(p)),
        m.pushed(p, release_us).released(now_us)[packet_key(p)] == p,
{
    let n = m.pushed(p, release_us);
    let k = packet_key(p);
    assert(m.packets.insert(k, p).dom() =~= m.packets.dom().insert(k));
    assert(m.packets.insert(k, p).len() <= JITTER_MAX_FRAMES);
    assert(entry_key(n.entries[m.entries.len() as int]) == k);
    assert(n.due(k, now_us));
}

/// What has left is not there any more, and what is not due stays.
pub proof fn law_each_slice_leaves_once(m: JitterModel, now_us: u64, k: u128)
    requires
        m.valid(),
        m.packets.contains_key(k),
    ensures
        m.released(now_us).contains_key(k) != m.drained(now_us).packets.contains_key(k),
        m.drained(now_us).packets.contains_key(k) ==> m.drained(now_us).packets[k]
            == m.packets[k],
{
}

/// Slices are released one after the other with a gap between them.
pub proof fn law_releases_lie_apart(m: JitterModel, p: PacketModel, release_us: u64, i: int)
    requires
        m.valid(),
        m.last_scheduled_us + INTER_PACKET_GAP_US <= u64::MAX,
        0 <= i < m.entries.len(),
    ensures
        m.entries[i].release_us + INTER_PACKET_GAP_US <= m.pushed(p, release_us).entries.last().release_us,
        m.pushed(p, release_us).entries.last().release_us >= release_us,
{
}

/// The entries before the first one whose slice is still there are stale, and that one is
/// not.
proof fn lemma_stale_prefix(m: JitterModel)
    ensures
        m.stale_prefix() <= m.entries.len(),
        forall|i: int| 0 <= i < m.stale_prefix() ==> !#[trigger] m.live(i),
        m.stale_prefix() < m.entries.len() ==> m.live(m.stale_prefix() as int),
    decreases m.entries.len(),
{
    if m.entries.len() > 0 && !m.live(0) {
        let rest = m.without_first();
        lemma_stale_prefix(rest);
        assert forall|i: int| 0 <= i < m.stale_prefix() implies !#[trigger] m.live(i) by {
            if i > 0 {
                assert(!rest.live(i - 1));
            }
        }
    }
}

/// There is nothing to wait for exactly when no slice is held.
pub proof fn law_empty_buffer_waits_for_nothing(m: JitterModel, now_us: u64)
    requires
        m.valid(),
    ensures
        (m.packets.len() == 0) <==> m.wait(now_us) is None,
{
    lemma_stale_prefix(m);
    if m.packets.len() == 0 {
        vstd::set_lib::lemma_set_empty_equivalency_len(m.packets.dom());
        if m.stale_prefix() < m.entries.len() {
            assert(m.packets.contains_key(entry_key(m.entries[m.stale_prefix() as int])));
        }
    } else {
        vstd::set_lib::lemma_set_empty_equivalency_len(m.packets.dom());
        let k = m.packets.dom().choose();
        assert(m.packets.contains_key(k));
        let i = choose|i: int|
            0 <= i < m.entries.len() && entry_key(#[trigger] m.entries[i]) == k;
        assert(m.live(i));
    }
}

/// A buffer holds nothing when it is new and after all that is due at the end of time has
/// left, and something after a slice has come.
pub proof fn law_buffer_fills_and_empties(m: JitterModel, p: PacketModel, release_us: u64)
    requires
        m.valid(),
    ensures
        empty_buffer(m.target_us).packets.len() == 0,
        m.drained(u64::MAX).packets.len() == 0,
        m.pushed(p, release_us).packets.len() > 0,
{
    let none = m.drained(u64::MAX).packets;
    assert forall|k: u128| !none.contains_key(k) by {
        if m.packets.contains_key(k) {
            let i = choose|i: int|
                0 <= i < m.entries.len() && entry_key(#[trigger] m.entries[i]) == k;
            assert(m.entries[i].release_us <= u64::MAX);
            assert(m.due(k, u64::MAX));
        }
    }
    assert(none.dom() =~= Set::<u128>::empty());
    let more = m.packets.insert(packet_key(p), p);
    assert(more.dom() =~= m.packets.dom().insert(packet_key(p)));
    let o = oldest(more);
    assert(more.remove(o).dom() =~= more.dom().remove(o));
    assert(more.dom().contains(packet_key(p)));
    vstd::set_lib::lemma_set_empty_equivalency_len(more.dom());
}

/// The list that a drain returns is the only one there is.
pub proof fn law_listing_is_unique(
    a: Seq<PacketModel>,
    b: Seq<PacketModel>,
    packets: Map<u128, PacketModel>,
)
    requires
        listing(a, packets),
        listing(b, packets),
    ensures
        a == b,
{
    lemma_listing_prefix(a, b, packets, a.len());
    lemma_listing_prefix(b, a, packets, b.len());
    assert(a =~= b);
}

proof fn lemma_listing_prefix(
    a: Seq<PacketModel>,
    b: Seq<PacketModel>,
    packets: Map<u128, PacketModel>,
    n: nat,
)
    requires
        listing(a, packets),
        listing(b, packets),
        n <= a.len(),
    ensures
        n <= b.len(),
        forall|i: int| 0 <= i < n ==> a[i] == b[i],
    decreases n,
{
    if n > 0 {
        lemma_listing_prefix(a, b, packets, (n - 1) as nat);
        let i = n - 1;
        let k = packet_key(a[i]);
        assert(packets.contains_key(k));
        let j = choose|j: int| 0 <= j < b.len() && packet_key(#[trigger] b[j]) == k;
        if j < i {
            assert(a[j] == b[j]);
            assert(packet_key(a[j]) < packet_key(a[i]));
        }
        let kb = packet_key(b[i]);
        assert(packets.contains_key(kb));
        let h = choose|h: int| 0 <= h < a.len() && packet_key(#[trigger] a[h]) == kb;
        if h < i {
            assert(a[h] == b[h]);
            assert(packet_key(b[h]) < packet_key(b[i]));
        }
        if j > i {
            assert(packet_key(b[i]) < packet_key(b[j]));
            if h > i {
                assert(packet_key(a[i]) < packet_key(a[h]));
            }
        }
        assert(j == i);
    }
}

/// The first packet is held for the target time.
pub proof fn law_first_is_held_for_the_target(av: AvModel, capture_us: u64, now_us: u64)
    requires
        av.anchor is None,
    ensures
        av.release(capture_us, now_us) == now_us + av.target_us,
{
}

/// Sound and pictures stay together: what was captured later is due later by the same time,
/// whatever it is and whenever it arrives.
pub proof fn law_timeline_is_shared(
    av: AvModel,
    first_us: u64,
    second_us: u64,
    first_now_us: u64,
    second_now_us: u64,
)
    requires
        av.anchor is Some,
        (av.anchor->0).0 <= first_us <= second_us,
        (av.anchor->0).1 + (second_us - (av.anchor->0).0) <= u64::MAX,
    ensures
        av.release(second_us, second_now_us) - av.release(first_us, first_now_us) == second_us
            - first_us,
{
}

/// Once the timeline is fixed it stays.
pub proof fn law_anchor_stays(av: AvModel, p: PacketModel, f: AudioFrameModel, now_us: u64)
    requires
        av.anchor is Some,
    ensures
        av.video_pushed(p, now_us).anchor == av.anchor,
        av.audio_pushed(f, now_us).anchor == av.anchor,
{
}

/// Slices leave in the order of their frames, and those of a frame in their own order.
pub proof fn law_slices_leave_in_order(
    list: Seq<PacketModel>,
    packets: Map<u128, PacketModel>,
    i: int,
    j: int,
)
    requires
        listing(list, packets),
        0 <= i < j < list.len(),
    ensures
        list[i].frame_id < list[j].frame_id || (list[i].frame_id == list[j].frame_id
            && list[i].slice_idx < list[j].slice_idx),
{
    assert(packet_key(list[i]) < packet_key(list[j]));
}

/// The oldest slice of a buffer is one of its own.
proof fn lemma_oldest(packets: Map<u128, PacketModel>)
    requires
        packets.dom().finite(),
        packets.len() > 0,
    ensures
        is_oldest(packets, oldest(packets)),
    decreases packets.len(),
{
    vstd::set_lib::lemma_set_empty_equivalency_len(packets.dom());
    let some = packets.dom().choose();
    assert(packets.contains_key(some));
    let rest = packets.remove(some);
    assert(rest.dom() =~= packets.dom().remove(some));
    if rest.len() == 0 {
        vstd::set_lib::lemma_set_empty_equivalency_len(rest.dom());
        assert forall|other: u128| #[trigger] packets.contains_key(other) implies some <= other by {
            if other != some {
                assert(rest.dom().contains(other));
            }
        }
        assert(is_oldest(packets, some));
    } else {
        lemma_oldest(rest);
        let least = oldest(rest);
        let first = if least < some {
            least
        } else {
            some
        };
        assert forall|other: u128| #[trigger] packets.contains_key(other) implies first <= other by {
            if other != some {
                assert(rest.contains_key(other));
            }
        }
        assert(is_oldest(packets, first));
    }
}

/// A buffer holds 64 slices. When one more comes that of the oldest frame goes, the first of
/// its slices, and all others stay.
pub proof fn law_full_buffer_drops_the_oldest(
    m: JitterModel,
    p: PacketModel,
    release_us: u64,
    k: u128,
)
    requires
        m.valid(),
        m.packets.contains_key(k) || k == packet_key(p),
    ensures
        ({
            let after = m.pushed(p, release_us).packets;
            let value = if k == packet_key(p) {
                p
            } else {
                m.packets[k]
            };
            let oldest_of_all = k <= packet_key(p) && forall|x: u128| #[trigger]
                m.packets.contains_key(x) ==> k <= x;
            &&& after.contains_key(k) ==> after[k] == value
            &&& after.contains_key(k) <==> m.packets.len() < 64 || m.packets.contains_key(
                packet_key(p),
            ) || !oldest_of_all
        }),
{
    let more = m.packets.insert(packet_key(p), p);
    assert(more.dom() =~= m.packets.dom().insert(packet_key(p)));
    lemma_oldest(more);
    let o = oldest(more);
    let oldest_of_all = k <= packet_key(p) && forall|x: u128| #[trigger]
        m.packets.contains_key(x) ==> k <= x;
    if oldest_of_all {
        assert(more.contains_key(o) && more.contains_key(k));
        assert(k <= o) by {
            if o != packet_key(p) {
                assert(m.packets.contains_key(o));
            }
        }
        assert(o <= k);
    }
    if k == o {
        assert(more.contains_key(packet_key(p)));
        assert forall|x: u128| #[trigger] m.packets.contains_key(x) implies k <= x by {
            assert(more.contains_key(x));
        }
    }
}

/// Slices are scheduled at their time, or fifty microseconds behind the one before if that is
/// later.
pub proof fn law_slices_are_scheduled_apart(m: JitterModel, p: PacketModel, release_us: u64)
    requires
        m.last_scheduled_us + 50 <= u64::MAX,
    ensures
        ({
            let e = m.pushed(p, release_us).entries.last();
            &&& m.pushed(p, release_us).entries.drop_last() == m.entries
            &&& e.frame_id == p.frame_id
            &&& e.slice_idx == p.slice_idx
            &&& e.release_us == release_us || e.release_us == m.last_scheduled_us + 50
            &&& e.release_us >= release_us
            &&& e.release_us >= m.last_scheduled_us + 50
            &&& m.pushed(p, release_us).last_scheduled_us == e.release_us
        }),
{
    assert(m.pushed(p, release_us).entries.drop_last() =~= m.entries);
}

/// Whoever waits as long as is said gets a slice, and whoever is told to wait would get none
/// before.
pub proof fn law_waiting_brings_a_slice(m: JitterModel, now_us: u64, early_us: u64)
    requires
        m.valid(),
        m.wait(now_us) is Some,
        now_us + m.wait(now_us)->0 <= u64::MAX,
        early_us < now_us + m.wait(now_us)->0,
        m.wait(now_us)->0 > 0,
    ensures
        exists|k: u128| #[trigger]
            m.released((now_us + m.wait(now_us)->0) as u64).contains_key(k),
        forall|k: u128| !#[trigger] m.released(early_us).contains_key(k),
{
    lemma_stale_prefix(m);
    let first = m.stale_prefix() as int;
    assert(m.cleaned().entries[0] == m.entries[first]);
    let then = (now_us + m.wait(now_us)->0) as u64;
    let k = entry_key(m.entries[first]);
    assert(m.due(k, then));
    assert(m.released(then).contains_key(k));
    assert forall|x: u128| !#[trigger] m.released(early_us).contains_key(x) by {
        if m.released(early_us).contains_key(x) {
            let i = choose|i: int|
                0 <= i < m.entries.len() && entry_key(#[trigger] m.entries[i]) == x
                    && m.entries[i].release_us <= early_us;
            assert(m.live(i));
            if first < i {
                assert(m.entries[first].release_us <= m.entries[i].release_us);
            }
        }
    }
}

/// A slice that is due leaves at once.
pub proof fn law_due_slices_leave(m: JitterModel, now_us: u64, i: int)
    requires
        m.valid(),
        0 <= i < m.entries.len(),
        m.entries[i].release_us <= now_us,
        m.packets.contains_key(entry_key(m.entries[i])),
    ensures
        m.released(now_us).contains_key(entry_key(m.entries[i])),
        m.released(now_us)[entry_key(m.entries[i])] == m.packets[entry_key(m.entries[i])],
        m.wait(now_us) == Some(0u64),
{
    assert(m.due(entry_key(m.entries[i]), now_us));
    lemma_stale_prefix(m);
    let first = m.stale_prefix() as int;
    assert(m.live(i));
    assert(first <= i);
    assert(m.cleaned().entries[0] == m.entries[first]);
    if first < i {
        assert(m.entries[first].release_us <= m.entries[i].release_us);
    }
}

/// Sound leaves when it is due and not before, in the order of times, and none is lost.
pub proof fn law_sound_leaves_in_time(m: AudioModel, now_us: u64)
    requires
        m.valid(),
    ensures
        ({
            let out = m.released(now_us);
            let left = m.drained(now_us);
            &&& out.len() + left.entries.len() == m.entries.len()
            &&& left.valid()
            &&& forall|i: int|
                0 <= i < out.len() ==> (#[trigger] out[i]) == m.entries[i].frame
                    && m.entries[i].release_us <= now_us
            &&& forall|i: int|
                0 <= i < left.entries.len() ==> (#[trigger] left.entries[i]) == m.entries[out.len()
                    + i] && left.entries[i].release_us > now_us
        }),
{
    lemma_due_count(m.entries, now_us);
    let left = m.drained(now_us);
    let n = m.due(now_us) as int;
    assert forall|i: int, j: int| 0 <= i < j < left.entries.len() implies by_release()(
        #[trigger] left.entries[i],
    ) <= by_release()(#[trigger] left.entries[j]) by {
        assert(by_release()(m.entries[n + i]) <= by_release()(m.entries[n + j]));
    }
    assert forall|i: int| 0 <= i < left.entries.len() implies (#[trigger] left.entries[i])
        == m.entries[n + i] && left.entries[i].release_us > now_us by {}
}

/// A piece of sound takes its place behind all that is due no later than it and before all
/// that is due later; the rest keeps its order.
pub proof fn law_sound_takes_its_place(m: AudioModel, f: AudioFrameModel, release_us: u64)
    requires
        m.valid(),
    ensures
        m.pushed(f, release_us).valid(),
        exists|i: int| #[trigger] is_place(m, release_us, i) && m.pushed(f, release_us).entries
            == m.entries.insert(i, AudioEntryModel { release_us, frame: f }),
{
    let e = AudioEntryModel { release_us, frame: f };
    lemma_insert(m.entries, e, by_release());
    lemma_due_count(m.entries, release_us);
    let i = m.due(release_us) as int;
    assert forall|j: int| i <= j < m.entries.len() implies by_release()(#[trigger] m.entries[j])
        > by_release()(e) by {}
    if i > 0 {
        assert(m.entries[i - 1].release_us <= release_us);
    }
    lemma_insert_at(m.entries, e, by_release(), i);
    assert(is_place(m, release_us, i));
}

/// What stands before place `i` is due no later than `release_us`, what stands behind later.
pub open spec fn is_place(m: AudioModel, release_us: u64, i: int) -> bool {
    &&& 0 <= i <= m.entries.len()
    &&& forall|j: int| 0 <= j < i ==> (#[trigger] m.entries[j]).release_us <= release_us
    &&& forall|j: int| i <= j < m.entries.len() ==> (#[trigger] m.entries[j]).release_us
        > release_us
}

/// Whoever waits as long as is said gets sound, and none is due before.
pub proof fn law_waiting_brings_sound(m: AudioModel, now_us: u64, early_us: u64)
    requires
        m.valid(),
    ensures
        m.wait(now_us) is None <==> m.entries.len() == 0,
        m.wait(now_us) is Some && now_us + m.wait(now_us)->0 <= u64::MAX ==> m.released(
            (now_us + m.wait(now_us)->0) as u64,
        ).len() > 0,
        m.wait(now_us) is Some && m.wait(now_us)->0 > 0 && early_us < now_us + m.wait(now_us)->0
            ==> m.released(early_us).len() == 0,
{
}

/// What was captured so long after the anchor is due so long after it, and is held for the
/// target time: pictures and sound alike, and no matter when they arrive. What was captured
/// before the anchor counts as captured with it.
pub proof fn law_release_follows_the_capture(av: AvModel, capture_us: u64, now_us: u64)
    requires
        av.anchor is Some,
        (av.anchor->0).1 + (capture_us - (av.anchor->0).0) <= u64::MAX,
    ensures
        capture_us >= (av.anchor->0).0 ==> av.release(capture_us, now_us) == (av.anchor->0).1 + (
        capture_us - (av.anchor->0).0) + av.target_us,
        capture_us < (av.anchor->0).0 ==> av.release(capture_us, now_us) == (av.anchor->0).1
            + av.target_us,
{
}

/// What comes goes into the buffer of its kind, at the time that its capture gives it, and the
/// other buffer stays. The first to come is the anchor.
pub proof fn law_pictures_and_sound_are_kept_apart(
    av: AvModel,
    p: PacketModel,
    f: AudioFrameModel,
    now_us: u64,
)
    requires
        av.valid(),
        p.trace is Some,
    ensures
        ({
            let v = av.video_pushed(p, now_us);
            let at = (p.trace->0).capture_us;
            &&& v.audio == av.audio
            &&& v.video == av.video.pushed(p, av.release(at, now_us) as u64)
            &&& av.anchor is None ==> v.anchor == Some((at, now_us))
        }),
        ({
            let a = av.audio_pushed(f, now_us);
            &&& a.video == av.video
            &&& a.audio == av.audio.pushed(f, av.release(f.capture_us, now_us) as u64)
            &&& av.anchor is None ==> a.anchor == Some((f.capture_us, now_us))
        }),
{
}

/// The time until something is due is that until the first of both kinds is.
pub proof fn law_first_of_both_is_waited_for(a: Option<u64>, b: Option<u64>)
    ensures
        earlier(a, b) is None <==> a is None && b is None,
        a is Some ==> earlier(a, b) is Some && earlier(a, b)->0 <= a->0,
        b is Some ==> earlier(a, b) is Some && earlier(a, b)->0 <= b->0,
        earlier(a, b) == a || earlier(a, b) == b,
{
}

} // verus!
