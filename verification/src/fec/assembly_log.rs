//! Snapshots of the assembly of frames, and a rolling window of them.
use crate::fec::frame_builder::FrameState;
use crate::fec::group_builder::{mask_bit, since, GroupState};
use crate::fec::slice_builder::SliceState;
use std::collections::{HashMap, VecDeque};
use vstd::prelude::*;

verus! {

broadcast use vstd::std_specs::hash::group_hash_axioms;

/// How many frames the window holds.
pub const WINDOW: usize = 10;

/// A group at one point in time.
#[derive(Debug, Clone, Copy)]
pub struct GroupSnap {
    pub group_idx: u8,
    pub k: u8,
    pub m: u8,
    pub received: u8,
    pub data_received: u8,
    pub received_mask: u64,
    pub state_label: &'static str,
    pub first_us: u64,
}

/// What a [`GroupSnap`] holds.
#[verifier::ext_equal]
pub struct GroupSnapModel {
    pub group_idx: u8,
    pub k: u8,
    pub m: u8,
    pub received: u8,
    pub data_received: u8,
    pub received_mask: u64,
    pub label: Seq<char>,
    pub first_us: u64,
}

impl View for GroupSnap {
    type V = GroupSnapModel;

    open spec fn view(&self) -> GroupSnapModel {
        GroupSnapModel {
            group_idx: self.group_idx,
            k: self.k,
            m: self.m,
            received: self.received,
            data_received: self.data_received,
            received_mask: self.received_mask,
            label: self.state_label@,
            first_us: self.first_us,
        }
    }
}

/// A full block for each shard from `from` to `to` whose bit is set, a light one for each
/// of the others.
pub open spec fn blocks(mask: u64, from: int, to: int) -> Seq<char> {
    Seq::new(
        (to - from) as nat,
        |i: int|
            if mask_bit(mask, from + i) {
                '█'
            } else {
                '░'
            },
    )
}

/// Appends the blocks for the shards from `from` to `to`.
fn push_blocks(s: &mut String, mask: u64, from: u8, to: u8)
    requires
        from <= to <= 64,
    ensures
        final(s)@ == old(s)@ + blocks(mask, from as int, to as int),
{
    let ghost before = s@;
    let mut i: u8 = from;
    assert(s@ =~= before + blocks(mask, from as int, from as int));
    while i < to
        invariant
            from <= i <= to <= 64,
            s@ == before + blocks(mask, from as int, i as int),
        decreases to - i,
    {
        let bit: u64 = (mask >> (i as u64)) & 1;
        s.push(
            if bit == 1 {
                '█'
            } else {
                '░'
            },
        );
        i = i + 1;
        assert(s@ =~= before + blocks(mask, from as int, i as int));
    }
}

impl GroupSnap {
    /// Which data and which parity shards have arrived, as `D:██░░█░  P:█░`. The mask tells
    /// of 64 shards.
    pub fn shard_map(&self) -> (r: String)
        requires
            self.k + self.m <= 64,
        ensures
            r@ == "D:"@ + blocks(self.received_mask, 0, self.k as int) + "  P:"@ + blocks(
                self.received_mask,
                self.k as int,
                self.k + self.m,
            ),
    {
        let mut s: String = String::new();
        s.push_str("D:");
        push_blocks(&mut s, self.received_mask, 0, self.k);
        s.push_str("  P:");
        push_blocks(&mut s, self.received_mask, self.k, self.k + self.m);
        assert(s@ =~= "D:"@ + blocks(self.received_mask, 0, self.k as int) + "  P:"@ + blocks(
            self.received_mask,
            self.k as int,
            self.k + self.m,
        ));
        s
    }

    /// Data shards that are missing.
    pub fn data_missing(&self) -> (r: u8)
        ensures
            r == (if self.k < self.data_received {
                0
            } else {
                self.k - self.data_received
            }),
    {
        self.k.saturating_sub(self.data_received)
    }

    /// Parity shards that have arrived.
    pub fn parity_received(&self) -> (r: u8)
        ensures
            r == (if self.received < self.data_received {
                0
            } else {
                self.received - self.data_received
            }),
    {
        self.received.saturating_sub(self.data_received)
    }

    /// Whether enough shards are there for a reconstruction.
    pub fn can_recover(&self) -> (r: bool)
        ensures
            r == (self.received >= self.k),
    {
        self.received >= self.k
    }
}

/// A slice at one point in time.
#[derive(Debug, Clone)]
pub struct SliceSnap {
    pub slice_idx: u8,
    pub total_groups: u8,
    pub ready_groups: u8,
    pub state_label: &'static str,
    pub groups: Vec<GroupSnap>,
}

/// What a [`SliceSnap`] holds.
#[verifier::ext_equal]
pub struct SliceSnapModel {
    pub slice_idx: u8,
    pub total_groups: u8,
    pub ready_groups: u8,
    pub label: Seq<char>,
    pub groups: Seq<GroupSnapModel>,
}

/// What the groups hold.
pub open spec fn group_snap_views(s: Seq<GroupSnap>) -> Seq<GroupSnapModel> {
    Seq::new(s.len(), |i: int| s[i]@)
}

impl View for SliceSnap {
    type V = SliceSnapModel;

    open spec fn view(&self) -> SliceSnapModel {
        SliceSnapModel {
            slice_idx: self.slice_idx,
            total_groups: self.total_groups,
            ready_groups: self.ready_groups,
            label: self.state_label@,
            groups: group_snap_views(self.groups@),
        }
    }
}

/// Shards received in the groups of `s`.
pub open spec fn groups_received(s: Seq<GroupSnapModel>) -> nat
    decreases s.len(),
{
    if s.len() == 0 {
        0
    } else {
        groups_received(s.drop_last()) + s.last().received as nat
    }
}

/// Shards expected in the groups of `s`.
pub open spec fn groups_expected(s: Seq<GroupSnapModel>) -> nat
    decreases s.len(),
{
    if s.len() == 0 {
        0
    } else {
        groups_expected(s.drop_last()) + (s.last().k + s.last().m) as nat
    }
}

/// The shard counts of every group can be added in a byte.
pub open spec fn small_groups(s: Seq<GroupSnapModel>) -> bool {
    forall|i: int| 0 <= i < s.len() ==> (#[trigger] s[i]).k + s[i].m <= 255
}

impl SliceSnap {
    /// Shards received in this slice.
    pub fn total_received(&self) -> (r: u32)
        requires
            groups_received(self@.groups) <= u32::MAX,
        ensures
            r == groups_received(self@.groups),
    {
        let ghost v = self@.groups;
        let mut sum: u32 = 0;
        let mut i: usize = 0;
        while i < self.groups.len()
            invariant
                i <= self.groups@.len(),
                v == group_snap_views(self.groups@),
                groups_received(v) <= u32::MAX,
                sum == groups_received(v.take(i as int)),
            decreases self.groups@.len() - i,
        {
            proof {
                assert(v.take(i + 1).drop_last() =~= v.take(i as int));
                lemma_groups_received_prefix(v, i + 1);
            }
            sum = sum + self.groups[i].received as u32;
            i = i + 1;
        }
        assert(v.take(v.len() as int) =~= v);
        sum
    }

    /// Shards expected in this slice.
    pub fn total_expected(&self) -> (r: u32)
        requires
            small_groups(self@.groups),
            groups_expected(self@.groups) <= u32::MAX,
        ensures
            r == groups_expected(self@.groups),
    {
        let ghost v = self@.groups;
        let mut sum: u32 = 0;
        let mut i: usize = 0;
        while i < self.groups.len()
            invariant
                i <= self.groups@.len(),
                v == group_snap_views(self.groups@),
                small_groups(v),
                groups_expected(v) <= u32::MAX,
                sum == groups_expected(v.take(i as int)),
            decreases self.groups@.len() - i,
        {
            proof {
                assert(v.take(i + 1).drop_last() =~= v.take(i as int));
                lemma_groups_expected_prefix(v, i + 1);
                assert(v[i as int].k + v[i as int].m <= 255);
            }
            sum = sum + (self.groups[i].k + self.groups[i].m) as u32;
            i = i + 1;
        }
        assert(v.take(v.len() as int) =~= v);
        sum
    }

    /// Whether some group lacks more shards than its parity can replace.
    pub fn has_unrecoverable_group(&self) -> (r: bool)
        requires
            small_groups(self@.groups),
        ensures
            r == exists|i: int|
                0 <= i < self.groups@.len() && (#[trigger] self.groups@[i]).received
                    < self.groups@[i].k,
    {
        let mut i: usize = 0;
        while i < self.groups.len()
            invariant
                i <= self.groups@.len(),
                small_groups(self@.groups),
                forall|j: int|
                    0 <= j < i ==> (#[trigger] self.groups@[j]).received >= self.groups@[j].k,
            decreases self.groups@.len() - i,
        {
            let g = &self.groups[i];
            assert(self@.groups[i as int].k + self@.groups[i as int].m <= 255);
            if !g.can_recover() && g.received < g.k + g.m {
                return true;
            }
            i = i + 1;
        }
        false
    }
}

proof fn lemma_groups_received_prefix(s: Seq<GroupSnapModel>, n: int)
    requires
        0 <= n <= s.len(),
    ensures
        groups_received(s.take(n)) <= groups_received(s),
    decreases s.len() - n,
{
    if n < s.len() {
        lemma_groups_received_prefix(s, n + 1);
        assert(s.take(n + 1).drop_last() =~= s.take(n));
    } else {
        assert(s.take(n) =~= s);
    }
}

proof fn lemma_groups_expected_prefix(s: Seq<GroupSnapModel>, n: int)
    requires
        0 <= n <= s.len(),
    ensures
        groups_expected(s.take(n)) <= groups_expected(s),
    decreases s.len() - n,
{
    if n < s.len() {
        lemma_groups_expected_prefix(s, n + 1);
        assert(s.take(n + 1).drop_last() =~= s.take(n));
    } else {
        assert(s.take(n) =~= s);
    }
}

/// How long the stages of a frame took, in microseconds.
#[derive(Debug, Clone, Copy, PartialEq, Eq, Structural)]
pub struct FrameTimings {
    pub total_age: u64,
    pub collect_time: u64,
    pub fec_submit_lag: u64,
    pub fec_duration: u64,
    pub ready_lag: u64,
}

/// A frame at one point in time.
#[derive(Debug, Clone)]
pub struct FrameSnap {
    pub frame_id: u64,
    pub total_slices: u8,
    pub emitted_slices: u8,
    pub next_emit_idx: u8,
    pub state_label: &'static str,
    pub first_us: u64,
    pub age_us: u64,
    /// The frame is the next one to be released.
    pub is_hol: bool,
    pub slices: Vec<SliceSnap>,
    pub collecting_done_us: u64,
    pub fec_submitted_us: u64,
    pub fec_done_us: u64,
    pub network_ready_us: Option<u64>,
}

/// What a [`FrameSnap`] holds.
#[verifier::ext_equal]
pub struct FrameSnapModel {
    pub frame_id: u64,
    pub total_slices: u8,
    pub emitted_slices: u8,
    pub next_emit_idx: u8,
    pub label: Seq<char>,
    pub first_us: u64,
    pub age_us: u64,
    pub is_hol: bool,
    pub slices: Seq<SliceSnapModel>,
    pub collecting_done_us: u64,
    pub fec_submitted_us: u64,
    pub fec_done_us: u64,
    pub network_ready_us: Option<u64>,
}

/// What the slices hold.
pub open spec fn slice_snap_views(s: Seq<SliceSnap>) -> Seq<SliceSnapModel> {
    Seq::new(s.len(), |i: int| s[i]@)
}

impl View for FrameSnap {
    type V = FrameSnapModel;

    open spec fn view(&self) -> FrameSnapModel {
        FrameSnapModel {
            frame_id: self.frame_id,
            total_slices: self.total_slices,
            emitted_slices: self.emitted_slices,
            next_emit_idx: self.next_emit_idx,
            label: self.state_label@,
            first_us: self.first_us,
            age_us: self.age_us,
            is_hol: self.is_hol,
            slices: slice_snap_views(self.slices@),
            collecting_done_us: self.collecting_done_us,
            fec_submitted_us: self.fec_submitted_us,
            fec_done_us: self.fec_done_us,
            network_ready_us: self.network_ready_us,
        }
    }
}

/// Shards received in the slices of `s`.
pub open spec fn slices_received(s: Seq<SliceSnapModel>) -> nat
    decreases s.len(),
{
    if s.len() == 0 {
        0
    } else {
        slices_received(s.drop_last()) + groups_received(s.last().groups)
    }
}

/// Shards expected in the slices of `s`.
pub open spec fn slices_expected(s: Seq<SliceSnapModel>) -> nat
    decreases s.len(),
{
    if s.len() == 0 {
        0
    } else {
        slices_expected(s.drop_last()) + groups_expected(s.last().groups)
    }
}

impl FrameSnap {
    /// Shards received in this frame.
    pub fn total_received_shards(&self) -> (r: u32)
        requires
            slices_received(self@.slices) <= u32::MAX,
        ensures
            r == slices_received(self@.slices),
    {
        let ghost v = self@.slices;
        let mut sum: u32 = 0;
        let mut i: usize = 0;
        while i < self.slices.len()
            invariant
                i <= self.slices@.len(),
                v == slice_snap_views(self.slices@),
                slices_received(v) <= u32::MAX,
                sum == slices_received(v.take(i as int)),
            decreases self.slices@.len() - i,
        {
            proof {
                assert(v.take(i + 1).drop_last() =~= v.take(i as int));
                assert(v.take(i + 1).last() == self.slices@[i as int]@);
                lemma_slices_received_prefix(v, i + 1);
            }
            sum = sum + self.slices[i].total_received();
            i = i + 1;
        }
        assert(v.take(v.len() as int) =~= v);
        sum
    }

    /// Shards expected in this frame.
    pub fn total_expected_shards(&self) -> (r: u32)
        requires
            forall|i: int|
                0 <= i < self@.slices.len() ==> small_groups((#[trigger] self@.slices[i]).groups),
            slices_expected(self@.slices) <= u32::MAX,
        ensures
            r == slices_expected(self@.slices),
    {
        let ghost v = self@.slices;
        let mut sum: u32 = 0;
        let mut i: usize = 0;
        while i < self.slices.len()
            invariant
                i <= self.slices@.len(),
                v == slice_snap_views(self.slices@),
                forall|j: int| 0 <= j < v.len() ==> small_groups((#[trigger] v[j]).groups),
                slices_expected(v) <= u32::MAX,
                sum == slices_expected(v.take(i as int)),
            decreases self.slices@.len() - i,
        {
            proof {
                assert(v.take(i + 1).drop_last() =~= v.take(i as int));
                assert(v.take(i + 1).last() == self.slices@[i as int]@);
                lemma_slices_expected_prefix(v, i + 1);
                assert(small_groups(v[i as int].groups));
            }
            sum = sum + self.slices[i].total_expected();
            i = i + 1;
        }
        assert(v.take(v.len() as int) =~= v);
        sum
    }
}

proof fn lemma_slices_received_prefix(s: Seq<SliceSnapModel>, n: int)
    requires
        0 <= n <= s.len(),
    ensures
        slices_received(s.take(n)) <= slices_received(s),
    decreases s.len() - n,
{
    if n < s.len() {
        lemma_slices_received_prefix(s, n + 1);
        assert(s.take(n + 1).drop_last() =~= s.take(n));
    } else {
        assert(s.take(n) =~= s);
    }
}

proof fn lemma_slices_expected_prefix(s: Seq<SliceSnapModel>, n: int)
    requires
        0 <= n <= s.len(),
    ensures
        slices_expected(s.take(n)) <= slices_expected(s),
    decreases s.len() - n,
{
    if n < s.len() {
        lemma_slices_expected_prefix(s, n + 1);
        assert(s.take(n + 1).drop_last() =~= s.take(n));
    } else {
        assert(s.take(n) =~= s);
    }
}

/// The numbers are in order, none twice.
pub open spec fn ascending(s: Seq<u64>) -> bool {
    forall|i: int, j: int| 0 <= i < j < s.len() ==> s[i] < s[j]
}

/// Puts a number that is not there yet into its place.
fn insert_ascending(ids: &mut Vec<u64>, id: u64)
    requires
        ascending(old(ids)@),
        !old(ids)@.contains(id),
    ensures
        ascending(final(ids)@),
        final(ids)@.len() == old(ids)@.len() + 1,
        forall|x: u64| #[trigger]
            final(ids)@.contains(x) ==> old(ids)@.contains(x) || x == id,
{
    let ghost before = ids@;
    let mut at: usize = 0;
    while at < ids.len() && ids[at] < id
        invariant
            at <= ids@.len(),
            ids@ == before,
            forall|i: int| 0 <= i < at ==> #[trigger] ids@[i] < id,
        decreases ids@.len() - at,
    {
        at = at + 1;
    }
    proof {
        if at < before.len() {
            assert(before.contains(before[at as int]));
        }
    }
    ids.insert(at, id);
    proof {
        assert forall|x: u64| #[trigger] ids@.contains(x) implies before.contains(x) || x == id by {
            let i = choose|i: int| 0 <= i < ids@.len() && ids@[i] == x;
            if i < at {
                assert(before[i] == x);
            } else if i > at {
                assert(before[i - 1] == x);
            }
        }
    }
}

/// The latest snapshots of the last frames that were seen.
#[derive(Debug)]
pub struct AssemblyDiag {
    pub window: HashMap<u64, FrameSnap>,
    /// The frames of the window, the oldest first.
    pub order: VecDeque<u64>,
    /// Shards seen.
    pub shard_count: u64,
}

/// What an [`AssemblyDiag`] holds.
#[verifier::ext_equal]
pub struct DiagModel {
    pub window: Map<u64, FrameSnapModel>,
    pub order: Seq<u64>,
    pub shard_count: u64,
}

impl DiagModel {
    /// The window holds the snapshots of the listed frames, of which there are not too
    /// many.
    pub open spec fn valid(self) -> bool {
        &&& self.order.no_duplicates()
        &&& self.order.len() <= WINDOW
        &&& forall|id: u64| #[trigger] self.window.contains_key(id) <==> self.order.contains(id)
        &&& forall|id: u64| #[trigger]
            self.window.contains_key(id) ==> self.window[id].frame_id == id
    }

    /// The window with a snapshot put in. A frame that was not there replaces the oldest
    /// one when the window is full.
    pub open spec fn upserted(self, snap: FrameSnapModel) -> DiagModel {
        let id = snap.frame_id;
        if self.window.contains_key(id) {
            DiagModel { window: self.window.insert(id, snap), ..self }
        } else if self.order.len() >= WINDOW {
            DiagModel {
                window: self.window.remove(self.order[0]).insert(id, snap),
                order: self.order.skip(1).push(id),
                ..self
            }
        } else {
            DiagModel {
                window: self.window.insert(id, snap),
                order: self.order.push(id),
                ..self
            }
        }
    }

    /// The window never holds more than its number of frames, each once, and always the
    /// one that was put in last.
    pub proof fn law_window_is_bounded(self, snap: FrameSnapModel)
        requires
            self.valid(),
        ensures
            self.upserted(snap).valid(),
            self.upserted(snap).window.contains_key(snap.frame_id),
            self.upserted(snap).window[snap.frame_id] == snap,
    {
        let id = snap.frame_id;
        let t = self.upserted(snap);
        if !self.window.contains_key(id) {
            assert(!self.order.contains(id));
            let kept = if self.order.len() >= WINDOW {
                self.order.skip(1)
            } else {
                self.order
            };
            assert(t.order == kept.push(id));
            assert forall|x: u64| #[trigger] t.window.contains_key(x) <==> t.order.contains(x) by {
                if t.order.contains(x) {
                    let i = choose|i: int| 0 <= i < t.order.len() && t.order[i] == x;
                    if i < kept.len() {
                        if self.order.len() >= WINDOW {
                            assert(self.order[i + 1] == x);
                            assert(self.order[0] != self.order[i + 1]);
                        } else {
                            assert(self.order[i] == x);
                        }
                        assert(self.order.contains(x));
                    }
                }
                if t.window.contains_key(x) && x != id {
                    assert(self.order.contains(x));
                    let i = choose|i: int| 0 <= i < self.order.len() && self.order[i] == x;
                    if self.order.len() >= WINDOW {
                        assert(i > 0);
                        assert(t.order[i - 1] == x);
                    } else {
                        assert(t.order[i] == x);
                    }
                }
                if x == id {
                    assert(t.order[kept.len() as int] == id);
                }
            }
            assert forall|i: int, j: int| 0 <= i < j < t.order.len() implies t.order[i]
                != t.order[j] by {
                if self.order.len() >= WINDOW {
                    assert(t.order[i] == self.order[i + 1]);
                    if j < kept.len() {
                        assert(t.order[j] == self.order[j + 1]);
                    } else {
                        assert(self.order.contains(self.order[i + 1]));
                    }
                } else {
                    assert(t.order[i] == self.order[i]);
                    if j < kept.len() {
                        assert(t.order[j] == self.order[j]);
                    } else {
                        assert(self.order.contains(self.order[i]));
                    }
                }
            }
        }
    }
}

/// What the snapshots of the window hold.
pub open spec fn window_views(window: Map<u64, FrameSnap>) -> Map<u64, FrameSnapModel> {
    window.map_values(|s: FrameSnap| s@)
}

impl View for AssemblyDiag {
    type V = DiagModel;

    open spec fn view(&self) -> DiagModel {
        DiagModel {
            window: window_views(self.window@),
            order: self.order@,
            shard_count: self.shard_count,
        }
    }
}

impl Default for AssemblyDiag {
    fn default() -> (r: AssemblyDiag)
        ensures
            r@ == new_diag(),
            r@.valid(),
    {
        AssemblyDiag::new()
    }
}

/// An empty window.
pub open spec fn new_diag() -> DiagModel {
    DiagModel { window: Map::empty(), order: Seq::empty(), shard_count: 0 }
}

/// One line of a window dump.
#[derive(Debug, Clone, Copy, PartialEq, Eq, Structural)]
pub struct WindowRow {
    pub frame_id: u64,
    pub is_hol: bool,
    /// Zero unless the shards of the frame have been collected.
    pub timings: Option<FrameTimings>,
}

/// The timings of a frame whose shards have been collected. A stage that was not passed
/// took no time.
pub open spec fn snap_timings(s: FrameSnapModel) -> Option<FrameTimings> {
    if s.collecting_done_us == 0 {
        None
    } else {
        Some(
            FrameTimings {
                total_age: s.age_us,
                collect_time: since(s.collecting_done_us, s.first_us) as u64,
                fec_submit_lag: if s.fec_submitted_us > 0 {
                    since(s.fec_submitted_us, s.collecting_done_us) as u64
                } else {
                    0
                },
                fec_duration: if s.fec_done_us > 0 {
                    since(s.fec_done_us, s.fec_submitted_us) as u64
                } else {
                    0
                },
                ready_lag: match s.network_ready_us {
                    Some(r) => since(
                        r,
                        if s.fec_done_us > 0 {
                            s.fec_done_us
                        } else {
                            s.collecting_done_us
                        },
                    ) as u64,
                    None => 0,
                },
            },
        )
    }
}

impl AssemblyDiag {
    pub fn new() -> (r: AssemblyDiag)
        ensures
            r@ == new_diag(),
            r@.valid(),
    {
        let r = AssemblyDiag { window: HashMap::new(), order: VecDeque::new(), shard_count: 0 };
        assert(r@.window =~= Map::<u64, FrameSnapModel>::empty());
        r
    }

    /// Puts a snapshot into the window.
    pub fn upsert_frame(&mut self, snap: FrameSnap)
        requires
            old(self)@.valid(),
        ensures
            final(self)@ == old(self)@.upserted(snap@),
            final(self)@.valid(),
    {
        let ghost before = self@;
        proof {
            before.law_window_is_bounded(snap@);
        }
        let fid: u64 = snap.frame_id;
        if !self.window.contains_key(&fid) {
            assert(!before.window.contains_key(fid));
            if self.order.len() >= WINDOW {
                if let Some(old_id) = self.order.pop_front() {
                    self.window.remove(&old_id);
                    assert(self@.window =~= before.window.remove(old_id));
                }
            }
            self.order.push_back(fid);
        }
        let ghost mid = self@.window;
        let ghost new = snap@;
        self.window.insert(fid, snap);
        assert(self@.window =~= mid.insert(fid, new));
        assert(self@.order =~= before.upserted(new).order);
    }

    /// The snapshot of a frame, to be changed in place.
    pub fn get_mut(&mut self, frame_id: u64) -> (r: Option<&mut FrameSnap>)
        ensures
            match r {
                Some(snap) => {
                    &&& old(self).window@.contains_key(frame_id)
                    &&& *snap == old(self).window@[frame_id]
                    &&& final(self).window@ == old(self).window@.insert(frame_id, *final(snap))
                },
                None => {
                    &&& !old(self).window@.contains_key(frame_id)
                    &&& final(self).window@ == old(self).window@
                },
            },
            final(self).order == old(self).order,
            final(self).shard_count == old(self).shard_count,
    {
        match self.window.entry(frame_id) {
            std::collections::hash_map::Entry::Occupied(e) => Some(e.into_mut()),
            std::collections::hash_map::Entry::Vacant(_) => None,
        }
    }

    /// How long the stages of a complete frame took.
    pub fn on_frame_complete(
        &self,
        first_us: u64,
        collecting_done_us: u64,
        fec_submitted_us: u64,
        fec_done_us: u64,
        network_ready_us: u64,
        now_us: u64,
    ) -> (r: FrameTimings)
        ensures
            r == (FrameTimings {
                total_age: since(now_us, first_us) as u64,
                collect_time: since(collecting_done_us, first_us) as u64,
                fec_submit_lag: since(fec_submitted_us, collecting_done_us) as u64,
                fec_duration: since(fec_done_us, fec_submitted_us) as u64,
                ready_lag: since(
                    network_ready_us,
                    if fec_done_us > 0 {
                        fec_done_us
                    } else {
                        collecting_done_us
                    },
                ) as u64,
            }),
    {
        FrameTimings {
            total_age: now_us.saturating_sub(first_us),
            collect_time: collecting_done_us.saturating_sub(first_us),
            fec_submit_lag: fec_submitted_us.saturating_sub(collecting_done_us),
            fec_duration: fec_done_us.saturating_sub(fec_submitted_us),
            ready_lag: network_ready_us.saturating_sub(
                if fec_done_us > 0 {
                    fec_done_us
                } else {
                    collecting_done_us
                },
            ),
        }
    }

    /// Whether a wait for the next frame has used up more than half of its budget.
    pub fn on_hol_blocked(&self, stall_us: u64, budget_us: u64) -> (r: bool)
        ensures
            r == (stall_us > budget_us / 2),
    {
        stall_us > budget_us / 2
    }

    /// Which shards are there when the others are asked for. The mask tells of 64 shards.
    pub fn on_nack_sent(&self, received_mask: u64, k: u8, m: u8) -> (r: String)
        requires
            k + m <= 64,
        ensures
            r@ == blocks(received_mask, 0, k + m),
    {
        let mut have: String = String::new();
        push_blocks(&mut have, received_mask, 0, k + m);
        assert(have@ =~= blocks(received_mask, 0, k + m));
        have
    }

    /// The frames of the window in the order of their numbers.
    pub fn dump_window(&self, hol_id: Option<u64>) -> (r: Vec<WindowRow>)
        requires
            self@.valid(),
        ensures
            forall|i: int, j: int| 0 <= i < j < r@.len() ==> r@[i].frame_id < r@[j].frame_id,
            r@.len() == self@.order.len(),
            forall|i: int|
                0 <= i < r@.len() ==> {
                    let row = #[trigger] r@[i];
                    &&& self@.window.contains_key(row.frame_id)
                    &&& row.is_hol == (hol_id == Some(row.frame_id))
                    &&& row.timings == snap_timings(self@.window[row.frame_id])
                },
    {
        let mut ids: Vec<u64> = Vec::new();
        let mut n: usize = 0;
        while n < self.order.len()
            invariant
                n <= self.order@.len(),
                self@.valid(),
                ids@.len() == n,
                ascending(ids@),
                forall|x: u64| #[trigger]
                    ids@.contains(x) ==> exists|i: int| 0 <= i < n && self.order@[i] == x,
            decreases self.order@.len() - n,
        {
            let id: u64 = self.order[n];
            proof {
                if ids@.contains(id) {
                    let i = choose|i: int| 0 <= i < n && self.order@[i] == id;
                    assert(self.order@[i] != self.order@[n as int]);
                }
            }
            insert_ascending(&mut ids, id);
            n = n + 1;
        }
        let mut rows: Vec<WindowRow> = Vec::new();
        let mut i: usize = 0;
        while i < ids.len()
            invariant
                i <= ids@.len(),
                self@.valid(),
                ids@.len() == self.order@.len(),
                ascending(ids@),
                forall|x: u64| #[trigger]
                    ids@.contains(x) ==> exists|j: int|
                        0 <= j < self.order@.len() && self.order@[j] == x,
                rows@.len() == i,
                forall|j: int|
                    0 <= j < i ==> {
                        let row = #[trigger] rows@[j];
                        &&& row.frame_id == ids@[j]
                        &&& self@.window.contains_key(row.frame_id)
                        &&& row.is_hol == (hol_id == Some(row.frame_id))
                        &&& row.timings == snap_timings(self@.window[row.frame_id])
                    },
            decreases ids@.len() - i,
        {
            let id: u64 = ids[i];
            proof {
                assert(ids@.contains(id));
                assert(self.order@.contains(id));
                assert(self@.window.contains_key(id));
            }
            let timings: Option<FrameTimings> = match self.window.get(&id) {
                Some(snap) => snap.timings(),
                None => None,
            };
            rows.push(WindowRow { frame_id: id, is_hol: hol_id == Some(id), timings });
            i = i + 1;
        }
        rows
    }

    /// Counts a shard.
    pub fn inc_shard_count(&mut self)
        requires
            old(self)@.shard_count < u64::MAX,
        ensures
            final(self)@ == (DiagModel {
                shard_count: (old(self)@.shard_count + 1) as u64,
                ..old(self)@
            }),
    {
        self.shard_count = self.shard_count + 1;
    }
}

impl FrameSnap {
    /// How long the stages of the frame took, once its shards have been collected.
    pub fn timings(&self) -> (r: Option<FrameTimings>)
        ensures
            r == snap_timings(self@),
    {
        if self.collecting_done_us == 0 {
            return None;
        }
        let base: u64 = if self.fec_done_us > 0 {
            self.fec_done_us
        } else {
            self.collecting_done_us
        };
        Some(
            FrameTimings {
                total_age: self.age_us,
                collect_time: self.collecting_done_us.saturating_sub(self.first_us),
                fec_submit_lag: if self.fec_submitted_us > 0 {
                    self.fec_submitted_us.saturating_sub(self.collecting_done_us)
                } else {
                    0
                },
                fec_duration: if self.fec_done_us > 0 {
                    self.fec_done_us.saturating_sub(self.fec_submitted_us)
                } else {
                    0
                },
                ready_lag: match self.network_ready_us {
                    Some(r) => r.saturating_sub(base),
                    None => 0,
                },
            },
        )
    }
}

/// A snapshot with the given fields.
pub fn snap_group(
    group_idx: u8,
    k: u8,
    m: u8,
    received: u8,
    data_received: u8,
    received_mask: u64,
    state_label: &'static str,
    first_us: u64,
) -> (r: GroupSnap)
    ensures
        r@ == (GroupSnapModel {
            group_idx,
            k,
            m,
            received,
            data_received,
            received_mask,
            label: state_label@,
            first_us,
        }),
{
    GroupSnap {
        group_idx,
        k,
        m,
        received,
        data_received,
        received_mask,
        state_label,
        first_us,
    }
}

/// The name of a group's state.
pub open spec fn group_label(state: GroupState) -> Seq<char> {
    match state {
        GroupState::Collecting => "Collecting"@,
        GroupState::Stalled { since_us } => "Stalled"@,
        GroupState::Requested { sent_at_us } => "Requested"@,
        GroupState::Decoding => "Decoding"@,
        GroupState::Ready => "Ready"@,
        GroupState::Abandoned => "Abandoned"@,
        GroupState::DecodingInProgress => "Decoding is in process"@,
    }
}

pub fn group_state_label(state: &GroupState) -> (r: &'static str)
    ensures
        r@ == group_label(*state),
{
    match state {
        GroupState::Collecting => "Collecting",
        GroupState::Stalled { .. } => "Stalled",
        GroupState::Requested { .. } => "Requested",
        GroupState::Decoding => "Decoding",
        GroupState::Ready => "Ready",
        GroupState::Abandoned => "Abandoned",
        GroupState::DecodingInProgress => "Decoding is in process",
    }
}

/// The name of a slice's state.
pub open spec fn slice_label(state: SliceState) -> Seq<char> {
    match state {
        SliceState::Assembling => "Assembling"@,
        SliceState::EmittingFec => "EmittingFec"@,
        SliceState::EmittingDirect => "EmittingDirect"@,
        SliceState::Emitted => "Emitted"@,
        SliceState::Abandoned => "Abandoned"@,
    }
}

pub fn slice_state_label(state: &SliceState) -> (r: &'static str)
    ensures
        r@ == slice_label(*state),
{
    match state {
        SliceState::Assembling => "Assembling",
        SliceState::EmittingFec => "EmittingFec",
        SliceState::EmittingDirect => "EmittingDirect",
        SliceState::Emitted => "Emitted",
        SliceState::Abandoned => "Abandoned",
    }
}

/// The name of a frame's state.
pub open spec fn frame_label(state: FrameState) -> Seq<char> {
    match state {
        FrameState::Receiving => "Receiving"@,
        FrameState::Complete => "Complete"@,
        FrameState::Abandoned => "Abandoned"@,
    }
}

pub fn frame_state_label(state: &FrameState) -> (r: &'static str)
    ensures
        r@ == frame_label(*state),
{
    match state {
        FrameState::Receiving => "Receiving",
        FrameState::Complete => "Complete",
        FrameState::Abandoned => "Abandoned",
    }
}

} // verus!
