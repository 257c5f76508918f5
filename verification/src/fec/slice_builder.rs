//! Collection of the groups of one slice.
use crate::buffer::bytes_cloned;
use crate::fec::group_builder::{
    lemma_new_group, new_group, GroupBuilder, GroupModel, GroupState,
};
use crate::fec::codec::rs_parity;
use crate::fec::decode::shards_of;
use crate::fec::encode::SliceJob;
use crate::fec::laws::{extends_by_zeros, gathered, lemma_gathered, lens_of};
use crate::fec::GroupRecovery;
use crate::packet::{ChunkModel, DatagramChunk};
use std::collections::HashMap;
use vstd::prelude::*;

verus! {

broadcast use vstd::std_specs::hash::group_hash_axioms;

/// Where a slice is on its way to the decoder.
#[derive(Debug, Clone, Copy, PartialEq, Eq, Structural)]
pub enum SliceState {
    /// Waiting for groups.
    Assembling,
    /// Every group can be had, some of them by reconstruction.
    EmittingFec,
    /// Every group has all its data shards.
    EmittingDirect,
    /// The slice was handed on.
    Emitted,
    /// The frame was given up.
    Abandoned,
}

impl SliceState {
    /// Chunks that arrive are dropped.
    pub open spec fn terminal(self) -> bool {
        self is Emitted || self is Abandoned
    }

    pub fn is_terminal(&self) -> (r: bool)
        ensures
            r == self.terminal(),
    {
        match self {
            SliceState::Emitted | SliceState::Abandoned => true,
            _ => false,
        }
    }
}

/// The groups of a slice as far as they have arrived.
#[derive(Debug)]
pub struct SliceBuilder {
    pub(crate) groups: HashMap<u8, GroupBuilder>,
    pub(crate) total_groups: u8,
    pub(crate) ready_groups: u8,
    pub(crate) state: SliceState,
}

/// What a [`SliceBuilder`] holds.
#[verifier::ext_equal]
pub struct SliceModel {
    pub groups: Map<u8, GroupModel>,
    pub total_groups: u8,
    pub ready_groups: u8,
    pub state: SliceState,
}

/// What the groups hold.
pub open spec fn group_views(groups: Map<u8, GroupBuilder>) -> Map<u8, GroupModel> {
    groups.map_values(|g: GroupBuilder| g@)
}

/// A slice of which nothing has arrived.
pub open spec fn new_slice(total_groups: u8) -> SliceModel {
    SliceModel {
        groups: Map::empty(),
        total_groups: if total_groups == 0 {
            1
        } else {
            total_groups
        },
        ready_groups: 0,
        state: SliceState::Assembling,
    }
}

/// The group waits for its reconstruction to be scheduled.
pub open spec fn needs_decoding(g: GroupModel) -> bool {
    g.state is Ready && !g.direct()
}

/// The group once its reconstruction is due, if it needs one.
pub open spec fn due_for_decoding(g: GroupModel) -> GroupModel {
    if needs_decoding(g) {
        GroupModel { state: GroupState::Decoding, ..g }
    } else {
        g
    }
}

impl SliceModel {
    pub open spec fn valid(self) -> bool {
        &&& self.total_groups >= 1
        &&& forall|g: u8| #[trigger] self.groups.contains_key(g) ==> self.groups[g].valid()
    }

    /// The group that a chunk belongs to, before its arrival.
    pub open spec fn group_before(self, chunk: ChunkModel) -> GroupModel {
        if self.groups.contains_key(chunk.group_idx) {
            self.groups[chunk.group_idx]
        } else {
            new_group(chunk.k, chunk.m)
        }
    }

    /// The group that a chunk belongs to, after its arrival.
    pub open spec fn group_after(self, chunk: ChunkModel, seq: u64, now_us: u64) -> GroupModel {
        self.group_before(chunk).inserted(
            chunk.shard_idx,
            chunk.data,
            chunk.payload_len,
            now_us,
            seq,
        )
    }

    /// The chunk makes its group complete.
    pub open spec fn completes(self, chunk: ChunkModel, seq: u64, now_us: u64) -> bool {
        !self.group_before(chunk).ready() && self.group_after(chunk, seq, now_us).ready()
    }

    /// How the chunk makes its group complete, if it does.
    pub open spec fn recovery(self, chunk: ChunkModel, seq: u64, now_us: u64) -> Option<
        GroupRecovery,
    > {
        let g = self.group_after(chunk, seq, now_us);
        if !self.completes(chunk, seq, now_us) {
            None
        } else if g.direct() {
            Some(GroupRecovery::Direct)
        } else {
            Some(
                GroupRecovery::Fec {
                    missing_data_shards: (g.k - g.data_received) as u8,
                    via_parity: true,
                },
            )
        }
    }

    /// The group that the chunk makes stall, if it does.
    pub open spec fn stalls(self, chunk: ChunkModel, seq: u64, now_us: u64) -> Option<(u8, u8)> {
        if self.group_before(chunk).state is Collecting && self.group_after(
            chunk,
            seq,
            now_us,
        ).state is Stalled {
            Some((chunk.slice_idx, chunk.group_idx))
        } else {
            None
        }
    }

    /// The slice with the chunk in its group.
    pub open spec fn with_chunk(self, chunk: ChunkModel, seq: u64, now_us: u64) -> SliceModel {
        let g = self.group_after(chunk, seq, now_us);
        let done = self.completes(chunk, seq, now_us);
        SliceModel {
            groups: self.groups.insert(
                chunk.group_idx,
                if done {
                    GroupModel { state: GroupState::Ready, ..g }
                } else {
                    g
                },
            ),
            total_groups: if chunk.total_groups > 0 {
                chunk.total_groups
            } else {
                self.total_groups
            },
            ready_groups: if done && self.ready_groups < 255 {
                (self.ready_groups + 1) as u8
            } else {
                self.ready_groups
            },
            state: self.state,
        }
    }

    /// All groups can be had, and the slice has not gone on yet.
    pub open spec fn collected(self) -> bool {
        self.state is Assembling && self.ready_groups == self.total_groups
    }

    /// The slice on its way out, with the groups marked that need a reconstruction.
    pub open spec fn emitting(self) -> SliceModel {
        SliceModel {
            groups: self.groups.map_values(|g: GroupModel| due_for_decoding(g)),
            state: if exists|g: u8| #[trigger]
                self.groups.contains_key(g) && needs_decoding(self.groups[g]) {
                SliceState::EmittingFec
            } else {
                SliceState::EmittingDirect
            },
            ..self
        }
    }

    /// The slice after a chunk arrived as chunk number `seq`.
    pub open spec fn inserted(self, chunk: ChunkModel, seq: u64, now_us: u64) -> SliceModel {
        let s = self.with_chunk(chunk, seq, now_us);
        if s.collected() {
            s.emitting()
        } else {
            s
        }
    }

    /// The payload of the first `n` groups, as far as it can be had.
    pub open spec fn payload_upto(self, n: nat) -> Option<Seq<u8>>
        decreases n,
    {
        if n == 0 {
            Some(Seq::empty())
        } else {
            let g = (n - 1) as u8;
            match self.payload_upto((n - 1) as nat) {
                Some(front) => if self.groups.contains_key(g) {
                    match self.groups[g].payload() {
                        Some(part) => Some(front + part),
                        None => None,
                    }
                } else {
                    None
                },
                None => None,
            }
        }
    }

    /// The slice's bytes: the payload of all its groups.
    pub open spec fn payload(self) -> Option<Seq<u8>> {
        self.payload_upto(self.total_groups as nat)
    }

    /// The arrival of a chunk keeps a slice valid.
    pub proof fn law_inserted_valid(self, chunk: ChunkModel, seq: u64, now_us: u64)
        requires
            self.valid(),
            chunk.k + chunk.m <= 255,
        ensures
            self.group_before(chunk).valid(),
            self.with_chunk(chunk, seq, now_us).valid(),
            self.inserted(chunk, seq, now_us).valid(),
    {
        lemma_new_group(chunk.k, chunk.m);
        self.group_before(chunk).law_inserted_valid(
            chunk.shard_idx,
            chunk.data,
            chunk.payload_len,
            now_us,
            seq,
        );
        let s = self.with_chunk(chunk, seq, now_us);
        let t = self.inserted(chunk, seq, now_us);
        assert forall|g: u8| #[trigger] s.groups.contains_key(g) implies s.groups[g].valid() by {
            if g == chunk.group_idx {
                lemma_state_valid(self.group_after(chunk, seq, now_us), s.groups[g].state);
            }
        }
        assert forall|g: u8| #[trigger] t.groups.contains_key(g) implies t.groups[g].valid() by {
            assert(s.groups.contains_key(g));
            lemma_state_valid(s.groups[g], t.groups[g].state);
        }
    }
}

/// A valid group stays valid in another state, unless shards are counted again in it.
pub proof fn lemma_state_valid(g: GroupModel, state: GroupState)
    requires
        g.valid(),
        state.open() ==> g.state.open(),
        state is Stalled || state is Requested ==> g.state is Stalled || g.state is Requested,
    ensures
        (GroupModel { state, ..g }).valid(),
{
    let t = GroupModel { state, ..g };
    assert(t.shards() == g.shards());
}

/// The slice holds enough shards of each group of an encoded slice, and nothing else.
pub open spec fn holds_shards_of(s: SliceModel, job: SliceJob) -> bool {
    &&& job.valid()
    &&& job.chunk <= 0xffff
    &&& job.group_count() <= 255
    &&& s.total_groups == job.group_count()
    &&& forall|g: int|
        0 <= g < job.group_count() ==> {
            let group = #[trigger] s.groups[g as u8];
            &&& s.groups.contains_key(g as u8)
            &&& group.k == job.k(g)
            &&& group.m == job.m(g)
            &&& shards_of(group.k, group.m, group.shards(), job.data_shards(g))
            &&& lens_of(job, g, group.lens)
        }
}

impl View for SliceBuilder {
    type V = SliceModel;

    open(crate) spec fn view(&self) -> SliceModel {
        SliceModel {
            groups: group_views(self.groups@),
            total_groups: self.total_groups,
            ready_groups: self.ready_groups,
            state: self.state,
        }
    }
}

impl SliceBuilder {
    pub fn new(total_groups: u8) -> (r: SliceBuilder)
        ensures
            r@ == new_slice(total_groups),
            r@.valid(),
    {
        let total: u8 = if total_groups == 0 {
            1
        } else {
            total_groups
        };
        let r = SliceBuilder {
            groups: HashMap::new(),
            total_groups: total,
            ready_groups: 0,
            state: SliceState::Assembling,
        };
        assert(r@.groups =~= Map::<u8, GroupModel>::empty());
        r
    }

    /// Puts a chunk into its group. Tells how the group became complete by it, whether it
    /// came in answer to a request, which group stalls by it, and, when the slice has all
    /// its groups now, the time.
    pub fn insert(&mut self, chunk: &DatagramChunk, global_seq: u64, now_us: u64) -> (r: (
        Option<GroupRecovery>,
        bool,
        Option<(u8, u8)>,
        Option<u64>,
    ))
        requires
            old(self)@.valid(),
            chunk.k + chunk.m <= 255,
        ensures
            final(self)@ == old(self)@.inserted(chunk@, global_seq, now_us),
            final(self)@.valid(),
            r.0 == old(self)@.recovery(chunk@, global_seq, now_us),
            r.1 == old(self)@.group_before(chunk@).awaits(chunk.shard_idx),
            r.2 == old(self)@.stalls(chunk@, global_seq, now_us),
            r.3 == (if old(self)@.with_chunk(chunk@, global_seq, now_us).collected() {
                Some(now_us)
            } else {
                None
            }),
    {
        let ghost before = self@;
        let ghost groups_before = self.groups@;
        proof {
            before.law_inserted_valid(chunk@, global_seq, now_us);
        }
        if chunk.total_groups > 0 {
            self.total_groups = chunk.total_groups;
        }
        let mut group: GroupBuilder = match self.groups.remove(&chunk.group_idx) {
            Some(g) => g,
            None => GroupBuilder::new(chunk.k, chunk.m),
        };
        assert(group@ == before.group_before(chunk@));
        let (was_ready, _via) = group.is_ready();
        let (was_nack_recovery, newly_stalled) = group.insert(
            chunk.shard_idx,
            bytes_cloned(&chunk.data),
            chunk.payload_len,
            now_us,
            global_seq,
        );
        let (ready_now, via_parity) = group.is_ready();
        let recovery: Option<GroupRecovery> = if !was_ready && ready_now {
            self.ready_groups = self.ready_groups.saturating_add(1);
            group.state = GroupState::Ready;
            if group.is_direct() {
                Some(GroupRecovery::Direct)
            } else {
                Some(
                    GroupRecovery::Fec {
                        missing_data_shards: group.k.saturating_sub(group.data_received),
                        via_parity,
                    },
                )
            }
        } else {
            None
        };
        let ghost after = group@;
        self.groups.insert(chunk.group_idx, group);
        proof {
            assert(self@.groups =~= before.with_chunk(chunk@, global_seq, now_us).groups);
            assert(self@ =~= before.with_chunk(chunk@, global_seq, now_us));
        }
        let mut collecting_done: Option<u64> = None;
        if self.state == SliceState::Assembling && self.ready_groups == self.total_groups {
            self.start_emitting();
            collecting_done = Some(now_us);
        }
        let stalled: Option<(u8, u8)> = if newly_stalled {
            Some((chunk.slice_idx, chunk.group_idx))
        } else {
            None
        };
        (recovery, was_nack_recovery, stalled, collecting_done)
    }

    /// Sends the slice on its way out.
    fn start_emitting(&mut self)
        requires
            old(self)@.valid(),
            old(self)@.collected(),
        ensures
            final(self)@ == old(self)@.emitting(),
    {
        let ghost before = self@;
        let mut any_needs_fec: bool = false;
        let mut i: u16 = 0;
        while i < 256
            invariant
                i <= 256,
                self@.total_groups == before.total_groups,
                self@.ready_groups == before.ready_groups,
                self@.state == before.state,
                self@.groups.dom() == before.groups.dom(),
                forall|g: u8|
                    before.groups.contains_key(g) && g < i ==> #[trigger] self@.groups[g]
                        == due_for_decoding(before.groups[g]),
                forall|g: u8|
                    before.groups.contains_key(g) && g >= i ==> #[trigger] self@.groups[g]
                        == before.groups[g],
                any_needs_fec == exists|g: u8|
                    g < i && #[trigger] before.groups.contains_key(g) && needs_decoding(
                        before.groups[g],
                    ),
            decreases 256 - i,
        {
            let key: u8 = i as u8;
            let ghost now = self@.groups;
            if let Some(mut gb) = self.groups.remove(&key) {
                assert(now.contains_key(key));
                assert(gb@ == now[key]);
                if gb.state == GroupState::Ready && !gb.is_direct() {
                    gb.state = GroupState::Decoding;
                    any_needs_fec = true;
                    assert(before.groups.contains_key(key) && needs_decoding(before.groups[key]));
                }
                let ghost new = gb@;
                self.groups.insert(key, gb);
                assert(self@.groups =~= now.insert(key, new));
            } else {
                assert(!now.contains_key(key));
                assert(self@.groups =~= now);
            }
            i = i + 1;
        }
        self.state = if any_needs_fec {
            SliceState::EmittingFec
        } else {
            SliceState::EmittingDirect
        };
        assert(self@.groups =~= before.emitting().groups);
        if !any_needs_fec {
            assert forall|g: u8| #[trigger] before.groups.contains_key(g) implies !needs_decoding(
                before.groups[g],
            ) by {}
        }
    }

    /// Whether all groups can be had.
    pub fn is_ready(&self) -> (r: bool)
        ensures
            r == (self@.ready_groups == self@.total_groups),
    {
        self.ready_groups == self.total_groups
    }

    pub fn state(&self) -> (r: SliceState)
        ensures
            r == self@.state,
    {
        self.state
    }

    /// The slice's bytes; `None` when a group is absent or cannot be had. Where each group
    /// has enough shards the bytes are those that were encoded, with zeros behind them if the
    /// last shard was lost.
    pub fn get_data_sync(&self) -> (r: Option<Vec<u8>>)
        requires
            self@.valid(),
        ensures
            match r {
                Some(v) => self@.payload() == Some(v@),
                None => self@.payload() is None,
            },
            forall|job: SliceJob| #[trigger]
                holds_shards_of(self@, job) ==> r is Some && extends_by_zeros(r->0@, job.data),
    {
        let mut out: Vec<u8> = Vec::new();
        let mut g: u8 = 0;
        assert forall|job: SliceJob| #[trigger] holds_shards_of(self@, job) implies gathered(
            job,
            0,
            out@,
        ) by {}
        while g < self.total_groups
            invariant
                g <= self.total_groups,
                self@.valid(),
                self@.payload_upto(g as nat) == Some(out@),
                forall|job: SliceJob| #[trigger]
                    holds_shards_of(self@, job) ==> gathered(job, g as nat, out@),
            decreases self.total_groups - g,
        {
            let ghost before = out@;
            match self.groups.get(&g) {
                Some(gb) => {
                    assert(self@.groups.contains_key(g) && self@.groups[g] == gb@);
                    match gb.get_data() {
                        Some(part) => {
                            out.extend_from_slice(part.as_slice());
                            proof {
                                assert forall|job: SliceJob| #[trigger]
                                    holds_shards_of(self@, job) implies gathered(
                                    job,
                                    (g + 1) as nat,
                                    out@,
                                ) by {
                                    let group = self@.groups[(g as int) as u8];
                                    assert(rs_parity(job.data_shards(g as int), gb@.m as nat)
                                        == rs_parity(job.data_shards(g as int), job.m(g as int)));
                                    assert(group.k as nat == job.k(g as int));
                                    assert(out@ =~= before + part@);
                                    lemma_gathered(job, g as int, group.lens, before);
                                }
                            }
                        },
                        None => {
                            proof {
                                assert forall|job: SliceJob| #[trigger]
                                    holds_shards_of(self@, job) implies false by {
                                    let group = self@.groups[(g as int) as u8];
                                    assert(rs_parity(job.data_shards(g as int), gb@.m as nat)
                                        == rs_parity(job.data_shards(g as int), job.m(g as int)));
                                }
                                lemma_payload_none(self@, (g + 1) as nat, self.total_groups as nat);
                            }
                            return None;
                        },
                    }
                },
                None => {
                    proof {
                        assert(!self@.groups.contains_key(g));
                        assert forall|job: SliceJob| #[trigger]
                            holds_shards_of(self@, job) implies false by {
                            let group = self@.groups[(g as int) as u8];
                        }
                        lemma_payload_none(self@, (g + 1) as nat, self.total_groups as nat);
                    }
                    return None;
                },
            }
            g = g + 1;
        }
        Some(out)
    }
}

/// What cannot be had of fewer groups cannot be had of more.
proof fn lemma_payload_none(s: SliceModel, n: nat, total: nat)
    requires
        s.payload_upto(n) is None,
        n <= total,
    ensures
        s.payload_upto(total) is None,
    decreases total,
{
    if n < total {
        lemma_payload_none(s, n, (total - 1) as nat);
    }
}

} // verus!
