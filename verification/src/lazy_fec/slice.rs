//! Collection of the groups of one slice.
use crate::buffer::bytes_cloned;
use crate::fec::codec::opt_bytes_views;
use crate::fec::group_builder::GroupState;
use crate::lazy_fec::group::{new_group, GroupBuilder, GroupModel};
use crate::lazy_fec::GroupRecovery;
use crate::packet::{ChunkModel, DatagramChunk};
use bytes::Bytes;
use std::collections::HashMap;
use vstd::prelude::*;

verus! {

broadcast use vstd::std_specs::hash::group_hash_axioms;

/// The groups of a slice as far as they have come.
#[derive(Debug)]
pub struct SliceBuilder {
    pub(crate) groups: HashMap<u8, GroupBuilder>,
    pub(crate) total_groups: u8,
    pub(crate) ready_groups: u8,
}

/// What a [`SliceBuilder`] holds.
#[verifier::ext_equal]
pub struct SliceModel {
    pub groups: Map<u8, GroupModel>,
    pub total_groups: u8,
    /// How many groups have become ready.
    pub ready_groups: u8,
}

impl View for SliceBuilder {
    type V = SliceModel;

    open(crate) spec fn view(&self) -> SliceModel {
        SliceModel {
            groups: self.groups@.map_values(|g: GroupBuilder| g@),
            total_groups: self.total_groups,
            ready_groups: self.ready_groups,
        }
    }
}

/// A slice of which nothing has come.
pub open spec fn new_slice(total_groups: u8) -> SliceModel {
    SliceModel {
        groups: Map::empty(),
        total_groups: if total_groups >= 1 {
            total_groups
        } else {
            1
        },
        ready_groups: 0,
    }
}

/// What is needed to reconstruct a group.
#[verifier::ext_equal]
pub struct Snapshot {
    pub k: u8,
    pub m: u8,
    pub shards: Seq<Option<Seq<u8>>>,
    pub lens: Seq<u16>,
}

impl SliceModel {
    /// Each group is valid.
    pub open spec fn valid(self) -> bool {
        forall|g: u8| #[trigger] self.groups.contains_key(g) ==> self.groups[g].valid()
    }

    /// All groups have become ready.
    pub open spec fn ready(self) -> bool {
        self.ready_groups == self.total_groups
    }

    /// The group of a shard, new if there was none.
    pub open spec fn group_for(self, c: ChunkModel) -> GroupModel {
        if self.groups.contains_key(c.group_idx) {
            self.groups[c.group_idx]
        } else {
            new_group(c.k, c.m)
        }
    }

    /// The group after the shard has come.
    pub open spec fn group_with(self, c: ChunkModel, now_us: u64) -> GroupModel {
        self.group_for(c).inserted(c.shard_idx, c.data, c.payload_len, now_us)
    }

    /// The shard makes its group ready.
    pub open spec fn completes(self, c: ChunkModel, now_us: u64) -> bool {
        !self.group_for(c).ready() && self.group_with(c, now_us).ready()
    }

    /// After a shard has come.
    pub open spec fn inserted(self, c: ChunkModel, now_us: u64) -> SliceModel {
        SliceModel {
            groups: self.groups.insert(c.group_idx, self.group_with(c, now_us)),
            total_groups: if c.total_groups > 0 {
                c.total_groups
            } else {
                self.total_groups
            },
            ready_groups: if self.completes(c, now_us) && self.ready_groups < 255 {
                (self.ready_groups + 1) as u8
            } else {
                self.ready_groups
            },
        }
    }

    /// How the group of the shard became complete by it.
    pub open spec fn recovery(self, c: ChunkModel, now_us: u64) -> Option<GroupRecovery> {
        let g = self.group_with(c, now_us);
        if self.completes(c, now_us) {
            if g.data_received() == g.k {
                Some(GroupRecovery::Direct)
            } else {
                Some(
                    GroupRecovery::Fec { missing_data_shards: (g.k - g.data_received()) as u8 },
                )
            }
        } else {
            None
        }
    }

    /// The payload of the groups from `g` on behind `out`, if each can be had.
    pub open spec fn joined_from(self, g: nat, out: Seq<u8>) -> Option<Seq<u8>>
        decreases self.total_groups - g,
    {
        if g >= self.total_groups {
            Some(out)
        } else if !self.groups.contains_key(g as u8) {
            None
        } else {
            match self.groups[g as u8].payload() {
                Some(part) => self.joined_from(g + 1, out + part),
                None => None,
            }
        }
    }

    /// Group `g` is there and not marked as ready.
    pub open spec fn unfinished(self, g: u8) -> bool {
        self.groups.contains_key(g) && !(self.groups[g].state is Ready)
    }

    /// The first group that is there and not marked as ready, from `g` on.
    pub open spec fn first_unfinished(self, g: nat) -> Option<Snapshot>
        decreases self.total_groups - g,
    {
        if g >= self.total_groups {
            None
        } else if self.unfinished(g as u8) {
            let x = self.groups[g as u8];
            Some(Snapshot { k: x.k, m: x.m, shards: x.shards, lens: x.lens })
        } else {
            self.first_unfinished(g + 1)
        }
    }
}

/// Copies of the buffers, where there are any.
fn cloned_shards(shards: &Vec<Option<Bytes>>) -> (r: Vec<Option<Bytes>>)
    ensures
        opt_bytes_views(r@) == opt_bytes_views(shards@),
{
    let mut out: Vec<Option<Bytes>> = Vec::new();
    let mut i: usize = 0;
    while i < shards.len()
        invariant
            i <= shards@.len(),
            out@.len() == i,
            forall|j: int|
                0 <= j < i ==> (#[trigger] opt_bytes_views(out@)[j]) == opt_bytes_views(shards@)[j],
        decreases shards@.len() - i,
    {
        let ghost before = out@;
        let shard: Option<Bytes> = match &shards[i] {
            Some(b) => Some(bytes_cloned(b)),
            None => None,
        };
        out.push(shard);
        assert(forall|j: int|
            0 <= j < i ==> (#[trigger] opt_bytes_views(out@)[j]) == opt_bytes_views(before)[j]);
        i = i + 1;
    }
    assert(opt_bytes_views(out@) =~= opt_bytes_views(shards@));
    out
}

fn copied_lens(lens: &Vec<u16>) -> (r: Vec<u16>)
    ensures
        r@ == lens@,
{
    let mut out: Vec<u16> = Vec::new();
    out.extend_from_slice(lens.as_slice());
    assert(out@ =~= lens@);
    out
}

pub open spec fn snapshot_view(s: Option<(u8, u8, Vec<Option<Bytes>>, Vec<u16>)>) -> Option<Snapshot> {
    match s {
        Some(t) => Some(
            Snapshot { k: t.0, m: t.1, shards: opt_bytes_views(t.2@), lens: t.3@ },
        ),
        None => None,
    }
}

impl SliceBuilder {
    /// Nothing has come.
    pub fn new(total_groups: u8) -> (r: SliceBuilder)
        ensures
            r@ == new_slice(total_groups),
            r@.valid(),
    {
        let r = SliceBuilder {
            groups: HashMap::new(),
            total_groups: if total_groups >= 1 {
                total_groups
            } else {
                1
            },
            ready_groups: 0,
        };
        assert(r@.groups =~= Map::<u8, GroupModel>::empty());
        r
    }

    /// Takes a shard in. Returns how its group became complete, if it did by this shard,
    /// whether shards of the group had been asked for, and whether it is newly stalled.
    pub fn insert(&mut self, chunk: &DatagramChunk, now_us: u64) -> (r: (
        Option<GroupRecovery>,
        bool,
        bool,
    ))
        requires
            old(self)@.valid(),
            old(self)@.groups.contains_key(chunk.group_idx) || chunk.k + chunk.m <= 255,
        ensures
            final(self)@ == old(self)@.inserted(chunk@, now_us),
            final(self)@.valid(),
            r.0 == old(self)@.recovery(chunk@, now_us),
            ({
                let g = old(self)@.group_for(chunk@);
                &&& r.1 == (chunk.shard_idx < g.shards.len() && g.state is Requested)
                &&& r.2 == (chunk.shard_idx < g.shards.len() && g.state is Collecting
                    && old(self)@.group_with(chunk@, now_us).state is Stalled)
            }),
    {
        let ghost before = self@;
        if chunk.total_groups > 0 {
            self.total_groups = chunk.total_groups;
        }
        let mut group: GroupBuilder = match self.groups.remove(&chunk.group_idx) {
            Some(g) => g,
            None => GroupBuilder::new(chunk.k, chunk.m),
        };
        assert(group@ == before.group_for(chunk@));
        let was_ready: bool = group.is_ready();
        let (awaited, stalled): (bool, bool) = group.insert(
            chunk.shard_idx,
            bytes_cloned(&chunk.data),
            chunk.payload_len,
            now_us,
        );
        assert(group@ == before.group_with(chunk@, now_us));
        let recovery: Option<GroupRecovery> = if !was_ready && group.is_ready() {
            self.ready_groups = self.ready_groups.saturating_add(1);
            let data_present: u8 = group.data_received_count();
            proof {
                group@.lemma_counts();
            }
            let missing: u8 = group.k.saturating_sub(data_present);
            if missing == 0 {
                Some(GroupRecovery::Direct)
            } else {
                Some(GroupRecovery::Fec { missing_data_shards: missing })
            }
        } else {
            None
        };
        self.groups.insert(chunk.group_idx, group);
        assert(self@.groups =~= before.inserted(chunk@, now_us).groups);
        (recovery, awaited, stalled)
    }

    /// Whether all groups have become ready.
    pub fn is_ready(&self) -> (r: bool)
        ensures
            r == self@.ready(),
    {
        self.ready_groups == self.total_groups
    }

    /// A mask of the shards of a group that have come.
    pub fn group_received_mask(&self, group_idx: u8) -> (r: u64)
        ensures
            r == (if self@.groups.contains_key(group_idx) {
                self@.groups[group_idx].received_mask
            } else {
                0
            }),
    {
        match self.groups.get(&group_idx) {
            Some(g) => g.received_mask(),
            None => 0,
        }
    }

    /// The payload of all groups, one behind the other, if each can be had.
    pub fn get_data_sync(&self) -> (r: Option<Vec<u8>>)
        requires
            self@.valid(),
        ensures
            match r {
                Some(v) => self@.joined_from(0, Seq::empty()) == Some(v@),
                None => self@.joined_from(0, Seq::empty()) is None,
            },
    {
        let mut out: Vec<u8> = Vec::new();
        let mut g: u8 = 0;
        assert(out@ =~= Seq::<u8>::empty());
        while g < self.total_groups
            invariant
                self@.valid(),
                g <= self.total_groups,
                self@.joined_from(0, Seq::empty()) == self@.joined_from(g as nat, out@),
            decreases self.total_groups - g,
        {
            let ghost before = out@;
            match self.groups.get(&g) {
                Some(gb) => {
                    assert(self@.groups.contains_key(g) && self@.groups[g] == gb@);
                    match gb.get_data() {
                        Some(part) => {
                            out.extend_from_slice(part.as_slice());
                            assert(out@ =~= before + part@);
                        },
                        None => {
                            return None;
                        },
                    }
                },
                None => {
                    assert(!self@.groups.contains_key(g));
                    return None;
                },
            }
            g = g + 1;
        }
        Some(out)
    }

    /// What is needed to reconstruct the first group that is there and not marked as ready.
    pub fn snapshot_for_fec(&self) -> (r: Option<(u8, u8, Vec<Option<Bytes>>, Vec<u16>)>)
        ensures
            snapshot_view(r) == self@.first_unfinished(0),
    {
        let mut g: u8 = 0;
        while g < self.total_groups
            invariant
                g <= self.total_groups,
                self@.first_unfinished(0) == self@.first_unfinished(g as nat),
            decreases self.total_groups - g,
        {
            match self.groups.get(&g) {
                Some(gb) => {
                    assert(self@.groups.contains_key(g) && self@.groups[g] == gb@);
                    if !matches!(gb.state, GroupState::Ready) {
                        let r = Some(
                            (gb.k, gb.m, cloned_shards(&gb.shards), copied_lens(&gb.payload_lens)),
                        );
                        return r;
                    }
                },
                None => {
                    assert(!self@.groups.contains_key(g));
                },
            }
            g = g + 1;
        }
        None
    }
}

} // verus!
