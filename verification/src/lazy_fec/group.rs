//! Collection of the shards of one group.
use crate::buffer::bytes_view;
use crate::fec::codec::{opt_bytes_views, present};
use crate::fec::decode::{data_present, fec_decoded, no_code, FecDecoder};
use crate::fec::UNKNOWN_LEN;
use crate::fec::group_builder::{
    lemma_present, lemma_present_none, lemma_present_update, mask_bit, GroupState,
};
use crate::slice_fec::slice::marks;
use bytes::Bytes;
use vstd::prelude::*;

verus! {

/// The shards of a group as far as they have come.
#[derive(Debug)]
pub struct GroupBuilder {
    pub(crate) shards: Vec<Option<Bytes>>,
    pub(crate) payload_lens: Vec<u16>,
    pub(crate) received: u8,
    pub(crate) received_mask: u64,
    pub(crate) k: u8,
    pub(crate) m: u8,
    pub(crate) state: GroupState,
    pub(crate) first_us: u64,
}

/// What a [`GroupBuilder`] holds.
#[verifier::ext_equal]
pub struct GroupModel {
    pub shards: Seq<Option<Seq<u8>>>,
    pub lens: Seq<u16>,
    pub received: u8,
    pub received_mask: u64,
    pub k: u8,
    pub m: u8,
    pub state: GroupState,
    pub first_us: u64,
}

impl View for GroupBuilder {
    type V = GroupModel;

    open(crate) spec fn view(&self) -> GroupModel {
        GroupModel {
            shards: opt_bytes_views(self.shards@),
            lens: self.payload_lens@,
            received: self.received,
            received_mask: self.received_mask,
            k: self.k,
            m: self.m,
            state: self.state,
            first_us: self.first_us,
        }
    }
}

/// A group of which nothing has come.
pub open spec fn new_group(k: u8, m: u8) -> GroupModel {
    GroupModel {
        shards: Seq::new((k + m) as nat, |i: int| None),
        lens: Seq::new(k as nat, |i: int| UNKNOWN_LEN),
        received: 0,
        received_mask: 0,
        k,
        m,
        state: GroupState::Collecting,
        first_us: 0,
    }
}

impl GroupModel {
    /// The count and the mask are those of the shards.
    pub open spec fn valid(self) -> bool {
        &&& self.k + self.m <= 255
        &&& self.shards.len() == self.k + self.m
        &&& self.lens.len() == self.k
        &&& self.received == present(self.shards)
        &&& marks(self.received_mask, self.shards)
    }

    /// Enough shards have come.
    pub open spec fn ready(self) -> bool {
        self.received >= self.k
    }

    /// How many data shards have come.
    pub open spec fn data_received(self) -> nat {
        present(self.shards.take(self.k as int))
    }

    /// The group with a shard in its place.
    pub open spec fn stored(self, idx: u8, data: Seq<u8>, payload_len: u16, now_us: u64) -> GroupModel {
        let fresh = self.shards[idx as int] is None;
        GroupModel {
            shards: self.shards.update(idx as int, Some(data)),
            lens: if idx < self.k {
                self.lens.update(idx as int, payload_len)
            } else {
                self.lens
            },
            received: if fresh {
                (self.received + 1) as u8
            } else {
                self.received
            },
            received_mask: if fresh && idx < 64 {
                self.received_mask | (1u64 << (idx as u64))
            } else {
                self.received_mask
            },
            first_us: if fresh && self.first_us == 0 {
                now_us
            } else {
                self.first_us
            },
            ..self
        }
    }

    /// The state once a shard has come: as long as parity cannot replace what is missing the
    /// group is stalled.
    pub open spec fn settled(self, now_us: u64) -> GroupState {
        match self.state {
            GroupState::Ready => self.state,
            GroupState::Abandoned => self.state,
            GroupState::Decoding => self.state,
            GroupState::Collecting => if self.received < self.k {
                GroupState::Stalled { since_us: now_us }
            } else {
                self.state
            },
            GroupState::Stalled { .. } => if self.received < self.k {
                self.state
            } else {
                GroupState::Collecting
            },
            GroupState::Requested { .. } => if self.received < self.k {
                self.state
            } else {
                GroupState::Collecting
            },
            GroupState::DecodingInProgress => self.state,
        }
    }

    /// After a shard has come. One that is none of this group is passed over.
    pub open spec fn inserted(self, idx: u8, data: Seq<u8>, payload_len: u16, now_us: u64) -> GroupModel {
        if idx < self.shards.len() {
            let g = self.stored(idx, data, payload_len, now_us);
            GroupModel { state: g.settled(now_us), ..g }
        } else {
            self
        }
    }

    /// The state is brought up to date: a group with enough shards is ready, another one that
    /// was collecting is stalled.
    pub open spec fn refreshed(self, now_us: u64) -> GroupModel {
        GroupModel {
            state: if self.state is Ready || self.state is Abandoned {
                self.state
            } else if self.ready() {
                GroupState::Ready
            } else if self.state is Collecting {
                GroupState::Stalled { since_us: now_us }
            } else {
                self.state
            },
            ..self
        }
    }

    /// The payload of the group, if it can be had.
    pub open spec fn payload(self) -> Option<Seq<u8>> {
        fec_decoded(self.k, self.m, self.shards, self.lens)
    }

    /// A shard keeps the group valid.
    pub proof fn lemma_inserted(self, idx: u8, data: Seq<u8>, payload_len: u16, now_us: u64)
        requires
            self.valid(),
        ensures
            self.inserted(idx, data, payload_len, now_us).valid(),
            self.inserted(idx, data, payload_len, now_us).k == self.k,
            self.inserted(idx, data, payload_len, now_us).m == self.m,
            self.ready() ==> self.inserted(idx, data, payload_len, now_us).ready(),
    {
        if idx < self.shards.len() {
            let t = self.inserted(idx, data, payload_len, now_us);
            lemma_present_update(self.shards, idx as int, data);
            lemma_present(self.shards);
            lemma_present(t.shards);
            assert forall|i: int| 0 <= i < 64 implies #[trigger] mask_bit(t.received_mask, i) == (i
                < t.shards.len() && t.shards[i] is Some) by {
                assert(mask_bit(self.received_mask, i) == (i < self.shards.len()
                    && self.shards[i] is Some));
                if self.shards[idx as int] is None && idx < 64 {
                    lemma_bit_added(self.received_mask, idx as u64, i as u64);
                }
            }
        }
    }

    /// There is a code for the group, or none is needed.
    pub proof fn lemma_code(self)
        requires
            self.valid(),
        ensures
            !no_code(self.k, self.m, self.shards, self.lens),
    {
        lemma_present(self.shards);
        if self.m == 0 && present(self.shards) >= self.k {
            assert(data_present(self.k as nat, self.shards));
        }
    }

    /// Enough shards have come where all data shards have.
    pub proof fn lemma_counts(self)
        requires
            self.valid(),
        ensures
            self.data_received() <= self.k,
            self.data_received() <= self.received,
    {
        let front = self.shards.take(self.k as int);
        lemma_present(front);
        lemma_present_prefix(self.shards, self.k as nat);
    }
}

/// No more of the first shards are there than of all.
proof fn lemma_present_prefix(s: Seq<Option<Seq<u8>>>, n: nat)
    requires
        n <= s.len(),
    ensures
        present(s.take(n as int)) <= present(s),
    decreases s.len(),
{
    if n < s.len() {
        lemma_present_prefix(s.drop_last(), n);
        assert(s.drop_last().take(n as int) =~= s.take(n as int));
    } else {
        assert(s.take(n as int) =~= s);
    }
}

proof fn lemma_bit_added(mask: u64, n: u64, i: u64)
    requires
        n < 64,
        i < 64,
    ensures
        mask_bit(mask | (1u64 << n), i as int) == (mask_bit(mask, i as int) || i == n),
{
    assert((((mask | (1u64 << n)) >> i) & 1 == 1) == ((mask >> i) & 1 == 1 || i == n))
        by (bit_vector)
        requires
            n < 64,
            i < 64,
    ;
}

impl GroupBuilder {
    /// Nothing has come.
    pub fn new(k: u8, m: u8) -> (r: GroupBuilder)
        requires
            k + m <= 255,
        ensures
            r@ == new_group(k, m),
            r@.valid(),
    {
        let total: usize = k as usize + m as usize;
        let mut shards: Vec<Option<Bytes>> = Vec::new();
        while shards.len() < total
            invariant
                shards@.len() <= total,
                forall|i: int| 0 <= i < shards@.len() ==> (#[trigger] shards@[i]) is None,
            decreases total - shards@.len(),
        {
            shards.push(None);
        }
        let mut payload_lens: Vec<u16> = Vec::new();
        while payload_lens.len() < k as usize
            invariant
                payload_lens@.len() <= k,
                forall|i: int| 0 <= i < payload_lens@.len() ==> (#[trigger] payload_lens@[i]) == UNKNOWN_LEN,
            decreases k - payload_lens@.len(),
        {
            payload_lens.push(UNKNOWN_LEN);
        }
        let r = GroupBuilder {
            shards,
            payload_lens,
            received: 0,
            received_mask: 0,
            k,
            m,
            state: GroupState::Collecting,
            first_us: 0,
        };
        proof {
            assert(r@.shards =~= new_group(k, m).shards);
            assert(r@.lens =~= new_group(k, m).lens);
            lemma_present_none(r@.shards);
            assert forall|j: int| 0 <= j < 64 implies !#[trigger] mask_bit(0, j) by {
                let b = j as u64;
                assert((0u64 >> b) & 1 == 0) by (bit_vector);
            }
        }
        r
    }

    /// Takes a shard in. Returns whether shards had been asked for, and whether the group
    /// is newly stalled.
    pub fn insert(&mut self, idx: u8, data: Bytes, payload_len: u16, now_us: u64) -> (r: (bool, bool))
        requires
            old(self)@.valid(),
        ensures
            final(self)@ == old(self)@.inserted(idx, bytes_view(data), payload_len, now_us),
            final(self)@.valid(),
            r.0 == (idx < old(self)@.shards.len() && old(self)@.state is Requested),
            r.1 == (idx < old(self)@.shards.len() && old(self)@.state is Collecting
                && final(self)@.state is Stalled),
    {
        let ghost before = self@;
        let ghost d = bytes_view(data);
        proof {
            before.lemma_inserted(idx, d, payload_len, now_us);
            lemma_present(before.shards);
        }
        let i: usize = idx as usize;
        if i >= self.shards.len() {
            return (false, false);
        }
        if self.shards[i].is_none() {
            assert(before.shards[idx as int] is None);
            self.received = self.received.saturating_add(1);
            if i < 64 {
                self.received_mask = self.received_mask | (1u64 << (idx as u64));
            }
            if self.first_us == 0 {
                self.first_us = now_us;
            }
        } else {
            assert(before.shards[idx as int] is Some);
        }
        self.shards.set(i, Some(data));
        if i < self.k as usize {
            self.payload_lens.set(i, payload_len);
        }
        assert(self@.shards =~= before.shards.update(idx as int, Some(d)));
        assert(self@ =~= before.stored(idx, d, payload_len, now_us));
        let was_awaited: bool = matches!(self.state, GroupState::Requested { .. });
        let mut newly_stalled: bool = false;
        let total: u64 = self.k as u64 + self.m as u64;
        let missing: u64 = total.saturating_sub(self.received as u64);
        let short: bool = missing > self.m as u64;
        match self.state {
            GroupState::Collecting => {
                if short {
                    self.state = GroupState::Stalled { since_us: now_us };
                    newly_stalled = true;
                }
            },
            GroupState::Stalled { .. } | GroupState::Requested { .. } => {
                if !short {
                    self.state = GroupState::Collecting;
                }
            },
            _ => {},
        }
        (was_awaited, newly_stalled)
    }

    /// Brings the state up to date.
    pub fn refresh_state(&mut self, now_us: u64)
        requires
            old(self)@.valid(),
        ensures
            final(self)@ == old(self)@.refreshed(now_us),
            final(self)@.valid(),
    {
        let ghost before = self@;
        match self.state {
            GroupState::Ready | GroupState::Abandoned => {
                return ;
            },
            _ => {},
        }
        if self.received >= self.k {
            self.state = GroupState::Ready;
            return ;
        }
        match self.state {
            GroupState::Collecting => {
                self.state = GroupState::Stalled { since_us: now_us };
            },
            _ => {},
        }
    }

    /// Whether enough shards have come.
    pub fn is_ready(&self) -> (r: bool)
        ensures
            r == self@.ready(),
    {
        self.received >= self.k
    }

    /// A mask of the shards that have come.
    pub fn received_mask(&self) -> (r: u64)
        ensures
            r == self@.received_mask,
    {
        self.received_mask
    }

    /// The payload of the group, if it can be had.
    pub fn get_data(&self) -> (r: Option<Vec<u8>>)
        requires
            self@.valid(),
        ensures
            match r {
                Some(v) => self@.payload() == Some(v@),
                None => self@.payload() is None,
            },
    {
        proof {
            self@.lemma_code();
        }
        FecDecoder::decode(self.k, self.m, self.shards.as_slice(), self.payload_lens.as_slice())
    }

    /// How many data shards have come.
    pub fn data_received_count(&self) -> (r: u8)
        requires
            self@.valid(),
        ensures
            r == self@.data_received(),
    {
        let mut c: u8 = 0;
        let mut i: usize = 0;
        let ghost s = self@.shards;
        while i < self.k as usize
            invariant
                self@.valid(),
                s == self@.shards,
                i <= self.k,
                c <= i,
                c == present(s.take(i as int)),
            decreases self.k - i,
        {
            assert(s.take(i + 1).drop_last() =~= s.take(i as int));
            assert(s.take(i + 1).last() == s[i as int]);
            if self.shards[i].is_some() {
                c = c + 1;
            }
            i = i + 1;
        }
        c
    }
}

} // verus!
