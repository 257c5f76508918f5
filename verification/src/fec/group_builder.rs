//! Collection of the shards of one group.
use crate::buffer::{bytes_cloned, bytes_view};
use crate::fec::codec::{all_present, opt_bytes_views, present, rs_parity};
use crate::fec::decode::{fec_decoded, joined, no_code, shards_of, FecDecoder};
use crate::fec::{MIN_NACK_AGE_US, NACK_SUPPRESS_US, UNKNOWN_LEN};
use bytes::Bytes;
use vstd::prelude::*;

verus! {

/// How many later chunks must have arrived before missing shards are taken for lost:
/// shards of several groups are interleaved.
pub const INTERLEAVE_THRESHOLD: u64 = 40;

/// Where a group is on its way to completion.
#[derive(Debug, Clone, Copy, PartialEq, Eq, Structural)]
pub enum GroupState {
    /// Waiting for shards.
    Collecting,
    /// More shards are missing than parity can replace.
    Stalled { since_us: u64 },
    /// The missing shards were asked for.
    Requested { sent_at_us: u64 },
    /// A reconstruction is due.
    Decoding,
    /// Enough shards are there.
    Ready,
    /// The frame was given up.
    Abandoned,
    /// A reconstruction is running.
    DecodingInProgress,
}

/// The time from `from` to `to`, zero when `to` is earlier.
pub open spec fn since(to: u64, from: u64) -> int {
    if to < from {
        0
    } else {
        to - from
    }
}

impl GroupState {
    /// The missing shards are to be asked for now.
    pub open spec fn wants_nack(self, now_us: u64) -> bool {
        match self {
            GroupState::Stalled { since_us } => since(now_us, since_us) >= MIN_NACK_AGE_US,
            GroupState::Requested { sent_at_us } => since(now_us, sent_at_us) >= NACK_SUPPRESS_US,
            _ => false,
        }
    }

    pub fn needs_nack(&self, now_us: u64) -> (r: bool)
        ensures
            r == self.wants_nack(now_us),
    {
        match self {
            GroupState::Stalled { since_us } => now_us.saturating_sub(*since_us) >= MIN_NACK_AGE_US,
            GroupState::Requested { sent_at_us } => now_us.saturating_sub(*sent_at_us)
                >= NACK_SUPPRESS_US,
            _ => false,
        }
    }

    /// Shards that arrive no longer change the state.
    pub open spec fn terminal(self) -> bool {
        self is Ready || self is Abandoned || self is Decoding
    }

    pub fn is_terminal(&self) -> (r: bool)
        ensures
            r == self.terminal(),
    {
        match self {
            GroupState::Ready | GroupState::Abandoned | GroupState::Decoding => true,
            _ => false,
        }
    }

    /// Shards are still counted towards completion.
    pub open spec fn open(self) -> bool {
        self is Collecting || self is Stalled || self is Requested
    }
}

/// The shards of a group as far as they have arrived.
#[derive(Debug)]
pub struct GroupBuilder {
    pub(crate) data_shards: Vec<Option<Bytes>>,
    pub(crate) parity_shards: Vec<Option<Bytes>>,
    pub(crate) payload_lens: Vec<u16>,
    pub(crate) received: u8,
    pub(crate) data_received: u8,
    pub(crate) received_mask: u64,
    pub(crate) k: u8,
    pub(crate) m: u8,
    pub(crate) state: GroupState,
    pub(crate) first_us: u64,
    pub(crate) first_global_seq: u64,
}

/// What a [`GroupBuilder`] holds.
#[verifier::ext_equal]
pub struct GroupModel {
    /// The data shards.
    pub data: Seq<Option<Seq<u8>>>,
    /// The parity shards.
    pub parity: Seq<Option<Seq<u8>>>,
    /// Length of each data shard without its padding, [`UNKNOWN_LEN`] for one that has not
    /// arrived.
    pub lens: Seq<u16>,
    /// Shards counted.
    pub received: u8,
    /// Data shards counted.
    pub data_received: u8,
    /// Bit `i` is set when shard `i` was counted, for the first 64 shards.
    pub received_mask: u64,
    pub k: u8,
    pub m: u8,
    pub state: GroupState,
    /// When the first shard was counted.
    pub first_us: u64,
    /// Number of the chunk that brought the first shard.
    pub first_global_seq: u64,
}

/// Bit `i` of a mask.
pub open spec fn mask_bit(mask: u64, i: int) -> bool {
    (mask >> (i as u64)) & 1 == 1
}

/// A group of which nothing has arrived.
pub open spec fn new_group(k: u8, m: u8) -> GroupModel {
    GroupModel {
        data: Seq::new(k as nat, |i: int| None),
        parity: Seq::new(m as nat, |i: int| None),
        lens: Seq::new(k as nat, |i: int| UNKNOWN_LEN),
        received: 0,
        data_received: 0,
        received_mask: 0,
        k,
        m,
        state: GroupState::Collecting,
        first_us: 0,
        first_global_seq: 0,
    }
}

impl GroupModel {
    /// All shards, data first.
    pub open spec fn shards(self) -> Seq<Option<Seq<u8>>> {
        self.data + self.parity
    }

    /// The counters are those of the shards: exactly so while shards are still counted,
    /// and never above.
    pub open spec fn valid(self) -> bool {
        &&& self.k + self.m <= 255
        &&& self.data.len() == self.k
        &&& self.parity.len() == self.m
        &&& self.lens.len() == self.k
        &&& self.received <= present(self.shards())
        &&& self.data_received <= present(self.data)
        &&& self.data_received <= self.received
        &&& self.state.open() ==> self.received == present(self.shards())
        &&& self.state.open() ==> self.data_received == present(self.data)
        &&& self.state is Stalled || self.state is Requested ==> self.received < self.k
        &&& forall|i: int|
            0 <= i < self.k && (#[trigger] self.data[i]) is None ==> self.lens[i] == UNKNOWN_LEN
        &&& forall|i: int|
            0 <= i < 64 && #[trigger] mask_bit(self.received_mask, i) ==> i < self.k + self.m
                && self.shards()[i] is Some
        &&& self.state.open() ==> forall|i: int|
            0 <= i < 64 && i < self.k + self.m && self.shards()[i] is Some
                ==> #[trigger] mask_bit(self.received_mask, i)
    }

    /// Enough shards are there to have the group's payload. Parity alone does not do.
    pub open spec fn ready(self) -> bool {
        self.direct() || (self.received >= self.k && self.data_received > 0)
    }

    /// All data shards are there.
    pub open spec fn direct(self) -> bool {
        self.data_received == self.k
    }

    /// The shard at `idx` is there.
    pub open spec fn holds(self, idx: u8) -> bool {
        self.shards()[idx as int] is Some
    }

    /// The group with a shard put in its place.
    pub open spec fn stored(self, idx: u8, data: Seq<u8>, payload_len: u16) -> GroupModel {
        if idx < self.k {
            GroupModel {
                data: self.data.update(idx as int, Some(data)),
                lens: self.lens.update(idx as int, payload_len),
                ..self
            }
        } else if idx < self.k + self.m {
            GroupModel { parity: self.parity.update(idx - self.k, Some(data)), ..self }
        } else {
            self
        }
    }

    /// The group with a shard counted that was not there yet.
    pub open spec fn counted(self, idx: u8, now_us: u64) -> GroupModel {
        if self.holds(idx) {
            self
        } else {
            GroupModel {
                received: (self.received + 1) as u8,
                data_received: if idx < self.k {
                    (self.data_received + 1) as u8
                } else {
                    self.data_received
                },
                received_mask: if idx < 64 {
                    self.received_mask | (1u64 << (idx as u64))
                } else {
                    self.received_mask
                },
                first_us: if self.first_us == 0 {
                    now_us
                } else {
                    self.first_us
                },
                ..self
            }
        }
    }

    /// The group from the first chunk on that is meant for it.
    pub open spec fn begun(self, seq: u64) -> GroupModel {
        GroupModel {
            first_global_seq: if self.first_global_seq == 0 {
                seq
            } else {
                self.first_global_seq
            },
            ..self
        }
    }

    /// The state once a shard has been counted: a group that parity can complete needs no
    /// more requests, and one that it cannot complete stalls when the chunks that were
    /// interleaved with it have passed.
    pub open spec fn settled(self, now_us: u64, seq: u64) -> GroupState {
        if self.received >= self.k {
            match self.state {
                GroupState::Stalled { since_us } => GroupState::Collecting,
                GroupState::Requested { sent_at_us } => GroupState::Collecting,
                s => s,
            }
        } else if self.state is Collecting && since(seq, self.first_global_seq)
            > INTERLEAVE_THRESHOLD {
            GroupState::Stalled { since_us: now_us }
        } else {
            self.state
        }
    }

    /// The group after a shard arrived as chunk number `seq`. A group that was given up takes
    /// none.
    pub open spec fn inserted(self, idx: u8, data: Seq<u8>, payload_len: u16, now_us: u64, seq: u64) -> GroupModel {
        if self.state is Abandoned {
            self
        } else if self.state.terminal() {
            self.stored(idx, data, payload_len)
        } else if idx >= self.k + self.m {
            self.begun(seq)
        } else {
            let g = self.begun(seq).counted(idx, now_us).stored(idx, data, payload_len);
            GroupModel { state: g.settled(now_us, seq), ..g }
        }
    }

    /// The shard comes in answer to a request.
    pub open spec fn awaits(self, idx: u8) -> bool {
        self.state is Requested && idx < self.k + self.m
    }

    /// The group's payload, as far as it can be had.
    pub open spec fn payload(self) -> Option<Seq<u8>> {
        fec_decoded(self.k, self.m, self.shards(), self.lens)
    }
}

impl View for GroupBuilder {
    type V = GroupModel;

    open(crate) spec fn view(&self) -> GroupModel {
        GroupModel {
            data: opt_bytes_views(self.data_shards@),
            parity: opt_bytes_views(self.parity_shards@),
            lens: self.payload_lens@,
            received: self.received,
            data_received: self.data_received,
            received_mask: self.received_mask,
            k: self.k,
            m: self.m,
            state: self.state,
            first_us: self.first_us,
            first_global_seq: self.first_global_seq,
        }
    }
}

/// No more shards are present than there are, and all of them only when none is missing.
pub proof fn lemma_present(s: Seq<Option<Seq<u8>>>)
    ensures
        present(s) <= s.len(),
        present(s) == s.len() <==> (forall|i: int| 0 <= i < s.len() ==> (#[trigger] s[i]) is Some),
    decreases s.len(),
{
    if s.len() > 0 {
        let front = s.drop_last();
        lemma_present(front);
        if forall|i: int| 0 <= i < front.len() ==> (#[trigger] front[i]) is Some {
            if s.last() is Some {
                assert forall|i: int| 0 <= i < s.len() implies (#[trigger] s[i]) is Some by {
                    if i < front.len() {
                        assert(front[i] is Some);
                    }
                }
            }
        } else {
            let i = choose|i: int| 0 <= i < front.len() && !((#[trigger] front[i]) is Some);
            assert(!(s[i] is Some));
        }
    }
}

/// None of a sequence of missing shards is present.
pub proof fn lemma_present_none(s: Seq<Option<Seq<u8>>>)
    requires
        forall|i: int| 0 <= i < s.len() ==> (#[trigger] s[i]) is None,
    ensures
        present(s) == 0,
    decreases s.len(),
{
    if s.len() > 0 {
        assert(s.last() is None);
        assert forall|i: int| 0 <= i < s.drop_last().len() implies (
        #[trigger] s.drop_last()[i]) is None by {
            assert(s[i] is None);
        }
        lemma_present_none(s.drop_last());
    }
}

/// A shard that is put in its place counts when it was missing.
pub proof fn lemma_present_update(s: Seq<Option<Seq<u8>>>, i: int, v: Seq<u8>)
    requires
        0 <= i < s.len(),
    ensures
        present(s.update(i, Some(v))) == present(s) + if s[i] is Some {
            0int
        } else {
            1int
        },
    decreases s.len(),
{
    let t = s.update(i, Some(v));
    if i == s.len() - 1 {
        assert(t.drop_last() =~= s.drop_last());
    } else {
        lemma_present_update(s.drop_last(), i, v);
        assert(t.drop_last() =~= s.drop_last().update(i, Some(v)));
    }
}

/// The present shards of two sequences add up.
pub proof fn lemma_present_add(a: Seq<Option<Seq<u8>>>, b: Seq<Option<Seq<u8>>>)
    ensures
        present(a + b) == present(a) + present(b),
    decreases b.len(),
{
    if b.len() == 0 {
        assert(a + b =~= a);
    } else {
        assert((a + b).drop_last() =~= a + b.drop_last());
        lemma_present_add(a, b.drop_last());
    }
}

proof fn lemma_mask_set(mask: u64, idx: u64, i: u64)
    requires
        idx < 64,
        i < 64,
    ensures
        mask_bit(mask | (1u64 << idx), i as int) == (mask_bit(mask, i as int) || i == idx),
{
    assert((((mask | (1u64 << idx)) >> i) & 1 == 1) == ((mask >> i) & 1 == 1 || i == idx))
        by (bit_vector)
        requires
            idx < 64,
            i < 64,
    ;
}

impl GroupModel {
    /// Putting a shard in its place keeps the group valid, once it is counted.
    proof fn lemma_stored(self, idx: u8, data: Seq<u8>, payload_len: u16)
        requires
            self.valid(),
        ensures
            present(self.stored(idx, data, payload_len).shards()) == present(self.shards()) + if idx
                < self.k + self.m && !self.holds(idx) {
                1int
            } else {
                0int
            },
            present(self.stored(idx, data, payload_len).data) == present(self.data) + if idx < self.k
                && !self.holds(idx) {
                1int
            } else {
                0int
            },
            self.state.terminal() ==> self.stored(idx, data, payload_len).valid(),
    {
        let t = self.stored(idx, data, payload_len);
        if idx < self.k {
            lemma_present_update(self.data, idx as int, data);
            assert(t.shards() =~= self.shards().update(idx as int, Some(data)));
            lemma_present_update(self.shards(), idx as int, data);
        } else if idx < self.k + self.m {
            assert(t.shards() =~= self.shards().update(idx as int, Some(data)));
            lemma_present_update(self.shards(), idx as int, data);
        }
    }

    /// The arrival of a shard keeps a group valid.
    pub proof fn law_inserted_valid(self, idx: u8, data: Seq<u8>, payload_len: u16, now_us: u64, seq: u64)
        requires
            self.valid(),
        ensures
            self.inserted(idx, data, payload_len, now_us, seq).valid(),
            self.inserted(idx, data, payload_len, now_us, seq).k == self.k,
            self.inserted(idx, data, payload_len, now_us, seq).m == self.m,
    {
        let t = self.inserted(idx, data, payload_len, now_us, seq);
        lemma_present(self.shards());
        lemma_present(t.shards());
        self.lemma_stored(idx, data, payload_len);
        if !self.state.terminal() && idx < self.k + self.m {
            let c = self.begun(seq).counted(idx, now_us);
            assert(t.shards() =~= self.stored(idx, data, payload_len).shards());
            assert(t.data =~= self.stored(idx, data, payload_len).data);
            assert forall|i: int| 0 <= i < 64 implies #[trigger] mask_bit(t.received_mask, i) == (
            mask_bit(self.received_mask, i) || (i == idx && !self.holds(idx))) by {
                if idx < 64 && !self.holds(idx) {
                    lemma_mask_set(self.received_mask, idx as u64, i as u64);
                }
            }
            assert forall|i: int| 0 <= i < self.k + self.m && i != idx implies #[trigger] t.shards()[i]
                == self.shards()[i] by {}
            assert(t.shards()[idx as int] is Some);
        }
    }
}

impl GroupBuilder {
    pub fn new(k: u8, m: u8) -> (r: GroupBuilder)
        requires
            k + m <= 255,
        ensures
            r@ == new_group(k, m),
            r@.valid(),
    {
        let mut data_shards: Vec<Option<Bytes>> = Vec::new();
        let mut payload_lens: Vec<u16> = Vec::new();
        let mut i: u8 = 0;
        while i < k
            invariant
                i <= k,
                data_shards@.len() == i,
                forall|x: int| 0 <= x < i ==> (#[trigger] data_shards@[x]) is None,
                payload_lens@ == Seq::new(i as nat, |x: int| UNKNOWN_LEN),
            decreases k - i,
        {
            data_shards.push(None);
            payload_lens.push(UNKNOWN_LEN);
            i = i + 1;
            assert(payload_lens@ =~= Seq::new(i as nat, |x: int| UNKNOWN_LEN));
        }
        let mut parity_shards: Vec<Option<Bytes>> = Vec::new();
        let mut j: u8 = 0;
        while j < m
            invariant
                j <= m,
                parity_shards@.len() == j,
                forall|x: int| 0 <= x < j ==> (#[trigger] parity_shards@[x]) is None,
            decreases m - j,
        {
            parity_shards.push(None);
            j = j + 1;
        }
        let r = GroupBuilder {
            data_shards,
            parity_shards,
            payload_lens,
            received: 0,
            data_received: 0,
            received_mask: 0,
            k,
            m,
            state: GroupState::Collecting,
            first_us: 0,
            first_global_seq: 0,
        };
        proof {
            assert(r@.data =~= new_group(k, m).data);
            assert(r@.parity =~= new_group(k, m).parity);
            assert(r@ =~= new_group(k, m));
            lemma_new_group(k, m);
        }
        r
    }

    /// Takes a shard that arrived as chunk number `global_seq`. Tells whether it came in
    /// answer to a request, and whether the group stalls by it.
    pub fn insert(&mut self, idx: u8, data: Bytes, payload_len: u16, now_us: u64, global_seq: u64) -> (r: (
        bool,
        bool,
    ))
        requires
            old(self)@.valid(),
        ensures
            final(self)@ == old(self)@.inserted(
                idx,
                bytes_view(data),
                payload_len,
                now_us,
                global_seq,
            ),
            final(self)@.valid(),
            r.0 == old(self)@.awaits(idx),
            r.1 == (old(self)@.state is Collecting && final(self)@.state is Stalled),
    {
        let ghost before = self@;
        proof {
            before.law_inserted_valid(idx, bytes_view(data), payload_len, now_us, global_seq);
            lemma_present(before.shards());
        }
        if self.state.is_terminal() {
            if !matches!(self.state, GroupState::Abandoned) {
                self.store_shard(idx, data, payload_len);
            }
            return (false, false);
        }
        if self.first_global_seq == 0 {
            self.first_global_seq = global_seq;
        }
        let group_age_packets: u64 = global_seq.saturating_sub(self.first_global_seq);
        if idx >= self.k && (idx - self.k) as usize >= self.parity_shards.len() {
            return (false, false);
        }
        let is_data: bool = idx < self.k;
        let is_new: bool = if is_data {
            self.data_shards[idx as usize].is_none()
        } else {
            self.parity_shards[(idx - self.k) as usize].is_none()
        };
        assert(is_new == !before.holds(idx));
        if is_new {
            proof {
                before.lemma_stored(idx, bytes_view(data), payload_len);
                lemma_present(before.stored(idx, bytes_view(data), payload_len).shards());
            }
            self.received = self.received.saturating_add(1);
            if is_data {
                self.data_received = self.data_received.saturating_add(1);
            }
            if idx < 64 {
                self.received_mask = self.received_mask | (1u64 << (idx as u64));
            }
            if self.first_us == 0 {
                self.first_us = now_us;
            }
        }
        assert(self@ =~= before.begun(global_seq).counted(idx, now_us));
        let ghost counted = self@;
        self.store_shard(idx, data, payload_len);
        let was_awaited: bool = matches!(self.state, GroupState::Requested { .. });
        let mut newly_stalled: bool = false;
        let total: u64 = self.k as u64 + self.m as u64;
        let missing: u64 = total.saturating_sub(self.received as u64);
        let can_fec: u64 = self.m as u64;
        if missing > can_fec {
            match self.state {
                GroupState::Collecting => {
                    if group_age_packets > INTERLEAVE_THRESHOLD {
                        self.state = GroupState::Stalled { since_us: now_us };
                        newly_stalled = true;
                    }
                },
                _ => {},
            }
        } else {
            match self.state {
                GroupState::Stalled { .. } | GroupState::Requested { .. } => {
                    self.state = GroupState::Collecting;
                },
                _ => {},
            }
        }
        assert(self@ =~= before.inserted(idx, bytes_view(data), payload_len, now_us, global_seq));
        (was_awaited, newly_stalled)
    }

    /// Whether the payload can be had, and whether that takes parity shards.
    pub fn is_ready(&self) -> (r: (bool, bool))
        ensures
            r.0 == self@.ready(),
            r.1 == (self@.ready() && !self@.direct()),
    {
        if self.data_received == self.k {
            return (true, false);
        }
        if self.received >= self.k && self.data_received > 0 {
            return (true, true);
        }
        (false, false)
    }

    pub fn is_direct(&self) -> (r: bool)
        ensures
            r == self@.direct(),
    {
        self.data_received == self.k
    }

    pub fn received_mask(&self) -> (r: u64)
        ensures
            r == self@.received_mask,
    {
        self.received_mask
    }

    /// The number of data shards that were counted.
    pub fn data_received_count(&self) -> (r: u8)
        ensures
            r == self@.data_received,
    {
        self.data_received
    }

    pub fn state(&self) -> (r: GroupState)
        ensures
            r == self@.state,
    {
        self.state
    }

    /// All shards, data first.
    pub fn as_rs_shards(&self) -> (r: Vec<Option<Bytes>>)
        requires
            self@.valid(),
        ensures
            opt_bytes_views(r@) == self@.shards(),
    {
        let mut out: Vec<Option<Bytes>> = Vec::new();
        let mut i: usize = 0;
        while i < self.data_shards.len()
            invariant
                i <= self.data_shards@.len(),
                opt_bytes_views(out@) == opt_bytes_views(self.data_shards@).take(i as int),
            decreases self.data_shards@.len() - i,
        {
            let shard: Option<Bytes> = match &self.data_shards[i] {
                Some(b) => Some(bytes_cloned(b)),
                None => None,
            };
            let ghost before = out@;
            out.push(shard);
            i = i + 1;
            assert(opt_bytes_views(out@) =~= opt_bytes_views(before).push(
                opt_bytes_views(self.data_shards@)[i - 1],
            ));
            assert(opt_bytes_views(out@) =~= opt_bytes_views(self.data_shards@).take(i as int));
        }
        let ghost d = opt_bytes_views(self.data_shards@);
        assert(opt_bytes_views(out@) =~= d);
        let mut j: usize = 0;
        while j < self.parity_shards.len()
            invariant
                j <= self.parity_shards@.len(),
                opt_bytes_views(out@) == d + opt_bytes_views(self.parity_shards@).take(j as int),
            decreases self.parity_shards@.len() - j,
        {
            let shard: Option<Bytes> = match &self.parity_shards[j] {
                Some(b) => Some(bytes_cloned(b)),
                None => None,
            };
            let ghost before = out@;
            out.push(shard);
            j = j + 1;
            assert(opt_bytes_views(out@) =~= opt_bytes_views(before).push(
                opt_bytes_views(self.parity_shards@)[j - 1],
            ));
            assert(opt_bytes_views(out@) =~= d + opt_bytes_views(self.parity_shards@).take(
                j as int,
            ));
        }
        assert(opt_bytes_views(out@) =~= self@.shards());
        out
    }

    /// The group's payload, reconstructed where that is needed. Any shards of a group suffice
    /// if there are as many of them as it has data shards.
    pub fn get_data(&self) -> (r: Option<Vec<u8>>)
        requires
            self@.valid(),
        ensures
            match r {
                Some(v) => self@.payload() == Some(v@),
                None => self@.payload() is None,
            },
            forall|data: Seq<Seq<u8>>|
                #![trigger rs_parity(data, self@.m as nat)]
                shards_of(self@.k, self@.m, self@.shards(), data) ==> {
                    &&& r is Some
                    &&& r->0@ == joined(all_present(data), self@.lens, self@.k as nat)
                },
    {
        let shards: Vec<Option<Bytes>> = self.as_rs_shards();
        proof {
            lemma_has_code(self@);
        }
        FecDecoder::decode(self.k, self.m, shards.as_slice(), self.payload_lens.as_slice())
    }

    /// Puts a shard in its place.
    fn store_shard(&mut self, idx: u8, data: Bytes, payload_len: u16)
        requires
            old(self)@.k + old(self)@.m <= 255,
            old(self)@.data.len() == old(self)@.k,
            old(self)@.parity.len() == old(self)@.m,
            old(self)@.lens.len() == old(self)@.k,
        ensures
            final(self)@ == old(self)@.stored(idx, bytes_view(data), payload_len),
    {
        let ghost before = self@;
        if idx < self.k {
            self.data_shards[idx as usize] = Some(data);
            self.payload_lens[idx as usize] = payload_len;
        } else {
            let pi: usize = (idx - self.k) as usize;
            if pi < self.parity_shards.len() {
                self.parity_shards[pi] = Some(data);
            }
        }
        assert(self@ =~= before.stored(idx, bytes_view(data), payload_len));
    }
}

/// A new group is valid.
pub proof fn lemma_new_group(k: u8, m: u8)
    requires
        k + m <= 255,
    ensures
        new_group(k, m).valid(),
{
    let g = new_group(k, m);
    lemma_present_none(g.shards());
    lemma_present_none(g.data);
    assert forall|i: int| 0 <= i < 64 implies !#[trigger] mask_bit(g.received_mask, i) by {
        let j = i as u64;
        assert((0u64 >> j) & 1 == 0) by (bit_vector);
    }
}

/// A group without parity lacks nothing once it counts all its shards.
pub proof fn lemma_has_code(g: GroupModel)
    requires
        g.valid(),
    ensures
        !no_code(g.k, g.m, g.shards(), g.lens),
{
    lemma_present(g.shards());
    if g.m == 0 && present(g.shards()) >= g.k {
        assert forall|i: int| 0 <= i < g.k implies (#[trigger] g.shards()[i]) is Some by {}
    }
}

} // verus!
