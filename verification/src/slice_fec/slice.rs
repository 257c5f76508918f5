//! Collection and recovery of the shards of a slice.
use crate::buffer::bytes_slice;
use crate::fec::codec::{
    all_present, opt_vec_views, present, reconstructible, rs_parity, rs_rebuilt, rs_reconstruct,
};
use crate::fec::decode::{data_present, shards_of};
use crate::fec::group_builder::{
    lemma_present, lemma_present_none, lemma_present_update, mask_bit,
};
use crate::packet::{ChunkModel, DatagramChunk};
use vstd::prelude::*;

verus! {

/// The shards of a slice as far as they have come.
#[derive(Debug)]
pub struct SliceBuilder {
    shards: Vec<Option<Vec<u8>>>,
    payload_lens: Vec<u16>,
    shard_data_size: usize,
    received: u8,
    k: u8,
    m: u8,
}

/// What a [`SliceBuilder`] holds.
#[verifier::ext_equal]
pub struct SliceModel {
    pub shards: Seq<Option<Seq<u8>>>,
    /// Length of each data shard without its padding, zero for one that has not come.
    pub lens: Seq<u16>,
    /// Length of the first shard that came.
    pub size: nat,
    /// How many shards have come.
    pub received: u8,
    pub k: u8,
    pub m: u8,
}

/// A slice of which nothing has come.
pub open spec fn new_slice(k: u8, m: u8) -> SliceModel {
    SliceModel {
        shards: Seq::new((k + m) as nat, |i: int| None),
        lens: Seq::new(k as nat, |i: int| 0u16),
        size: 0,
        received: 0,
        k,
        m,
    }
}

/// The bytes of a shard that belong to the slice: those that its length tells, or all.
pub open spec fn real_part(shard: Seq<u8>, len: u16, size: nat) -> Seq<u8> {
    let own = if len > 0 {
        len as nat
    } else {
        size
    };
    if own < shard.len() {
        shard.take(own as int)
    } else {
        shard
    }
}

/// The bytes of the first `n` shards that belong to the slice.
pub open spec fn real_parts(shards: Seq<Option<Seq<u8>>>, lens: Seq<u16>, size: nat, n: nat) -> Seq<
    u8,
>
    decreases n,
{
    if n == 0 {
        Seq::empty()
    } else {
        real_parts(shards, lens, size, (n - 1) as nat) + real_part(
            shards[n - 1]->0,
            lens[n - 1],
            size,
        )
    }
}

/// What is recovered depends on the first shards alone.
pub proof fn lemma_real_parts_same(
    a: Seq<Option<Seq<u8>>>,
    b: Seq<Option<Seq<u8>>>,
    lens: Seq<u16>,
    size: nat,
    n: nat,
)
    requires
        forall|i: int| 0 <= i < n ==> #[trigger] a[i] == b[i],
    ensures
        real_parts(a, lens, size, n) == real_parts(b, lens, size, n),
    decreases n,
{
    if n > 0 {
        lemma_real_parts_same(a, b, lens, size, (n - 1) as nat);
        assert(a[n - 1] == b[n - 1]);
    }
}

impl SliceModel {
    /// The counts fit the shards.
    pub open spec fn valid(self) -> bool {
        &&& self.k + self.m <= 255
        &&& self.shards.len() == self.k + self.m
        &&& self.lens.len() == self.k
        &&& self.received <= present(self.shards)
    }

    /// Enough shards have come.
    pub open spec fn ready(self) -> bool {
        self.received >= self.k
    }

    /// With one more shard, unless it was there or is none of this slice.
    pub open spec fn inserted(self, c: ChunkModel) -> SliceModel {
        if c.shard_idx < self.shards.len() && self.shards[c.shard_idx as int] is None {
            SliceModel {
                shards: self.shards.update(c.shard_idx as int, Some(c.data)),
                lens: if c.shard_idx < self.k {
                    self.lens.update(c.shard_idx as int, c.payload_len)
                } else {
                    self.lens
                },
                size: if self.size == 0 {
                    c.data.len()
                } else {
                    self.size
                },
                received: (self.received + 1) as u8,
                ..self
            }
        } else {
            self
        }
    }

    /// Each shard that has come has a bit in a mask of 64.
    pub open spec fn maskable(self) -> bool {
        forall|i: int| 64 <= i < self.shards.len() ==> (#[trigger] self.shards[i]) is None
    }

    /// The slice after its recovery: missing shards are filled in.
    pub open spec fn filled_in(self) -> SliceModel {
        if self.ready() && !data_present(self.k as nat, self.shards) && reconstructible(
            self.shards,
            self.k as nat,
            self.m as nat,
        ) {
            SliceModel {
                shards: all_present(rs_rebuilt(self.shards, self.k as nat, self.m as nat)),
                ..self
            }
        } else {
            self
        }
    }

    /// The bytes of the slice, if they can be had.
    pub open spec fn recovered(self) -> Option<Seq<u8>> {
        if self.ready() && (data_present(self.k as nat, self.shards) || reconstructible(
            self.shards,
            self.k as nat,
            self.m as nat,
        )) {
            Some(real_parts(self.filled_in().shards, self.lens, self.size, self.k as nat))
        } else {
            None
        }
    }

    /// A shard keeps the slice valid.
    pub proof fn lemma_inserted(self, c: ChunkModel)
        requires
            self.valid(),
        ensures
            self.inserted(c).valid(),
            self.inserted(c).k == self.k,
            self.inserted(c).m == self.m,
    {
        if c.shard_idx < self.shards.len() && self.shards[c.shard_idx as int] is None {
            lemma_present_update(self.shards, c.shard_idx as int, c.data);
            lemma_present(self.inserted(c).shards);
        }
    }
}

impl View for SliceBuilder {
    type V = SliceModel;

    closed spec fn view(&self) -> SliceModel {
        SliceModel {
            shards: opt_vec_views(self.shards@),
            lens: self.payload_lens@,
            size: self.shard_data_size as nat,
            received: self.received,
            k: self.k,
            m: self.m,
        }
    }
}

/// Shard `i` is marked in the mask exactly when it is there.
pub open spec fn marks(mask: u64, shards: Seq<Option<Seq<u8>>>) -> bool {
    forall|i: int|
        0 <= i < 64 ==> #[trigger] mask_bit(mask, i) == (i < shards.len() && shards[i] is Some)
}

proof fn lemma_bit_set(mask: u64, n: u64, i: u64)
    requires
        n < 64,
        i < 64,
    ensures
        mask_bit(mask | (1u64 << n), i as int) == (mask_bit(mask, i as int) || i == n),
{
    assert((((mask | (1u64 << n)) >> i) & 1 == 1) == ((mask >> i) & 1 == 1 || i == n))
        by (bit_vector)
        requires
            n < 64,
            i < 64,
    ;
}

impl SliceBuilder {
    /// Nothing has come.
    pub fn new(k: u8, m: u8) -> (r: SliceBuilder)
        requires
            k + m <= 255,
        ensures
            r@ == new_slice(k, m),
            r@.valid(),
    {
        let total: usize = k as usize + m as usize;
        let mut shards: Vec<Option<Vec<u8>>> = Vec::new();
        while shards.len() < total
            invariant
                shards@.len() <= total,
                forall|i: int| 0 <= i < shards@.len() ==> (#[trigger] shards@[i]) is None,
            decreases total - shards@.len(),
        {
            shards.push(None);
        }
        let mut payload_lens: Vec<u16> = Vec::new();
        while payload_lens.len() < k as usize
            invariant
                payload_lens@.len() <= k,
                forall|i: int| 0 <= i < payload_lens@.len() ==> (#[trigger] payload_lens@[i]) == 0,
            decreases k - payload_lens@.len(),
        {
            payload_lens.push(0);
        }
        let r = SliceBuilder { shards, payload_lens, shard_data_size: 0, received: 0, k, m };
        proof {
            assert(r@.shards =~= new_slice(k, m).shards);
            assert(r@.lens =~= new_slice(k, m).lens);
            lemma_present_none(r@.shards);
        }
        r
    }

    /// Takes a shard in.
    pub fn insert(&mut self, chunk: &DatagramChunk)
        requires
            old(self)@.valid(),
        ensures
            final(self)@ == old(self)@.inserted(chunk@),
            final(self)@.valid(),
    {
        let ghost before = self@;
        proof {
            before.lemma_inserted(chunk@);
        }
        let idx: usize = chunk.shard_idx as usize;
        if idx < self.shards.len() && self.shards[idx].is_none() {
            proof {
                lemma_present_update(before.shards, idx as int, chunk@.data);
                lemma_present(before.inserted(chunk@).shards);
            }
            let content = bytes_slice(&chunk.data);
            if self.shard_data_size == 0 {
                self.shard_data_size = content.len();
            }
            let mut copy: Vec<u8> = Vec::new();
            copy.extend_from_slice(content);
            assert(copy@ =~= chunk@.data);
            self.shards.set(idx, Some(copy));
            if idx < self.k as usize {
                self.payload_lens.set(idx, chunk.payload_len);
            }
            self.received = self.received + 1;
            assert(self@.shards =~= before.inserted(chunk@).shards);
            assert(self@ =~= before.inserted(chunk@));
        }
    }

    /// Whether enough shards have come.
    pub fn is_ready(&self) -> (r: bool)
        ensures
            r == self@.ready(),
    {
        self.received >= self.k
    }

    /// A mask of the shards that have come.
    pub fn received_mask(&self) -> (r: u64)
        requires
            self@.maskable(),
        ensures
            marks(r, self@.shards),
    {
        let mut mask: u64 = 0;
        let mut i: usize = 0;
        proof {
            assert forall|j: int| 0 <= j < 64 implies !#[trigger] mask_bit(0, j) by {
                let b = j as u64;
                assert((0u64 >> b) & 1 == 0) by (bit_vector);
            }
        }
        while i < self.shards.len()
            invariant
                i <= self.shards@.len(),
                self@.maskable(),
                forall|j: int|
                    0 <= j < 64 ==> #[trigger] mask_bit(mask, j) == (j < i
                        && self@.shards[j] is Some),
            decreases self.shards@.len() - i,
        {
            if self.shards[i].is_some() {
                assert(self@.shards[i as int] is Some);
                proof {
                    assert forall|j: int| 0 <= j < 64 implies #[trigger] mask_bit(
                        mask | (1u64 << (i as u64)),
                        j,
                    ) == (j < i + 1 && self@.shards[j] is Some) by {
                        lemma_bit_set(mask, i as u64, j as u64);
                    }
                }
                mask = mask | (1u64 << (i as u64));
            } else {
                assert(self@.shards[i as int] is None);
            }
            i = i + 1;
        }
        mask
    }

    /// Whether all data shards are there.
    fn has_data(&self) -> (r: bool)
        requires
            self@.valid(),
        ensures
            r == data_present(self@.k as nat, self@.shards),
    {
        let mut i: usize = 0;
        while i < self.k as usize
            invariant
                self@.valid(),
                i <= self.k,
                forall|j: int| 0 <= j < i ==> (#[trigger] self@.shards[j]) is Some,
            decreases self.k - i,
        {
            if self.shards[i].is_none() {
                assert(self@.shards[i as int] is None);
                return false;
            }
            i = i + 1;
        }
        true
    }

    /// The bytes of the slice, if they can be had. Missing shards are filled in. Where the
    /// shards belong to a slice that was sent, the bytes are those of its data shards.
    pub fn reconstruct(&mut self) -> (r: Option<Vec<u8>>)
        requires
            old(self)@.valid(),
        ensures
            match r {
                Some(v) => old(self)@.recovered() == Some(v@),
                None => old(self)@.recovered() is None,
            },
            final(self)@ == old(self)@.filled_in(),
            final(self)@.valid(),
            forall|data: Seq<Seq<u8>>|
                #![trigger rs_parity(data, old(self)@.m as nat)]
                shards_of(old(self)@.k, old(self)@.m, old(self)@.shards, data)
                    && old(self)@.ready() ==> {
                    &&& r is Some
                    &&& r->0@ == real_parts(
                        all_present(data),
                        old(self)@.lens,
                        old(self)@.size,
                        old(self)@.k as nat,
                    )
                },
    {
        let ghost before = self@;
        let ghost m = before.m as nat;
        if !self.is_ready() {
            return None;
        }
        let missing: bool = !self.has_data();
        proof {
            lemma_present(before.shards);
            if missing {
                let i = choose|i: int|
                    0 <= i < before.k && !((#[trigger] before.shards[i]) is Some);
                assert(before.shards[i] is None);
                assert(present(before.shards) < before.shards.len());
            }
            assert forall|data: Seq<Seq<u8>>|
                #![trigger rs_parity(data, m)]
                shards_of(before.k, before.m, before.shards, data) implies reconstructible(
                before.shards,
                before.k as nat,
                m,
            ) by {
                let s = before.shards;
                let word = data + rs_parity(data, m);
                assert forall|x: int| 0 <= x < s.len() && (#[trigger] s[x]) is Some implies s[x]->0.len()
                    == word[0].len() by {
                    assert(s[x] == Some(word[x]));
                }
            }
        }
        if missing {
            let ok: bool = rs_reconstruct(self.k as usize, self.m as usize, &mut self.shards);
            if !ok {
                assert(self@ =~= before);
                return None;
            }
        }
        assert(self@ =~= before.filled_in());
        proof {
            lemma_present(self@.shards);
            assert(forall|i: int| 0 <= i < before.k ==> (#[trigger] self@.shards[i]) is Some);
        }
        let ghost now = self@;
        let mut out: Vec<u8> = Vec::new();
        let mut i: usize = 0;
        while i < self.k as usize
            invariant
                self@ == now,
                i <= now.k,
                now.shards.len() == now.k + now.m,
                now.lens.len() == now.k,
                forall|j: int| 0 <= j < now.k ==> (#[trigger] now.shards[j]) is Some,
                out@ == real_parts(now.shards, now.lens, now.size, i as nat),
            decreases now.k - i,
        {
            assert(now.shards[i as int] is Some);
            let ghost sofar = out@;
            match &self.shards[i] {
                Some(shard) => {
                    let own: usize = if self.payload_lens[i] > 0 {
                        self.payload_lens[i] as usize
                    } else {
                        self.shard_data_size
                    };
                    let limit: usize = if own < shard.len() {
                        own
                    } else {
                        shard.len()
                    };
                    let part = vstd::slice::slice_subrange(shard.as_slice(), 0, limit);
                    out.extend_from_slice(part);
                    assert(out@ =~= sofar + real_part(
                        now.shards[i as int]->0,
                        now.lens[i as int],
                        now.size,
                    ));
                },
                None => {},
            }
            i = i + 1;
        }
        proof {
            assert forall|data: Seq<Seq<u8>>|
                #![trigger rs_parity(data, m)]
                shards_of(before.k, before.m, before.shards, data) implies out@ == real_parts(
                all_present(data),
                before.lens,
                before.size,
                before.k as nat,
            ) by {
                let word = data + rs_parity(data, m);
                assert forall|x: int| 0 <= x < before.k implies #[trigger] now.shards[x]
                    == all_present(data)[x] by {
                    if missing {
                        assert(now.shards == all_present(word));
                    } else {
                        assert(before.shards[x] is Some);
                    }
                }
                lemma_real_parts_same(
                    now.shards,
                    all_present(data),
                    before.lens,
                    before.size,
                    before.k as nat,
                );
            }
        }
        Some(out)
    }
}

} // verus!
