//! Splitting of a slice into shard groups, their parity, and the order in which the
//! shards are sent.
use crate::buffer::bytes_view;
use crate::buffer::{bytes_empty, bytes_mut_view, bytes_mut_with_capacity, freeze, put_slice};
use crate::fec::codec::rs_encode;
use crate::fec::codec::{rs_parity, uniform, vec_views};
use bytes::{Bytes, BytesMut};
use vstd::prelude::*;

verus! {

/// Data shards in a full group.
pub const FEC_GROUP_K_MAX: usize = 16;

/// Parity in percent of the data shards, for a frame that must arrive.
pub const FEC_M_CRITICAL_PCT: usize = 20;

/// Parity in percent of the data shards, for the first slice of a frame.
pub const FEC_M_FIRST_SLICE_PCT: usize = 10;

/// Parity in percent of the data shards, for any other slice.
pub const FEC_M_NORMAL_PCT: usize = 8;

/// How well the link to the receiver works.
#[derive(Debug, Clone, Copy, PartialEq, Eq, Structural)]
pub enum LinkQuality {
    /// No loss and a short round trip: half the parity, no interleaving.
    Excellent,
    /// Ordinary parity.
    Normal,
    /// Loss or a long round trip: twice the parity.
    Degraded,
}

/// The quality for a round trip in milliseconds, two comparisons of the loss rate and the
/// longest run of losses.
pub open spec fn quality_of(rtt: u64, below_half_pct: bool, above_two_pct: bool, burst: u32) -> LinkQuality {
    if rtt < 5 && below_half_pct && burst == 0 {
        LinkQuality::Excellent
    } else if rtt > 50 || above_two_pct || burst > 1 {
        LinkQuality::Degraded
    } else {
        LinkQuality::Normal
    }
}

impl LinkQuality {
    /// The quality for a round trip in milliseconds, two comparisons of the loss rate
    /// (below half a percent, above two percent) and the longest run of losses.
    pub fn evaluate(rtt: u64, loss_below_half_pct: bool, loss_above_two_pct: bool, burst: u32) -> (r:
        LinkQuality)
        ensures
            r == quality_of(rtt, loss_below_half_pct, loss_above_two_pct, burst),
            r == LinkQuality::Excellent <==> rtt < 5 && loss_below_half_pct && burst == 0,
            r == LinkQuality::Degraded <==> !(rtt < 5 && loss_below_half_pct && burst == 0) && (rtt
                > 50 || loss_above_two_pct || burst > 1),
    {
        if rtt < 5 && loss_below_half_pct && burst == 0 {
            LinkQuality::Excellent
        } else if rtt > 50 || loss_above_two_pct || burst > 1 {
            LinkQuality::Degraded
        } else {
            LinkQuality::Normal
        }
    }
}

/// Where a shard lies in [`EncodedSlice::all_shards_data`] and what its header says.
#[derive(Debug, Clone, Copy, PartialEq, Eq, Structural)]
pub struct ChunkMeta {
    pub offset: usize,
    pub payload_len: u16,
    pub group_idx: u8,
    pub shard_idx: u8,
    pub k: u8,
    pub m: u8,
}

/// The shards of a slice and the order in which to send them.
#[derive(Debug)]
pub struct EncodedSlice {
    pub frame_id: u64,
    pub all_shards_data: Bytes,
    pub chunks_meta: Vec<ChunkMeta>,
}

pub struct FecEncoder;

/// Parity in percent of the data shards: half as much over an excellent link, twice as much
/// over a poor one.
pub open spec fn parity_pct(critical: bool, first: bool, quality: LinkQuality) -> nat {
    let base: nat = if critical {
        20
    } else if first {
        10
    } else {
        8
    };
    match quality {
        LinkQuality::Excellent => base / 2,
        LinkQuality::Normal => base,
        LinkQuality::Degraded => 2 * base,
    }
}

/// Parity shards for a group of `k` data shards.
pub open spec fn parity_count(k: nat, critical: bool, first: bool, quality: LinkQuality) -> nat {
    let wanted: nat = (k * parity_pct(critical, first, quality) + 99) / 100;
    let least: nat = if critical {
        2
    } else if quality != LinkQuality::Excellent && k > 1 {
        1
    } else {
        0
    };
    let m = if wanted < least {
        least
    } else {
        wanted
    };
    let room: nat = if k > 255 {
        0
    } else {
        (255 - k) as nat
    };
    if m < room {
        m
    } else {
        room
    }
}

/// All parts, one behind the other.
pub open spec fn concat(parts: Seq<Seq<u8>>) -> Seq<u8>
    decreases parts.len(),
{
    if parts.len() == 0 {
        Seq::empty()
    } else {
        concat(parts.drop_last()) + parts.last()
    }
}

/// A slice that is to be sent: its bytes, the most bytes that a shard may hold, and
/// what decides on the parity.
pub struct SliceJob {
    pub data: Seq<u8>,
    pub chunk: nat,
    pub critical: bool,
    pub first: bool,
    pub quality: LinkQuality,
}

impl SliceJob {
    /// There is something to send.
    pub open spec fn valid(self) -> bool {
        self.data.len() > 0 && self.chunk > 0
    }

    /// Number of data shards: as many as it takes.
    pub open spec fn shard_count(self) -> nat {
        if self.valid() {
            ((self.data.len() - 1) / self.chunk as int + 1) as nat
        } else {
            0
        }
    }

    /// The bytes of data shard `i`: `chunk` of them, but for the last shard.
    pub open spec fn shard(self, i: int) -> Seq<u8> {
        let start = i * self.chunk;
        let end = start + self.chunk;
        self.data.subrange(
            start,
            if end < self.data.len() {
                end
            } else {
                self.data.len() as int
            },
        )
    }

    /// Number of groups of [`FEC_GROUP_K_MAX`] data shards, the last one perhaps smaller.
    pub open spec fn group_count(self) -> nat {
        if self.valid() {
            ((self.shard_count() - 1) / 16 + 1) as nat
        } else {
            0
        }
    }

    /// Data shards of group `g`.
    pub open spec fn k(self, g: int) -> nat {
        let left = self.shard_count() - 16 * g;
        if left < 16 {
            left as nat
        } else {
            16
        }
    }

    /// Parity shards of group `g`.
    pub open spec fn m(self, g: int) -> nat {
        parity_count(self.k(g), self.critical, self.first, self.quality)
    }

    /// The length that the shards of group `g` have on the wire: that of its first data
    /// shard, which none of the others exceeds.
    pub open spec fn shard_size(self, g: int) -> nat {
        self.shard(16 * g).len()
    }

    /// Data shard `s` of group `g`, filled up with zeros.
    pub open spec fn padded(self, g: int, s: int) -> Seq<u8> {
        let raw = self.shard(16 * g + s);
        raw + Seq::new((self.shard_size(g) - raw.len()) as nat, |i: int| 0u8)
    }

    /// The data shards of group `g`, each filled up.
    pub open spec fn data_shards(self, g: int) -> Seq<Seq<u8>> {
        Seq::new(self.k(g), |s: int| self.padded(g, s))
    }

    /// All shards of group `g`: data, then parity.
    pub open spec fn group(self, g: int) -> Seq<Seq<u8>> {
        if self.m(g) > 0 {
            self.data_shards(g) + rs_parity(self.data_shards(g), self.m(g))
        } else {
            self.data_shards(g)
        }
    }

    /// The shards of the first `n` groups, one behind the other.
    pub open spec fn buffer(self, n: nat) -> Seq<u8>
        decreases n,
    {
        if n == 0 {
            Seq::empty()
        } else {
            self.buffer((n - 1) as nat) + concat(self.group(n - 1))
        }
    }

    /// The room that the shards of the first `n` groups take.
    pub open spec fn span(self, n: nat) -> nat
        decreases n,
    {
        if n == 0 {
            0
        } else {
            self.span((n - 1) as nat) + (self.k(n - 1) + self.m(n - 1)) * self.shard_size(n - 1)
        }
    }

    /// The length of the real data in shard `s` of group `g`.
    pub open spec fn payload_len(self, g: int, s: int) -> nat {
        if s < self.k(g) {
            self.shard(16 * g + s).len()
        } else {
            self.shard_size(g)
        }
    }

    /// The entry of shard `s` of group `g`.
    pub open spec fn meta(self, g: int, s: int) -> ChunkMeta {
        ChunkMeta {
            offset: (self.span(g as nat) + s * self.shard_size(g)) as usize,
            payload_len: (self.payload_len(g, s) % 0x1_0000) as u16,
            group_idx: (g % 256) as u8,
            shard_idx: s as u8,
            k: self.k(g) as u8,
            m: self.m(g) as u8,
        }
    }

    /// The entries of the first `n` groups, in the order of the buffer.
    pub open spec fn metas(self, n: nat) -> Seq<ChunkMeta>
        decreases n,
    {
        if n == 0 {
            Seq::empty()
        } else {
            self.metas((n - 1) as nat) + Seq::new(
                self.k(n - 1) + self.m(n - 1),
                |s: int| self.meta(n - 1, s),
            )
        }
    }

    /// Group `g` has its shards, all of one length, and `buf` holds each of them at its
    /// offset.
    pub open spec fn placed(self, buf: Seq<u8>, g: int) -> bool {
        let size = self.shard_size(g) as int;
        &&& self.group(g).len() == self.k(g) + self.m(g)
        &&& uniform(self.group(g))
        &&& forall|s: int|
            0 <= s < self.k(g) + self.m(g) ==> #[trigger] self.group(g)[s] == buf.subrange(
                self.span(g as nat) + s * size,
                self.span(g as nat) + s * size + size,
            )
    }

    /// The entries in sending order.
    pub open spec fn sent(self) -> Seq<ChunkMeta> {
        let flat = self.metas(self.group_count());
        if self.quality == LinkQuality::Excellent {
            flat
        } else {
            interleaved(flat, self.group_count() % 256)
        }
    }
}

/// Shard counts of the first entry of group `g`.
pub open spec fn group_km(metas: Seq<ChunkMeta>, g: int) -> (u8, u8)
    decreases metas.len(),
{
    if metas.len() == 0 {
        (0, 0)
    } else if metas[0].group_idx == g {
        (metas[0].k, metas[0].m)
    } else {
        group_km(metas.drop_first(), g)
    }
}

/// The last entry of shard `s` of group `g`, as a sequence of one or none.
pub open spec fn meta_of(metas: Seq<ChunkMeta>, g: int, s: int) -> Seq<ChunkMeta>
    decreases metas.len(),
{
    if metas.len() == 0 {
        Seq::empty()
    } else if metas.last().group_idx == g && metas.last().shard_idx == s {
        seq![metas.last()]
    } else {
        meta_of(metas.drop_last(), g, s)
    }
}

/// Data shard `round` of each of the first `n` groups.
pub open spec fn data_round(metas: Seq<ChunkMeta>, round: int, n: nat) -> Seq<ChunkMeta>
    decreases n,
{
    if n == 0 {
        Seq::empty()
    } else {
        data_round(metas, round, (n - 1) as nat) + if round < group_km(metas, n - 1).0 {
            meta_of(metas, n - 1, round)
        } else {
            Seq::empty()
        }
    }
}

/// Parity shard `round` of each of the first `n` groups.
pub open spec fn parity_round(metas: Seq<ChunkMeta>, round: int, n: nat) -> Seq<ChunkMeta>
    decreases n,
{
    if n == 0 {
        Seq::empty()
    } else {
        parity_round(metas, round, (n - 1) as nat) + if round < group_km(metas, n - 1).1 {
            meta_of(metas, n - 1, group_km(metas, n - 1).0 + round)
        } else {
            Seq::empty()
        }
    }
}

/// The first `r` rounds over `n` groups.
pub open spec fn rounds(metas: Seq<ChunkMeta>, r: nat, n: nat) -> Seq<ChunkMeta>
    decreases r,
{
    if r == 0 {
        Seq::empty()
    } else {
        rounds(metas, (r - 1) as nat, n) + data_round(metas, r - 1, n) + parity_round(
            metas,
            r - 1,
            n,
        )
    }
}

/// How many rounds it takes to go through the first `n` groups.
pub open spec fn round_count(metas: Seq<ChunkMeta>, n: nat) -> nat
    decreases n,
{
    if n == 0 {
        0
    } else {
        let before = round_count(metas, (n - 1) as nat);
        let (k, m) = group_km(metas, n - 1);
        let most = if k < m {
            m as nat
        } else {
            k as nat
        };
        if before < most {
            most
        } else {
            before
        }
    }
}

/// One shard of each of `n` groups after the other, so that a run of losses is spread
/// over the groups.
pub open spec fn interleaved(metas: Seq<ChunkMeta>, n: nat) -> Seq<ChunkMeta> {
    rounds(metas, round_count(metas, n), n)
}

/// Shard `i` lies inside the data, and only the last one may be shorter than `chunk`.
pub proof fn lemma_shard(job: SliceJob, i: int)
    requires
        job.valid(),
        0 <= i < job.shard_count(),
    ensures
        0 <= i * job.chunk < job.data.len(),
        0 < job.shard(i).len() <= job.chunk,
        i + 1 < job.shard_count() ==> job.shard(i).len() == job.chunk,
        i + 1 < job.shard_count() ==> (i + 1) * job.chunk < job.data.len(),
        i + 1 == job.shard_count() ==> (i + 1) * job.chunk >= job.data.len(),
        job.shard(i).len() == if job.data.len() - i * job.chunk < job.chunk {
            (job.data.len() - i * job.chunk) as int
        } else {
            job.chunk as int
        },
{
    let len = job.data.len() as int;
    let c = job.chunk as int;
    let q = (len - 1) / c;
    vstd::arithmetic::div_mod::lemma_fundamental_div_mod(len - 1, c);
    vstd::arithmetic::div_mod::lemma_mod_bound(len - 1, c);
    assert(c * q == q * c) by (nonlinear_arith);
    assert(i * c <= q * c) by (nonlinear_arith)
        requires
            i <= q,
            c > 0,
    ;
    assert(0 <= i * c) by (nonlinear_arith)
        requires
            0 <= i,
            c > 0,
    ;
    assert((i + 1) * c == i * c + c) by (nonlinear_arith);
    if i < q {
        assert((i + 1) * c <= q * c) by (nonlinear_arith)
            requires
                i + 1 <= q,
                c > 0,
        ;
    }
}

/// A group gets seven parity shards at most, and no more than it has data shards, but for
/// a group of one shard, which gets two at most.
proof fn lemma_parity_count(k: nat, critical: bool, first: bool, quality: LinkQuality)
    requires
        1 <= k <= 16,
    ensures
        parity_count(k, critical, first, quality) <= 7,
        k == 1 ==> parity_count(k, critical, first, quality) <= 2,
        k >= 2 ==> parity_count(k, critical, first, quality) <= k,
{
    let pct = parity_pct(critical, first, quality);
    assert(k * pct <= k * 40) by (nonlinear_arith)
        requires
            pct <= 40,
    ;
}

/// Group `g` has between one and sixteen data shards, none longer than the first, and
/// seven parity shards at most.
pub proof fn lemma_group(job: SliceJob, g: int)
    requires
        job.valid(),
        0 <= g < job.group_count(),
    ensures
        1 <= job.k(g) <= 16,
        job.m(g) <= 7,
        job.k(g) == 1 ==> job.m(g) <= 2,
        job.k(g) >= 2 ==> job.m(g) <= job.k(g),
        16 * g + job.k(g) <= job.shard_count(),
        g + 1 < job.group_count() ==> job.k(g) == 16,
        g + 1 == job.group_count() ==> 16 * g + job.k(g) == job.shard_count(),
        0 < job.shard_size(g) <= job.chunk,
        forall|s: int|
            0 <= s < job.k(g) ==> 0 < (#[trigger] job.shard(16 * g + s)).len() <= job.shard_size(g),
        forall|s: int| 0 <= s < job.k(g) - 1 ==> (#[trigger] job.shard(16 * g + s)).len()
            == job.shard_size(g),
{
    lemma_shard(job, 16 * g);
    lemma_parity_count(job.k(g), job.critical, job.first, job.quality);
    assert forall|s: int| 0 <= s < job.k(g) implies 0 < (#[trigger] job.shard(16 * g + s)).len()
        <= job.shard_size(g) && (s < job.k(g) - 1 ==> job.shard(16 * g + s).len()
        == job.shard_size(g)) by {
        lemma_shard(job, 16 * g + s);
        if job.k(g) > 1 {
            assert(job.shard_size(g) == job.chunk);
        }
    }
}

/// The shards of the first `n` groups take at most four times the room of their data.
proof fn lemma_span(job: SliceJob, n: nat)
    requires
        job.valid(),
        n <= job.group_count(),
    ensures
        job.span(n) <= 4 * job.data.len(),
        n < job.group_count() ==> job.span(n) <= 4 * (16 * n * job.chunk),
    decreases n,
{
    if n > 0 {
        let g = (n - 1) as int;
        let k = job.k(g) as int;
        let m = job.m(g) as int;
        let size = job.shard_size(g) as int;
        let c = job.chunk as int;
        lemma_span(job, g as nat);
        lemma_group(job, g);
        lemma_shard(job, 16 * g + k - 1);
        let start = 16 * g * c;
        let last = (16 * g + k - 1) * c;
        assert(last == start + (k - 1) * c) by (nonlinear_arith)
            requires
                start == 16 * g * c,
                last == (16 * g + k - 1) * c,
        ;
        if k == 1 {
            assert((k + m) * size <= 4 * size) by (nonlinear_arith)
                requires
                    k + m <= 4,
                    size > 0,
            ;
        } else {
            assert(job.shard(16 * g + 0).len() == size);
            lemma_shard(job, 16 * g);
            assert(size == c);
            assert((k + m) * c <= 4 * ((k - 1) * c)) by (nonlinear_arith)
                requires
                    k + m <= 4 * (k - 1),
                    c > 0,
            ;
        }
        if n < job.group_count() {
            assert(16 * n * c == start + 16 * c) by (nonlinear_arith)
                requires
                    n == g + 1,
                    start == 16 * g * c,
            ;
            assert(size == c);
            assert((16 + m) * c <= 64 * c) by (nonlinear_arith)
                requires
                    m <= 7,
                    c > 0,
            ;
        }
    }
}

/// The room of the first `n` groups grows with `n`.
proof fn lemma_span_monotonic(job: SliceJob, a: nat, b: nat)
    requires
        a <= b,
    ensures
        job.span(a) <= job.span(b),
    decreases b,
{
    if a < b {
        lemma_span_monotonic(job, a, (b - 1) as nat);
        assert((job.k(b - 1) + job.m(b - 1)) * job.shard_size(b - 1) >= 0) by (nonlinear_arith);
    }
}

/// Parts of one length add up.
proof fn lemma_concat_len(parts: Seq<Seq<u8>>, size: nat)
    requires
        forall|i: int| 0 <= i < parts.len() ==> (#[trigger] parts[i]).len() == size,
    ensures
        concat(parts).len() == parts.len() * size,
    decreases parts.len(),
{
    if parts.len() > 0 {
        let front = parts.drop_last();
        assert forall|i: int| 0 <= i < front.len() implies (#[trigger] front[i]).len() == size by {
            assert(front[i] == parts[i]);
        }
        lemma_concat_len(front, size);
        assert(parts.len() * size == (parts.len() - 1) * size + size) by (nonlinear_arith)
            requires
                parts.len() > 0,
        ;
    }
}

/// Where the shards of one length stand in their concatenation.
proof fn lemma_concat_at(parts: Seq<Seq<u8>>, size: nat, i: int)
    requires
        forall|j: int| 0 <= j < parts.len() ==> (#[trigger] parts[j]).len() == size,
        0 <= i < parts.len(),
    ensures
        0 <= i * size,
        i * size + size <= concat(parts).len(),
        concat(parts).subrange(i * size, i * size + size) == parts[i],
    decreases parts.len(),
{
    let front = parts.drop_last();
    assert forall|j: int| 0 <= j < front.len() implies (#[trigger] front[j]).len() == size by {
        assert(front[j] == parts[j]);
    }
    lemma_concat_len(front, size);
    assert(0 <= i * size) by (nonlinear_arith)
        requires
            0 <= i,
    ;
    if i == parts.len() - 1 {
        assert(concat(parts).subrange(i * size, i * size + size) =~= parts[i]);
    } else {
        lemma_concat_at(front, size, i);
        assert(concat(parts).subrange(i * size, i * size + size) =~= concat(front).subrange(
            i * size,
            i * size + size,
        ));
    }
}

/// What lies in a buffer stays there when the buffer grows.
proof fn lemma_placed_extends(job: SliceJob, before: Seq<u8>, after: Seq<u8>, x: int, g: int)
    requires
        0 <= x < g,
        before.len() == job.span(g as nat),
        before.len() <= after.len(),
        after.take(before.len() as int) == before,
        job.placed(before, x),
    ensures
        job.placed(after, x),
{
    let size = job.shard_size(x) as int;
    let n = (job.k(x) + job.m(x)) as int;
    lemma_span_monotonic(job, (x + 1) as nat, g as nat);
    assert forall|s: int| 0 <= s < n implies #[trigger] job.group(x)[s] == after.subrange(
        job.span(x as nat) + s * size,
        job.span(x as nat) + s * size + size,
    ) by {
        assert(s * size + size <= n * size) by (nonlinear_arith)
            requires
                s + 1 <= n,
                0 <= size,
        ;
        assert(0 <= s * size) by (nonlinear_arith)
            requires
                0 <= s,
                0 <= size,
        ;
        assert(after.subrange(
            job.span(x as nat) + s * size,
            job.span(x as nat) + s * size + size,
        ) =~= before.subrange(
            job.span(x as nat) + s * size,
            job.span(x as nat) + s * size + size,
        ));
    }
}

impl FecEncoder {
    /// Parity shards for a group of `k` data shards.
    pub fn calculate_m(k: usize, is_critical: bool, is_first: bool, link_quality: LinkQuality) -> (r:
        usize)
        requires
            k * parity_pct(is_critical, is_first, link_quality) + 99 <= usize::MAX,
        ensures
            r == parity_count(k as nat, is_critical, is_first, link_quality),
    {
        let base_pct: usize = if is_critical {
            FEC_M_CRITICAL_PCT
        } else if is_first {
            FEC_M_FIRST_SLICE_PCT
        } else {
            FEC_M_NORMAL_PCT
        };
        let pct: usize = match link_quality {
            LinkQuality::Excellent => base_pct / 2,
            LinkQuality::Normal => base_pct,
            LinkQuality::Degraded => base_pct * 2,
        };
        let m: usize = (k * pct + 99) / 100;
        let min_m: usize = match (is_critical, link_quality) {
            (true, _) => 2,
            (false, LinkQuality::Excellent) => 0,
            (false, _) => if k > 1 {
                1
            } else {
                0
            },
        };
        let m: usize = if m < min_m {
            min_m
        } else {
            m
        };
        let room: usize = 255usize.saturating_sub(k);
        if m < room {
            m
        } else {
            room
        }
    }

    /// Data shard `i`, filled up with zeros to `size` bytes.
    fn padded_shard(data: &[u8], chunk: usize, i: usize, size: usize, Ghost(job): Ghost<SliceJob>) -> (r:
        Vec<u8>)
        requires
            job.valid(),
            data@ == job.data,
            chunk == job.chunk,
            i < job.shard_count(),
            job.shard(i as int).len() <= size,
        ensures
            r@ == job.shard(i as int) + Seq::new(
                (size - job.shard(i as int).len()) as nat,
                |x: int| 0u8,
            ),
    {
        proof {
            lemma_shard(job, i as int);
        }
        let total: usize = data.len();
        let start: usize = i * chunk;
        let left: usize = total - start;
        let len: usize = if left < chunk {
            left
        } else {
            chunk
        };
        let mut v: Vec<u8> = Vec::new();
        v.extend_from_slice(vstd::slice::slice_subrange(data, start, start + len));
        assert(v@ =~= job.shard(i as int));
        while v.len() < size
            invariant
                job.shard(i as int).len() <= v@.len() <= size,
                v@ == job.shard(i as int) + Seq::new(
                    (v@.len() - job.shard(i as int).len()) as nat,
                    |x: int| 0u8,
                ),
            decreases size - v@.len(),
        {
            v.push(0);
            assert(v@ =~= job.shard(i as int) + Seq::new(
                (v@.len() - job.shard(i as int).len()) as nat,
                |x: int| 0u8,
            ));
        }
        v
    }

    /// The shards of group `g`.
    fn group_shards(
        data: &[u8],
        chunk: usize,
        g: usize,
        k: usize,
        m: usize,
        size: usize,
        Ghost(job): Ghost<SliceJob>,
    ) -> (r: Vec<Vec<u8>>)
        requires
            job.valid(),
            data@ == job.data,
            chunk == job.chunk,
            g < job.group_count(),
            16 * job.group_count() <= usize::MAX,
            k == job.k(g as int),
            m == job.m(g as int),
            size == job.shard_size(g as int),
        ensures
            vec_views(r@) == job.group(g as int),
            r@.len() == k + m,
            forall|i: int| 0 <= i < k + m ==> (#[trigger] r@[i])@.len() == size,
    {
        proof {
            lemma_group(job, g as int);
        }
        let mut shards: Vec<Vec<u8>> = Vec::new();
        let mut s: usize = 0;
        while s < k
            invariant
                s <= k,
                k <= 16,
                k == job.k(g as int),
                size == job.shard_size(g as int),
                job.valid(),
                data@ == job.data,
                chunk == job.chunk,
                g < job.group_count(),
                16 * job.group_count() <= usize::MAX,
                16 * g + k <= job.shard_count(),
                forall|x: int|
                    0 <= x < k ==> 0 < (#[trigger] job.shard(16 * g + x)).len() <= size,
                shards@.len() == s,
                forall|x: int| 0 <= x < s ==> (#[trigger] shards@[x])@ == job.padded(g as int, x),
            decreases k - s,
        {
            assert(job.shard(16 * g + s).len() <= size);
            shards.push(Self::padded_shard(data, chunk, FEC_GROUP_K_MAX * g + s, size, Ghost(job)));
            s = s + 1;
        }
        let mut p: usize = 0;
        while p < m
            invariant
                p <= m,
                shards@.len() == k + p,
                k == job.k(g as int),
                forall|x: int| 0 <= x < k ==> (#[trigger] shards@[x])@ == job.padded(g as int, x),
                forall|x: int| k <= x < k + p ==> (#[trigger] shards@[x])@.len() == size,
            decreases m - p,
        {
            let mut zeros: Vec<u8> = Vec::new();
            while zeros.len() < size
                invariant
                    zeros@.len() <= size,
                decreases size - zeros@.len(),
            {
                zeros.push(0);
            }
            shards.push(zeros);
            p = p + 1;
        }
        assert forall|x: int| 0 <= x < k implies (#[trigger] shards@[x])@.len() == size by {
            assert(0 < job.shard(16 * g + x).len() <= size);
        }
        assert(vec_views(shards@).take(k as int) =~= job.data_shards(g as int));
        if m > 0 {
            assert forall|x: int| 0 <= x < k + m implies (#[trigger] vec_views(shards@)[x]).len()
                == size by {
                assert(shards@[x]@.len() == size);
            }
            rs_encode(k, m, &mut shards);
        } else {
            assert(vec_views(shards@) =~= job.data_shards(g as int));
        }
        shards
    }

    /// Appends the shards of group `g` and their entries.
    fn append_group(
        buf: &mut BytesMut,
        metas: &mut Vec<ChunkMeta>,
        shards: &Vec<Vec<u8>>,
        offset: usize,
        lens: (usize, usize),
        g: usize,
        k: usize,
        m: usize,
        Ghost(job): Ghost<SliceJob>,
    )
        requires
            job.valid(),
            g < job.group_count(),
            k == job.k(g as int),
            m == job.m(g as int),
            vec_views(shards@) == job.group(g as int),
            shards@.len() == k + m,
            lens.0 == job.shard_size(g as int),
            lens.1 == job.shard(16 * g + k - 1).len(),
            forall|i: int| 0 <= i < k + m ==> (#[trigger] shards@[i])@.len() == lens.0,
            offset == job.span(g as nat),
            bytes_mut_view(*old(buf)).len() == offset,
            job.span((g + 1) as nat) <= isize::MAX,
            bytes_mut_view(*old(buf)) == job.buffer(g as nat),
            old(metas)@ == job.metas(g as nat),
        ensures
            bytes_mut_view(*final(buf)) == job.buffer((g + 1) as nat),
            bytes_mut_view(*final(buf)).len() == job.span((g + 1) as nat),
            final(metas)@ == job.metas((g + 1) as nat),
            job.placed(bytes_mut_view(*final(buf)), g as int),
            bytes_mut_view(*final(buf)).take(job.span(g as nat) as int) == bytes_mut_view(
                *old(buf),
            ),
    {
        let size: usize = lens.0;
        let ghost before = bytes_mut_view(*buf);
        let ghost metas_before = metas@;
        let ghost parts = vec_views(shards@);
        proof {
            lemma_group(job, g as int);
        }
        let mut s: usize = 0;
        while s < k + m
            invariant
                s <= k + m,
                job.valid(),
                g < job.group_count(),
                1 <= k <= 16,
                m <= 7,
                k == job.k(g as int),
                m == job.m(g as int),
                parts == vec_views(shards@),
                shards@.len() == k + m,
                size == lens.0,
                lens.0 == job.shard_size(g as int),
                lens.1 == job.shard(16 * g + k - 1).len(),
                forall|i: int| 0 <= i < k + m ==> (#[trigger] shards@[i])@.len() == size,
                forall|x: int|
                    0 <= x < job.k(g as int) - 1 ==> (#[trigger] job.shard(16 * g + x)).len()
                        == job.shard_size(g as int),
                offset == job.span(g as nat),
                before.len() == offset,
                offset + (k + m) * size <= isize::MAX,
                bytes_mut_view(*buf) == before + concat(parts.take(s as int)),
                metas@ == metas_before + Seq::new(s as nat, |x: int| job.meta(g as int, x)),
            decreases k + m - s,
        {
            proof {
                assert(parts.take(s + 1).drop_last() =~= parts.take(s as int));
                assert(parts.take(s + 1).last() == shards@[s as int]@);
                assert forall|i: int| 0 <= i < parts.take(s as int).len() implies (
                #[trigger] parts.take(s as int)[i]).len() == size by {
                    assert(parts.take(s as int)[i] == shards@[i]@);
                }
                lemma_concat_len(parts.take(s as int), size as nat);
                assert(s * size + size <= (k + m) * size) by (nonlinear_arith)
                    requires
                        s + 1 <= k + m,
                ;
                assert(s * size >= 0) by (nonlinear_arith);
            }
            put_slice(buf, shards[s].as_slice());
            let len: usize = if s + 1 == k {
                lens.1
            } else {
                size
            };
            proof {
                if s < k - 1 {
                    assert(job.shard(16 * g + s).len() == size);
                }
                assert(len == job.payload_len(g as int, s as int));
            }
            metas.push(
                ChunkMeta {
                    offset: offset + s * size,
                    payload_len: (len % 0x1_0000) as u16,
                    group_idx: (g % 256) as u8,
                    shard_idx: s as u8,
                    k: k as u8,
                    m: m as u8,
                },
            );
            proof {
                assert(metas@ =~= metas_before + Seq::new(
                    (s + 1) as nat,
                    |x: int| job.meta(g as int, x),
                ));
                assert(bytes_mut_view(*buf) =~= before + concat(parts.take(s + 1)));
            }
            s = s + 1;
        }
        proof {
            assert(parts.take(s as int) =~= parts);
            assert forall|i: int| 0 <= i < parts.len() implies (#[trigger] parts[i]).len() == size by {
                assert(parts[i] == shards@[i]@);
            }
            lemma_concat_len(parts, size as nat);
            let whole = bytes_mut_view(*buf);
            assert(whole.take(offset as int) =~= before);
            assert forall|x: int| 0 <= x < k + m implies #[trigger] job.group(g as int)[x]
                == whole.subrange(offset + x * size, offset + x * size + size) by {
                lemma_concat_at(parts, size as nat, x);
                assert(whole.subrange(offset + x * size, offset + x * size + size) =~= concat(
                    parts,
                ).subrange(x * size, x * size + size));
            }
            assert(parts[0].len() == size);
        }
    }

    /// Splits `data` into shards of `max_chunk_data` bytes at most, puts the shards into
    /// groups with parity, and lists them in sending order. The number of groups comes
    /// second.
    pub fn encode(
        frame_id: u64,
        slice_idx: u8,
        total_slices: u8,
        data: &[u8],
        max_chunk_data: usize,
        flags: u8,
        link_quality: LinkQuality,
    ) -> (r: (EncodedSlice, u8))
        requires
            data@.len() <= isize::MAX / 4,
        ensures
            ({
                let job = slice_job(data@, max_chunk_data, flags, slice_idx, link_quality);
                &&& r.0.frame_id == frame_id
                &&& bytes_view(r.0.all_shards_data) == job.buffer(job.group_count())
                &&& bytes_view(r.0.all_shards_data).len() == job.span(job.group_count())
                &&& r.0.chunks_meta@ == job.sent()
                &&& r.1 == job.group_count() % 256
                &&& forall|g: int|
                    0 <= g < job.group_count() ==> #[trigger] job.placed(
                        bytes_view(r.0.all_shards_data),
                        g,
                    )
            }),
    {
        let ghost job = slice_job(data@, max_chunk_data, flags, slice_idx, link_quality);
        if data.len() == 0 || max_chunk_data == 0 {
            assert(interleaved(job.metas(0), 0) =~= Seq::empty());
            return (
                EncodedSlice {
                    frame_id,
                    all_shards_data: bytes_empty(),
                    chunks_meta: Vec::new(),
                },
                0,
            );
        }
        let is_critical: bool = (flags & 2) != 0;
        let is_first_slice: bool = slice_idx == 0;
        let len: usize = data.len();
        let n: usize = (len - 1) / max_chunk_data + 1;
        proof {
            assert((len - 1) / (max_chunk_data as int) <= len - 1) by (nonlinear_arith)
                requires
                    len >= 1,
                    max_chunk_data >= 1,
            ;
        }
        let groups: usize = (n - 1) / FEC_GROUP_K_MAX + 1;
        assert(groups == job.group_count());
        let mut buf: BytesMut = bytes_mut_with_capacity(len);
        let mut metas: Vec<ChunkMeta> = Vec::new();
        let mut offset: usize = 0;
        let mut g: usize = 0;
        while g < groups
            invariant
                g <= groups,
                len == data@.len(),
                len <= isize::MAX / 4,
                len > 0,
                max_chunk_data > 0,
                job == slice_job(data@, max_chunk_data, flags, slice_idx, link_quality),
                is_critical == job.critical,
                is_first_slice == job.first,
                link_quality == job.quality,
                job.valid(),
                n == job.shard_count(),
                n <= len,
                groups == job.group_count(),
                groups <= n,
                16 * (groups - 1) < n,
                offset == job.span(g as nat),
                bytes_mut_view(buf).len() == offset,
                bytes_mut_view(buf) == job.buffer(g as nat),
                metas@ == job.metas(g as nat),
                forall|x: int| 0 <= x < g ==> #[trigger] job.placed(bytes_mut_view(buf), x),
            decreases groups - g,
        {
            let ghost before = bytes_mut_view(buf);
            proof {
                lemma_group(job, g as int);
                lemma_shard(job, 16 * g);
                lemma_span(job, (g + 1) as nat);
            }
            let first: usize = g * FEC_GROUP_K_MAX;
            let left: usize = n - first;
            let k: usize = if left < FEC_GROUP_K_MAX {
                left
            } else {
                FEC_GROUP_K_MAX
            };
            let m: usize = Self::calculate_m(k, is_critical, is_first_slice, link_quality);
            let rest: usize = len - first * max_chunk_data;
            let size: usize = if rest < max_chunk_data {
                rest
            } else {
                max_chunk_data
            };
            proof {
                lemma_shard(job, 16 * g + k - 1);
            }
            let last_rest: usize = len - (first + (k - 1)) * max_chunk_data;
            let last: usize = if last_rest < max_chunk_data {
                last_rest
            } else {
                max_chunk_data
            };
            let shards: Vec<Vec<u8>> = Self::group_shards(
                data,
                max_chunk_data,
                g,
                k,
                m,
                size,
                Ghost(job),
            );
            Self::append_group(
                &mut buf,
                &mut metas,
                &shards,
                offset,
                (size, last),
                g,
                k,
                m,
                Ghost(job),
            );
            proof {
                assert forall|x: int| 0 <= x < g implies #[trigger] job.placed(
                    bytes_mut_view(buf),
                    x,
                ) by {
                    assert(job.placed(before, x));
                    lemma_placed_extends(job, before, bytes_mut_view(buf), x, g as int);
                }
            }
            offset = offset + (k + m) * size;
            g = g + 1;
        }
        let total_groups: u8 = (groups % 256) as u8;
        let sent: Vec<ChunkMeta> = if link_quality == LinkQuality::Excellent {
            metas
        } else {
            proof {
                lemma_metas_small(job, groups as nat);
            }
            interleave(&metas, total_groups)
        };
        (EncodedSlice { frame_id, all_shards_data: freeze(buf), chunks_meta: sent }, total_groups)
    }
}

/// The job that the arguments of [`FecEncoder::encode`] describe: bit 1 of `flags` marks
/// a frame that must arrive.
pub open spec fn slice_job(
    data: Seq<u8>,
    max_chunk_data: usize,
    flags: u8,
    slice_idx: u8,
    quality: LinkQuality,
) -> SliceJob {
    SliceJob {
        data,
        chunk: max_chunk_data as nat,
        critical: (flags & 2) != 0,
        first: slice_idx == 0,
        quality,
    }
}

/// Every entry names a group whose shards can be numbered.
proof fn lemma_metas_small(job: SliceJob, n: nat)
    requires
        job.valid(),
        n <= job.group_count(),
    ensures
        forall|i: int|
            0 <= i < job.metas(n).len() ==> (#[trigger] job.metas(n)[i]).k + job.metas(n)[i].m
                <= 255,
    decreases n,
{
    if n > 0 {
        let before = job.metas((n - 1) as nat);
        lemma_metas_small(job, (n - 1) as nat);
        lemma_group(job, n - 1);
        assert forall|i: int| 0 <= i < job.metas(n).len() implies (#[trigger] job.metas(n)[i]).k
            + job.metas(n)[i].m <= 255 by {
            if i < before.len() {
                assert(job.metas(n)[i] == before[i]);
            } else {
                assert(job.metas(n)[i] == job.meta(n - 1, i - before.len()));
            }
        }
    }
}

/// Shard counts of the first entry of group `g`.
fn find_group_km(metas: &Vec<ChunkMeta>, g: u8) -> (r: (u8, u8))
    ensures
        r == group_km(metas@, g as int),
        r == (0u8, 0u8) || exists|i: int|
            0 <= i < metas@.len() && r == (metas@[i].k, (#[trigger] metas@[i]).m),
{
    let mut i: usize = 0;
    assert(metas@.skip(0) =~= metas@);
    while i < metas.len()
        invariant
            i <= metas@.len(),
            group_km(metas@, g as int) == group_km(metas@.skip(i as int), g as int),
        decreases metas@.len() - i,
    {
        if metas[i].group_idx == g {
            return (metas[i].k, metas[i].m);
        }
        assert(metas@.skip(i as int).drop_first() =~= metas@.skip(i + 1));
        i = i + 1;
    }
    (0, 0)
}

/// The last entry of shard `s` of group `g`.
fn find_meta(metas: &Vec<ChunkMeta>, g: u8, s: u8) -> (r: Option<ChunkMeta>)
    ensures
        match r {
            Some(c) => meta_of(metas@, g as int, s as int) == seq![c],
            None => meta_of(metas@, g as int, s as int) == Seq::<ChunkMeta>::empty(),
        },
{
    let mut i: usize = metas.len();
    assert(metas@.take(i as int) =~= metas@);
    while i > 0
        invariant
            i <= metas@.len(),
            meta_of(metas@, g as int, s as int) == meta_of(
                metas@.take(i as int),
                g as int,
                s as int,
            ),
        decreases i,
    {
        assert(metas@.take(i as int).drop_last() =~= metas@.take(i - 1));
        if metas[i - 1].group_idx == g && metas[i - 1].shard_idx == s {
            return Some(metas[i - 1]);
        }
        i = i - 1;
    }
    None
}

/// The entries, one shard of each of the first `n` groups after the other.
pub fn interleave(metas: &Vec<ChunkMeta>, n: u8) -> (r: Vec<ChunkMeta>)
    requires
        forall|i: int|
            0 <= i < metas@.len() ==> (#[trigger] metas@[i]).k + metas@[i].m <= 255,
    ensures
        r@ == interleaved(metas@, n as nat),
{
    let mut km: Vec<(u8, u8)> = Vec::new();
    let mut most: u8 = 0;
    let mut g: u8 = 0;
    while g < n
        invariant
            g <= n,
            forall|i: int|
                0 <= i < metas@.len() ==> (#[trigger] metas@[i]).k + metas@[i].m <= 255,
            km@.len() == g,
            forall|x: int| 0 <= x < g ==> #[trigger] km@[x] == group_km(metas@, x),
            forall|x: int| 0 <= x < g ==> (#[trigger] km@[x]).0 + km@[x].1 <= 255,
            most == round_count(metas@, g as nat),
        decreases n - g,
    {
        let (k, m) = find_group_km(metas, g);
        if most < k {
            most = k;
        }
        if most < m {
            most = m;
        }
        km.push((k, m));
        g = g + 1;
    }
    let mut out: Vec<ChunkMeta> = Vec::new();
    let mut round: u8 = 0;
    while round < most
        invariant
            round <= most,
            km@.len() == n,
            forall|x: int| 0 <= x < n ==> #[trigger] km@[x] == group_km(metas@, x),
            forall|x: int| 0 <= x < n ==> (#[trigger] km@[x]).0 + km@[x].1 <= 255,
            out@ == rounds(metas@, round as nat, n as nat),
        decreases most - round,
    {
        let ghost start = out@;
        let mut g: u8 = 0;
        while g < n
            invariant
                g <= n,
                km@.len() == n,
                forall|x: int| 0 <= x < n ==> #[trigger] km@[x] == group_km(metas@, x),
                out@ == start + data_round(metas@, round as int, g as nat),
            decreases n - g,
        {
            let (k, _m) = km[g as usize];
            if round < k {
                if let Some(c) = find_meta(metas, g, round) {
                    out.push(c);
                }
            }
            g = g + 1;
            assert(out@ =~= start + data_round(metas@, round as int, g as nat));
        }
        let ghost middle = out@;
        let mut g: u8 = 0;
        while g < n
            invariant
                g <= n,
                km@.len() == n,
                forall|x: int| 0 <= x < n ==> #[trigger] km@[x] == group_km(metas@, x),
                forall|x: int| 0 <= x < n ==> (#[trigger] km@[x]).0 + km@[x].1 <= 255,
                out@ == middle + parity_round(metas@, round as int, g as nat),
            decreases n - g,
        {
            let (k, m) = km[g as usize];
            if round < m {
                if let Some(c) = find_meta(metas, g, k + round) {
                    out.push(c);
                }
            }
            g = g + 1;
            assert(out@ =~= middle + parity_round(metas@, round as int, g as nat));
        }
        round = round + 1;
    }
    out
}

} // verus!
