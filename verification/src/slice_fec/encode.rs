//! Cutting of a slice into shards of one length, and their parity.
use crate::buffer::bytes_of;
use crate::fec::codec::{rs_encode, rs_parity, uniform, vec_views};
use crate::packet::{ChunkModel, DatagramChunk, TYPE_VIDEO};
use vstd::arithmetic::div_mod::lemma_fundamental_div_mod;
use vstd::prelude::*;

verus! {

/// Most parity shards of a slice.
pub const MAX_PARITY: usize = 4;

pub struct FecEncoder;

/// How many shards of `size` bytes it takes to hold `len` bytes.
pub open spec fn shards_for(len: nat, size: nat) -> nat {
    (len + size - 1) as nat / size
}

/// A slice that is to be sent: its bytes, the most bytes that a shard should hold, and
/// whether it gets more parity.
pub struct SliceCut {
    pub data: Seq<u8>,
    pub max: nat,
    pub strong: bool,
}

impl SliceCut {
    /// Number of data shards, which is written in one byte.
    pub open spec fn k(self) -> nat {
        shards_for(self.data.len(), self.max) % 256
    }

    /// Number of parity shards.
    pub open spec fn m(self) -> nat {
        let wanted = if self.strong {
            self.k()
        } else {
            self.k() / 2 + 1
        };
        let room = if self.k() + wanted > 255 {
            (255 - self.k()) as nat
        } else {
            wanted
        };
        if room < MAX_PARITY {
            room
        } else {
            MAX_PARITY as nat
        }
    }

    /// The length of each shard.
    pub open spec fn size(self) -> nat {
        shards_for(self.data.len(), self.k())
    }

    /// There is something to send.
    pub open spec fn some(self) -> bool {
        self.data.len() > 0 && self.max > 0
    }

    /// There is a code for so many shards, and they hold the slice. Where the number of
    /// shards fits in its byte the latter is always so.
    pub open spec fn codable(self) -> bool {
        &&& 1 <= self.k() <= 254
        &&& shards_for(self.data.len(), self.size()) == self.k()
    }

    /// The bytes of the slice in data shard `i`.
    pub open spec fn raw(self, i: int) -> Seq<u8> {
        let start = i * self.size();
        let end = start + self.size();
        self.data.subrange(
            start,
            if end < self.data.len() {
                end
            } else {
                self.data.len() as int
            },
        )
    }

    /// Data shard `i`, filled up with zeros.
    pub open spec fn padded(self, i: int) -> Seq<u8> {
        self.raw(i) + Seq::new((self.size() - self.raw(i).len()) as nat, |j: int| 0u8)
    }

    /// The data shards.
    pub open spec fn data_shards(self) -> Seq<Seq<u8>> {
        Seq::new(self.k(), |i: int| self.padded(i))
    }

    /// All shards: data, then parity.
    pub open spec fn word(self) -> Seq<Seq<u8>> {
        self.data_shards() + rs_parity(self.data_shards(), self.m())
    }

    /// The length of shard `i` without its padding.
    pub open spec fn payload_len(self, i: int) -> nat {
        if i < self.k() {
            self.raw(i).len()
        } else {
            self.size()
        }
    }

    /// The datagram with shard `i`.
    pub open spec fn chunk(
        self,
        frame_id: u64,
        slice_idx: u8,
        total_slices: u8,
        flags: u8,
        i: int,
    ) -> ChunkModel {
        ChunkModel {
            frame_id,
            slice_idx,
            total_slices,
            shard_idx: i as u8,
            k: self.k() as u8,
            m: self.m() as u8,
            payload_len: (self.payload_len(i) % 0x1_0000) as u16,
            packet_type: TYPE_VIDEO,
            flags,
            group_idx: 0,
            total_groups: 1,
            data: self.word()[i],
        }
    }
}

/// A slice of a frame that must arrive, and the first one of any frame, get more parity.
pub open spec fn cut(data: Seq<u8>, max: nat, slice_idx: u8, flags: u8) -> SliceCut {
    SliceCut { data, max, strong: flags & 2 != 0 || slice_idx == 0 }
}

/// So many shards of `size` bytes hold `len` bytes, and no fewer.
pub proof fn lemma_shards_for(len: nat, size: nat)
    requires
        len > 0,
        size > 0,
    ensures
        shards_for(len, size) >= 1,
        (shards_for(len, size) - 1) * size < len,
        len <= shards_for(len, size) * size,
{
    let n = shards_for(len, size) as int;
    let d = size as int;
    lemma_fundamental_div_mod(len + size - 1, d);
    assert(d * n == n * d) by (nonlinear_arith);
    assert((n - 1) * d == n * d - d) by (nonlinear_arith);
    if n < 1 {
        assert(n * d <= 0) by (nonlinear_arith)
            requires
                n < 1,
                d > 0,
        ;
    }
}

/// Where the shards of a slice begin and end.
pub proof fn lemma_raw(c: SliceCut, i: int)
    requires
        c.data.len() > 0,
        c.codable(),
        0 <= i < c.k(),
    ensures
        c.size() > 0,
        0 <= i * c.size() < c.data.len(),
        i < c.k() - 1 ==> (i + 1) * c.size() <= c.data.len(),
        1 <= c.raw(i).len() <= c.size(),
        i < c.k() - 1 ==> c.raw(i).len() == c.size(),
        c.padded(i).len() == c.size(),
{
    let k = c.k() as int;
    let size = c.size() as int;
    lemma_shards_for(c.data.len(), c.k());
    lemma_shards_for(c.data.len(), c.size());
    assert((i + 1) * size == i * size + size) by (nonlinear_arith);
    assert(0 <= i * size <= (k - 1) * size) by (nonlinear_arith)
        requires
            0 <= i <= k - 1,
            size >= 0,
    ;
    if i < k - 1 {
        assert((i + 1) * size <= (k - 1) * size) by (nonlinear_arith)
            requires
                i + 1 <= k - 1,
                size >= 0,
        ;
    }
}

/// Where the number of shards fits in its byte the shards hold the slice.
pub proof fn law_shards_hold_the_slice(c: SliceCut)
    requires
        c.some(),
        shards_for(c.data.len(), c.max) <= 254,
    ensures
        c.codable(),
        c.size() <= c.max,
{
    let len = c.data.len() as int;
    let k = c.k() as int;
    let max = c.max as int;
    lemma_shards_for(c.data.len(), c.max);
    lemma_shards_for(c.data.len(), c.k());
    let size = c.size() as int;
    assert(size <= max) by {
        if size > max {
            assert((size - 1) * k >= max * k) by (nonlinear_arith)
                requires
                    size - 1 >= max,
                    k >= 0,
            ;
            assert(max * k == k * max) by (nonlinear_arith);
        }
    }
    assert((k - 1) * size <= (k - 1) * max) by (nonlinear_arith)
        requires
            k >= 1,
            size <= max,
    ;
    assert(size * k == k * size) by (nonlinear_arith);
    lemma_shards_for(c.data.len(), c.size());
    let n = shards_for(c.data.len(), c.size()) as int;
    assert(n == k) by {
        if n < k {
            assert(n * size <= (k - 1) * size) by (nonlinear_arith)
                requires
                    n <= k - 1,
                    size >= 0,
            ;
        }
        if n > k {
            assert((n - 1) * size >= k * size) by (nonlinear_arith)
                requires
                    n - 1 >= k,
                    size >= 0,
            ;
        }
    }
}

impl FecEncoder {
    /// The data shard from `start` on, filled up.
    fn shard(data: &[u8], start: usize, size: usize) -> (r: Vec<u8>)
        requires
            start <= data@.len(),
        ensures
            ({
                let end = if start + size < data@.len() {
                    start + size
                } else {
                    data@.len() as int
                };
                let raw = data@.subrange(start as int, end);
                r@ == raw + Seq::new((size - raw.len()) as nat, |j: int| 0u8)
            }),
    {
        let left: usize = data.len() - start;
        let take: usize = if size < left {
            size
        } else {
            left
        };
        let part = vstd::slice::slice_subrange(data, start, start + take);
        let mut s: Vec<u8> = Vec::new();
        s.extend_from_slice(part);
        let ghost raw = data@.subrange(start as int, start + take);
        assert(s@ =~= raw);
        while s.len() < size
            invariant
                raw.len() <= s@.len() <= size,
                s@ == raw + Seq::new((s@.len() - raw.len()) as nat, |j: int| 0u8),
            decreases size - s@.len(),
        {
            let ghost before = s@;
            s.push(0);
            assert(s@ =~= raw + Seq::new((s@.len() - raw.len()) as nat, |j: int| 0u8));
        }
        s
    }

    /// Cuts a slice into shards of one length, works out their parity and puts each into a
    /// datagram. There is no datagram where there is nothing to send.
    pub fn encode_slice(
        frame_id: u64,
        slice_idx: u8,
        total_slices: u8,
        data: &[u8],
        max_chunk_data: usize,
        flags: u8,
    ) -> (r: Vec<DatagramChunk>)
        requires
            data@.len() + max_chunk_data <= usize::MAX,
            data@.len() + 255 <= usize::MAX,
            ({
                let c = cut(data@, max_chunk_data as nat, slice_idx, flags);
                c.some() ==> c.codable()
            }),
        ensures
            ({
                let c = cut(data@, max_chunk_data as nat, slice_idx, flags);
                if c.some() {
                    &&& r@.len() == c.k() + c.m()
                    &&& c.word().len() == c.k() + c.m()
                    &&& uniform(c.word())
                    &&& forall|i: int|
                        0 <= i < r@.len() ==> (#[trigger] r@[i])@ == c.chunk(
                            frame_id,
                            slice_idx,
                            total_slices,
                            flags,
                            i,
                        )
                } else {
                    r@.len() == 0
                }
            }),
    {
        let ghost c = cut(data@, max_chunk_data as nat, slice_idx, flags);
        let mut out: Vec<DatagramChunk> = Vec::new();
        if data.len() == 0 || max_chunk_data == 0 {
            return out;
        }
        let k: usize = (data.len() + max_chunk_data - 1) / max_chunk_data % 256;
        assert(k == c.k());
        let strong: bool = flags & 2 != 0 || slice_idx == 0;
        let wanted: usize = if strong {
            k
        } else {
            k / 2 + 1
        };
        let room: usize = if k + wanted > 255 {
            255 - k
        } else {
            wanted
        };
        let m: usize = if room < MAX_PARITY {
            room
        } else {
            MAX_PARITY
        };
        assert(m == c.m());
        let size: usize = (data.len() + k - 1) / k;
        assert(size == c.size());
        let mut shards: Vec<Vec<u8>> = Vec::new();
        let mut i: usize = 0;
        while i < k
            invariant
                c == cut(data@, max_chunk_data as nat, slice_idx, flags),
                c.some(),
                c.codable(),
                i <= k == c.k(),
                size == c.size(),
                data@.len() <= usize::MAX,
                shards@.len() == i,
                forall|j: int| 0 <= j < i ==> (#[trigger] shards@[j])@ == c.padded(j),
            decreases k - i,
        {
            proof {
                lemma_raw(c, i as int);
            }
            shards.push(Self::shard(data, i * size, size));
            assert(shards@[i as int]@ == c.padded(i as int));
            i = i + 1;
        }
        let mut j: usize = 0;
        while j < m
            invariant
                c == cut(data@, max_chunk_data as nat, slice_idx, flags),
                c.some(),
                c.codable(),
                k == c.k(),
                j <= m <= 4,
                size == c.size(),
                shards@.len() == k + j,
                forall|x: int| 0 <= x < k ==> (#[trigger] shards@[x])@ == c.padded(x),
                forall|x: int| k <= x < k + j ==> (#[trigger] shards@[x])@.len() == size,
            decreases m - j,
        {
            let zeros: Vec<u8> = Self::shard(&[], 0, size);
            shards.push(zeros);
            j = j + 1;
        }
        proof {
            assert forall|x: int| 0 <= x < k implies (#[trigger] shards@[x])@.len() == size by {
                lemma_raw(c, x);
            }
            lemma_raw(c, 0);
            assert(vec_views(shards@)[0].len() == size);
            assert(vec_views(shards@).take(k as int) =~= c.data_shards());
        }
        rs_encode(k, m, &mut shards);
        assert(vec_views(shards@) == c.word());
        proof {
            assert(c.word().len() == k + m);
            assert forall|x: int| 0 <= x < k + m implies (#[trigger] c.word()[x]).len() == size by {
                assert(vec_views(shards@)[x] == shards@[x]@);
            }
            assert(uniform(c.word()));
        }
        let mut n: usize = 0;
        while n < k + m
            invariant
                c == cut(data@, max_chunk_data as nat, slice_idx, flags),
                c.some(),
                c.codable(),
                k == c.k(),
                m == c.m(),
                m <= 4,
                size == c.size(),
                data@.len() <= usize::MAX,
                n <= k + m,
                shards@.len() == k + m,
                vec_views(shards@) == c.word(),
                c.word().len() == k + m,
                out@.len() == n,
                forall|x: int|
                    0 <= x < n ==> (#[trigger] out@[x])@ == c.chunk(
                        frame_id,
                        slice_idx,
                        total_slices,
                        flags,
                        x,
                    ),
            decreases k + m - n,
        {
            let payload_len: usize = if n < k {
                proof {
                    lemma_raw(c, n as int);
                }
                let left: usize = data.len() - n * size;
                if size < left {
                    size
                } else {
                    left
                }
            } else {
                size
            };
            assert(payload_len == c.payload_len(n as int));
            let ghost before = out@;
            let mut content: Vec<u8> = Vec::new();
            content.extend_from_slice(shards[n].as_slice());
            assert(vec_views(shards@)[n as int] == shards@[n as int]@);
            assert(content@ =~= c.word()[n as int]);
            let chunk = DatagramChunk {
                frame_id,
                slice_idx,
                total_slices,
                shard_idx: n as u8,
                k: k as u8,
                m: m as u8,
                payload_len: (payload_len % 0x1_0000) as u16,
                packet_type: TYPE_VIDEO,
                flags,
                group_idx: 0,
                total_groups: 1,
                data: bytes_of(content),
            };
            assert(chunk@ == c.chunk(frame_id, slice_idx, total_slices, flags, n as int));
            out.push(chunk);
            n = n + 1;
        }
        out
    }
}

} // verus!
