//! Laws that tie the encoder, the decoder and the sending order together.
use crate::fec::codec::all_present;
use crate::fec::decode::{joined, trimmed};
use crate::fec::UNKNOWN_LEN;
use crate::fec::encode::{
    data_round, group_km, lemma_group, lemma_shard, meta_of, parity_count, parity_pct, parity_round,
    round_count, rounds, ChunkMeta, LinkQuality, SliceJob, FEC_GROUP_K_MAX,
};
use vstd::prelude::*;

verus! {

/// The payload lengths that the headers of group `g` announce for its data shards.
pub open spec fn announced_lens(job: SliceJob, g: int) -> Seq<u16> {
    Seq::new(job.k(g), |s: int| job.meta(g, s).payload_len)
}

/// What group `g` gives when its data shards are there.
pub open spec fn group_payload(job: SliceJob, g: int) -> Seq<u8> {
    joined(all_present(job.data_shards(g)), announced_lens(job, g), job.k(g))
}

/// What the first `n` groups give, one behind the other.
pub open spec fn slice_payload(job: SliceJob, n: nat) -> Seq<u8>
    decreases n,
{
    if n == 0 {
        Seq::empty()
    } else {
        slice_payload(job, (n - 1) as nat) + group_payload(job, n - 1)
    }
}

/// The first `n` data shards of group `g` give back the data that they were cut from.
proof fn lemma_group_prefix(job: SliceJob, g: int, n: nat)
    requires
        job.valid(),
        job.chunk <= 0xffff,
        0 <= g < job.group_count(),
        0 < n <= job.k(g),
    ensures
        0 <= 16 * g * job.chunk < job.data.len(),
        ({
            let end = (16 * g + n) * job.chunk;
            joined(all_present(job.data_shards(g)), announced_lens(job, g), n)
                == job.data.subrange(
                16 * g * job.chunk,
                if end < job.data.len() {
                    end
                } else {
                    job.data.len() as int
                },
            )
        }),
    decreases n,
{
    let shards = all_present(job.data_shards(g));
    let lens = announced_lens(job, g);
    let c = job.chunk as int;
    lemma_group(job, g);
    let i = 16 * g + n - 1;
    lemma_shard(job, 16 * g);
    lemma_shard(job, i);
    assert(job.shard(16 * g + (n - 1)).len() <= job.shard_size(g));
    assert(lens[n - 1] == job.shard(i).len());
    assert(trimmed(shards[n - 1]->0, lens[n - 1]) =~= job.shard(i));
    assert((16 * g + n) * c == i * c + c) by (nonlinear_arith)
        requires
            i == 16 * g + n - 1,
    ;
    let end = (16 * g + n) * c;
    let stop = if end < job.data.len() {
        end
    } else {
        job.data.len() as int
    };
    if n == 1 {
        assert(joined(shards, lens, 0) =~= Seq::empty());
        assert(joined(shards, lens, n) =~= job.shard(i));
        assert(i * c == 16 * g * c) by (nonlinear_arith)
            requires
                i == 16 * g,
        ;
    } else {
        lemma_group_prefix(job, g, (n - 1) as nat);
        assert((16 * g + (n - 1) as nat) * c == i * c);
        assert(16 * g * c <= i * c) by (nonlinear_arith)
            requires
                16 * g <= i,
                c > 0,
        ;
        assert(joined(shards, lens, n) =~= job.data.subrange(16 * g * c, stop));
    }
}

/// A slice whose groups are all recovered is the slice that was encoded: the payloads of
/// the groups, one behind the other, are its data. A shard's length must fit the header
/// field that announces it.
pub proof fn law_slice_recovers(job: SliceJob)
    requires
        job.valid(),
        job.chunk <= 0xffff,
    ensures
        slice_payload(job, job.group_count()) == job.data,
{
    lemma_slice_prefix(job, job.group_count());
    let last = job.group_count() - 1;
    lemma_group(job, last);
    lemma_shard(job, job.shard_count() - 1);
    assert(16 * job.group_count() * job.chunk >= job.data.len()) by (nonlinear_arith)
        requires
            job.shard_count() * job.chunk >= job.data.len(),
            16 * job.group_count() >= job.shard_count(),
    ;
    assert(slice_payload(job, job.group_count()) =~= job.data);
}

proof fn lemma_slice_prefix(job: SliceJob, n: nat)
    requires
        job.valid(),
        job.chunk <= 0xffff,
        n <= job.group_count(),
    ensures
        slice_payload(job, n) == job.data.take(
            if 16 * n * job.chunk < job.data.len() {
                (16 * n * job.chunk) as int
            } else {
                job.data.len() as int
            },
        ),
    decreases n,
{
    if n > 0 {
        let g = n - 1;
        let c = job.chunk as int;
        lemma_slice_prefix(job, g as nat);
        lemma_group(job, g);
        lemma_group_prefix(job, g, job.k(g));
        lemma_shard(job, 16 * g + job.k(g) - 1);
        assert(16 * g * c + 16 * c == 16 * n * c) by (nonlinear_arith)
            requires
                n == g + 1,
        ;
        if job.k(g) < 16 {
            assert((16 * g + job.k(g)) * c <= 16 * n * c) by (nonlinear_arith)
                requires
                    16 * g + job.k(g) <= 16 * n,
                    c > 0,
            ;
        } else {
            assert((16 * g + 16) * c == 16 * n * c) by (nonlinear_arith)
                requires
                    n == g + 1,
            ;
        }
        let stop = if 16 * n * c < job.data.len() {
            16 * n * c
        } else {
            job.data.len() as int
        };
        assert(slice_payload(job, n) =~= job.data.take(stop));
    } else {
        assert(16 * n * job.chunk == 0) by (nonlinear_arith)
            requires
                n == 0,
        ;
        assert(slice_payload(job, 0) =~= job.data.take(0));
    }
}

/// `got` begins with `data` and holds nothing but zeros behind it.
pub open spec fn extends_by_zeros(got: Seq<u8>, data: Seq<u8>) -> bool {
    &&& got.len() >= data.len()
    &&& got.take(data.len() as int) == data
    &&& forall|i: int| data.len() <= i < got.len() ==> (#[trigger] got[i]) == 0
}

/// The lengths of the data shards of group `g`, as far as headers have told them.
pub open spec fn lens_of(job: SliceJob, g: int, lens: Seq<u16>) -> bool {
    &&& lens.len() == job.k(g)
    &&& forall|i: int|
        0 <= i < job.k(g) ==> (#[trigger] lens[i]) == announced_lens(job, g)[i] || lens[i]
            == UNKNOWN_LEN
}

/// Where a length is not known the whole shard counts, which makes a difference in the last
/// shard of a slice alone.
proof fn lemma_group_bytes(job: SliceJob, g: int, lens: Seq<u16>, n: nat)
    requires
        job.valid(),
        job.chunk <= 0xffff,
        0 <= g < job.group_count(),
        lens_of(job, g, lens),
        n <= job.k(g),
    ensures
        ({
            let shards = all_present(job.data_shards(g));
            let got = joined(shards, lens, n);
            let told_bytes = joined(shards, announced_lens(job, g), n);
            &&& extends_by_zeros(got, told_bytes)
            &&& n < job.k(g) || g + 1 < job.group_count() ==> got == told_bytes
        }),
    decreases n,
{
    let shards = all_present(job.data_shards(g));
    let told = announced_lens(job, g);
    if n == 0 {
        assert(joined(shards, lens, 0).take(0) =~= joined(shards, told, 0));
    } else {
        let i = n - 1;
        lemma_group_bytes(job, g, lens, i as nat);
        lemma_group(job, g);
        lemma_shard(job, 16 * g + i);
        lemma_shard(job, 16 * g);
        let raw = job.shard(16 * g + i);
        let front = joined(shards, told, i as nat);
        let part = trimmed(shards[i]->0, lens[i]);
        assert(shards[i] == Some(job.padded(g, i)));
        assert(told[i] == raw.len());
        assert(trimmed(shards[i]->0, told[i]) =~= raw);
        assert(joined(shards, lens, n) == front + part);
        if lens[i] == told[i] {
            assert(part =~= raw);
        } else {
            assert(part =~= job.padded(g, i));
        }
        let got = front + part;
        let whole = front + raw;
        assert(got.take(whole.len() as int) =~= whole);
        assert forall|x: int| whole.len() <= x < got.len() implies (#[trigger] got[x]) == 0 by {
            assert(got[x] == part[x - front.len()]);
        }
        if n < job.k(g) || g + 1 < job.group_count() {
            assert(raw.len() == job.shard_size(g));
            assert(part =~= raw);
        }
    }
}

/// What the first `n` groups of a slice have given: their part of it, and zeros behind the
/// last one perhaps.
pub open spec fn gathered(job: SliceJob, n: nat, got: Seq<u8>) -> bool {
    if n < job.group_count() {
        got == slice_payload(job, n)
    } else {
        extends_by_zeros(got, job.data)
    }
}

/// One more group.
pub proof fn lemma_gathered(job: SliceJob, g: int, lens: Seq<u16>, got: Seq<u8>)
    requires
        job.valid(),
        job.chunk <= 0xffff,
        0 <= g < job.group_count(),
        lens_of(job, g, lens),
        gathered(job, g as nat, got),
    ensures
        gathered(
            job,
            (g + 1) as nat,
            got + joined(all_present(job.data_shards(g)), lens, job.k(g)),
        ),
{
    let part = joined(all_present(job.data_shards(g)), lens, job.k(g));
    lemma_group_bytes(job, g, lens, job.k(g));
    let whole = got + group_payload(job, g);
    assert(slice_payload(job, (g + 1) as nat) == whole);
    if g + 1 == job.group_count() {
        law_slice_recovers(job);
        assert(whole == job.data);
        let all = got + part;
        assert(all.take(whole.len() as int) =~= whole) by {
            assert forall|x: int| 0 <= x < whole.len() implies all.take(whole.len() as int)[x]
                == whole[x] by {
                if x >= got.len() {
                    let y = x - got.len();
                    assert(part.take(group_payload(job, g).len() as int)[y] == part[y]);
                }
            }
        }
        assert forall|x: int| whole.len() <= x < all.len() implies (#[trigger] all[x]) == 0 by {
            assert(all[x] == part[x - got.len()]);
        }
    }
}

/// Every group has parity, a group of a frame that must arrive two shards at least: it
/// survives the loss of as many shards as it has parity.
pub proof fn law_every_group_is_protected(job: SliceJob, g: int)
    requires
        job.valid(),
        0 <= g < job.group_count(),
    ensures
        job.m(g) >= 1,
        job.critical ==> job.m(g) >= 2,
        job.k(g) + job.m(g) <= 23,
{
    lemma_group(job, g);
    let k = job.k(g);
    let pct = parity_pct(job.critical, job.first, job.quality);
    assert(k * pct >= 1) by (nonlinear_arith)
        requires
            k >= 1,
            pct >= 1,
    ;
}

/// Over a poor link a group never gets less parity than over an ordinary one, and a group
/// of seven data shards or more gets more.
pub proof fn law_poor_link_reinforces(k: nat, critical: bool, first: bool)
    requires
        1 <= k <= FEC_GROUP_K_MAX,
    ensures
        parity_count(k, critical, first, LinkQuality::Degraded) >= parity_count(
            k,
            critical,
            first,
            LinkQuality::Normal,
        ),
        k >= 7 ==> parity_count(k, critical, first, LinkQuality::Degraded) > parity_count(
            k,
            critical,
            first,
            LinkQuality::Normal,
        ),
{
    let usual = parity_pct(critical, first, LinkQuality::Normal);
    let more = parity_pct(critical, first, LinkQuality::Degraded);
    assert(usual == 20 || usual == 10 || usual == 8);
    assert(more == 2 * usual);
    assert(k * usual == if usual == 20 {
        20 * k
    } else if usual == 10 {
        10 * k
    } else {
        8 * k
    }) by (nonlinear_arith)
        requires
            usual == 20 || usual == 10 || usual == 8,
    ;
    assert(k * more == 2 * (k * usual)) by (nonlinear_arith)
        requires
            more == 2 * usual,
    ;
}

/// The entry of shard `s` of group `g` is found under its indices.
pub proof fn lemma_find(job: SliceJob, n: nat, g: int, s: int)
    requires
        job.valid(),
        n <= job.group_count(),
        n <= 256,
        0 <= g < n,
        0 <= s < job.k(g) + job.m(g),
    ensures
        meta_of(job.metas(n), g, s) == seq![job.meta(g, s)],
    decreases n,
{
    let last = (n - 1) as nat;
    lemma_group(job, n - 1);
    if g == n - 1 {
        lemma_find_in_group(job, n, job.k(g) + job.m(g), s);
    } else {
        lemma_find(job, last, g, s);
        lemma_skip_group(job, n, (job.k(n - 1) + job.m(n - 1)) as nat, g, s);
    }
}

/// The entries of the first `n - 1` groups and the first `t` entries of the next one.
spec fn metas_upto(job: SliceJob, n: nat, t: nat) -> Seq<ChunkMeta> {
    job.metas((n - 1) as nat) + Seq::new(t, |x: int| job.meta(n - 1, x))
}

proof fn lemma_metas_upto(job: SliceJob, n: nat, t: nat)
    requires
        0 < t <= 23,
        n > 0,
    ensures
        metas_upto(job, n, t).drop_last() == metas_upto(job, n, (t - 1) as nat),
        metas_upto(job, n, t).last() == job.meta(n - 1, t - 1),
{
    assert(metas_upto(job, n, t).drop_last() =~= metas_upto(job, n, (t - 1) as nat));
}

proof fn lemma_find_in_group(job: SliceJob, n: nat, t: nat, s: int)
    requires
        job.valid(),
        0 < n <= job.group_count(),
        n <= 256,
        t <= job.k(n - 1) + job.m(n - 1),
        0 <= s < t,
    ensures
        meta_of(metas_upto(job, n, t), n - 1, s) == seq![job.meta(n - 1, s)],
    decreases t,
{
    lemma_group(job, n - 1);
    lemma_metas_upto(job, n, t);
    if s < t - 1 {
        lemma_find_in_group(job, n, (t - 1) as nat, s);
    }
}

proof fn lemma_skip_group(job: SliceJob, n: nat, t: nat, g: int, s: int)
    requires
        job.valid(),
        0 < n <= job.group_count(),
        n <= 256,
        0 <= g < n - 1,
        t <= job.k(n - 1) + job.m(n - 1),
    ensures
        meta_of(metas_upto(job, n, t), g, s) == meta_of(job.metas((n - 1) as nat), g, s),
    decreases t,
{
    lemma_group(job, n - 1);
    if t > 0 {
        lemma_metas_upto(job, n, t);
        lemma_skip_group(job, n, (t - 1) as nat, g, s);
    } else {
        assert(metas_upto(job, n, 0) =~= job.metas((n - 1) as nat));
    }
}

/// The first entry of group `g` tells its shard counts.
pub proof fn lemma_group_km(job: SliceJob, n: nat, g: int)
    requires
        job.valid(),
        n <= job.group_count(),
        n <= 256,
        0 <= g < n,
    ensures
        group_km(job.metas(n), g) == (job.k(g) as u8, job.m(g) as u8),
    decreases n,
{
    lemma_group(job, n - 1);
    let front = job.metas((n - 1) as nat);
    let back = Seq::new(job.k(n - 1) + job.m(n - 1), |x: int| job.meta(n - 1, x));
    if g < n - 1 {
        lemma_group_km(job, (n - 1) as nat, g);
        lemma_km_has(job, (n - 1) as nat, g);
        lemma_km_front(front, back, g);
    } else {
        lemma_km_hasnt(job, (n - 1) as nat, g);
        lemma_km_back(front, back, g);
        assert(back[0] == job.meta(n - 1, 0));
    }
}

spec fn has_group(metas: Seq<ChunkMeta>, g: int) -> bool {
    exists|i: int| 0 <= i < metas.len() && (#[trigger] metas[i]).group_idx == g
}

proof fn lemma_km_has(job: SliceJob, n: nat, g: int)
    requires
        job.valid(),
        n <= job.group_count(),
        n <= 256,
        0 <= g < n,
    ensures
        has_group(job.metas(n), g),
    decreases n,
{
    let front = job.metas((n - 1) as nat);
    lemma_group(job, n - 1);
    if g < n - 1 {
        lemma_km_has(job, (n - 1) as nat, g);
        let i = choose|i: int| 0 <= i < front.len() && (#[trigger] front[i]).group_idx == g;
        assert(job.metas(n)[i].group_idx == g);
    } else {
        assert(job.metas(n)[front.len() as int] == job.meta(n - 1, 0));
    }
}

proof fn lemma_km_hasnt(job: SliceJob, n: nat, g: int)
    requires
        job.valid(),
        n <= job.group_count(),
        n <= 256,
        n <= g < 256,
    ensures
        !has_group(job.metas(n), g),
    decreases n,
{
    if n > 0 {
        let front = job.metas((n - 1) as nat);
        lemma_km_hasnt(job, (n - 1) as nat, g);
        assert forall|i: int| 0 <= i < job.metas(n).len() implies (#[trigger] job.metas(
            n,
        )[i]).group_idx != g by {
            if i < front.len() {
                assert(job.metas(n)[i] == front[i]);
            } else {
                assert(job.metas(n)[i] == job.meta(n - 1, i - front.len()));
            }
        }
    }
}

proof fn lemma_km_front(a: Seq<ChunkMeta>, b: Seq<ChunkMeta>, g: int)
    requires
        has_group(a, g),
    ensures
        group_km(a + b, g) == group_km(a, g),
    decreases a.len(),
{
    let i = choose|i: int| 0 <= i < a.len() && (#[trigger] a[i]).group_idx == g;
    if a[0].group_idx != g {
        assert(a.drop_first()[i - 1] == a[i]);
        assert((a + b).drop_first() =~= a.drop_first() + b);
        lemma_km_front(a.drop_first(), b, g);
    } else {
        assert((a + b)[0] == a[0]);
    }
}

proof fn lemma_km_back(a: Seq<ChunkMeta>, b: Seq<ChunkMeta>, g: int)
    requires
        !has_group(a, g),
    ensures
        group_km(a + b, g) == group_km(b, g),
    decreases a.len(),
{
    if a.len() > 0 {
        assert(a[0].group_idx != g);
        assert((a + b).drop_first() =~= a.drop_first() + b);
        assert forall|i: int| 0 <= i < a.drop_first().len() implies (
        #[trigger] a.drop_first()[i]).group_idx != g by {
            assert(a[i + 1].group_idx != g);
        }
        lemma_km_back(a.drop_first(), b, g);
    } else {
        assert(a + b =~= b);
    }
}

/// `c` is the entry of a shard of one of the first `n` groups.
pub open spec fn is_entry(job: SliceJob, n: nat, c: ChunkMeta) -> bool {
    exists|g: int, s: int|
        0 <= g < n && 0 <= s < job.k(g) + job.m(g) && c == #[trigger] job.meta(g, s)
}

/// Number of the round in which an entry is sent.
spec fn round_of(c: ChunkMeta) -> int {
    if c.shard_idx < c.k {
        c.shard_idx as int
    } else {
        c.shard_idx - c.k
    }
}

/// Interleaving keeps the shards: with up to 255 groups, what is sent are the entries of
/// all shards of all groups, each of them once.
pub proof fn law_interleaving_permutes(job: SliceJob)
    requires
        job.valid(),
        job.group_count() <= 255,
    ensures
        job.sent().no_duplicates(),
        forall|c: ChunkMeta| #[trigger]
            job.sent().contains(c) <==> is_entry(job, job.group_count(), c),
{
    let n = job.group_count();
    let flat = job.metas(n);
    if job.quality == LinkQuality::Excellent {
        lemma_flat(job, n);
    } else {
        let r = round_count(flat, n);
        lemma_rounds(job, n, r);
        assert forall|c: ChunkMeta| is_entry(job, n, c) implies #[trigger] job.sent().contains(c) by {
            let (g, s) = choose|g: int, s: int|
                0 <= g < n && 0 <= s < job.k(g) + job.m(g) && c == #[trigger] job.meta(g, s);
            lemma_group(job, g);
            lemma_round_count(job, n, n, g);
            assert(round_of(c) < r);
        }
    }
}

proof fn lemma_round_count(job: SliceJob, n: nat, t: nat, g: int)
    requires
        job.valid(),
        n == job.group_count(),
        n <= 255,
        t <= n,
        0 <= g < t,
    ensures
        round_count(job.metas(n), t) >= job.k(g),
        round_count(job.metas(n), t) >= job.m(g),
    decreases t,
{
    lemma_group_km(job, n, t - 1);
    lemma_group(job, t - 1);
    if g < t - 1 {
        lemma_round_count(job, n, (t - 1) as nat, g);
    }
}

proof fn lemma_flat(job: SliceJob, n: nat)
    requires
        job.valid(),
        n <= job.group_count(),
        n <= 255,
    ensures
        job.metas(n).no_duplicates(),
        forall|c: ChunkMeta| #[trigger] job.metas(n).contains(c) <==> is_entry(job, n, c),
    decreases n,
{
    if n > 0 {
        let front = job.metas((n - 1) as nat);
        let back = Seq::new(job.k(n - 1) + job.m(n - 1), |x: int| job.meta(n - 1, x));
        lemma_flat(job, (n - 1) as nat);
        lemma_group(job, n - 1);
        assert forall|i: int, j: int|
            0 <= i < front.len() && 0 <= j < back.len() implies front[i] != back[j] by {
            assert(front.contains(front[i]));
            assert(is_entry(job, (n - 1) as nat, front[i]));
        }
        assert forall|i: int, j: int|
            0 <= i < j < job.metas(n).len() implies job.metas(n)[i] != job.metas(n)[j] by {
            if j < front.len() {
                assert(job.metas(n)[i] == front[i] && job.metas(n)[j] == front[j]);
            } else if i < front.len() {
                assert(job.metas(n)[i] == front[i] && job.metas(n)[j] == back[j - front.len()]);
            } else {
                assert(job.metas(n)[i] == job.meta(n - 1, i - front.len()));
                assert(job.metas(n)[j] == job.meta(n - 1, j - front.len()));
            }
        }
        assert forall|c: ChunkMeta| #[trigger]
            job.metas(n).contains(c) <==> is_entry(job, n, c) by {
            if job.metas(n).contains(c) {
                let i = choose|i: int| 0 <= i < job.metas(n).len() && job.metas(n)[i] == c;
                if i < front.len() {
                    assert(front[i] == c);
                    assert(front.contains(c));
                    let (g, s) = choose|g: int, s: int|
                        0 <= g < n - 1 && 0 <= s < job.k(g) + job.m(g) && c == #[trigger] job.meta(
                            g,
                            s,
                        );
                    assert(is_entry(job, n, c));
                } else {
                    assert(c == job.meta(n - 1, i - front.len()));
                }
            }
            if is_entry(job, n, c) {
                let (g, s) = choose|g: int, s: int|
                    0 <= g < n && 0 <= s < job.k(g) + job.m(g) && c == #[trigger] job.meta(g, s);
                if g < n - 1 {
                    assert(is_entry(job, (n - 1) as nat, c));
                    assert(front.contains(c));
                    let i = choose|i: int| 0 <= i < front.len() && front[i] == c;
                    assert(job.metas(n)[i] == c);
                } else {
                    assert(job.metas(n)[front.len() + s] == c);
                }
            }
        }
    }
}

/// What round `round` sends of the first `t` groups.
proof fn lemma_data_round(job: SliceJob, n: nat, round: int, t: nat)
    requires
        job.valid(),
        n == job.group_count(),
        n <= 255,
        0 <= round,
        t <= n,
    ensures
        data_round(job.metas(n), round, t).no_duplicates(),
        forall|c: ChunkMeta| #[trigger]
            data_round(job.metas(n), round, t).contains(c) <==> is_entry(job, t, c) && c.shard_idx
                < c.k && c.shard_idx == round,
    decreases t,
{
    if t > 0 {
        let g = t - 1;
        let flat = job.metas(n);
        let front = data_round(flat, round, (t - 1) as nat);
        lemma_data_round(job, n, round, (t - 1) as nat);
        lemma_group(job, g);
        lemma_group_km(job, n, g);
        if round < job.k(g) {
            lemma_find(job, n, g, round);
            assert(data_round(flat, round, t) =~= front.push(job.meta(g, round)));
        } else {
            assert(data_round(flat, round, t) =~= front);
        }
        lemma_round_step(
            job,
            t,
            front,
            data_round(flat, round, t),
            round < job.k(g),
            round,
            |c: ChunkMeta| c.shard_idx < c.k && c.shard_idx == round,
        );
    }
}

proof fn lemma_parity_round(job: SliceJob, n: nat, round: int, t: nat)
    requires
        job.valid(),
        n == job.group_count(),
        n <= 255,
        0 <= round,
        t <= n,
    ensures
        parity_round(job.metas(n), round, t).no_duplicates(),
        forall|c: ChunkMeta| #[trigger]
            parity_round(job.metas(n), round, t).contains(c) <==> is_entry(job, t, c)
                && c.shard_idx >= c.k && c.shard_idx - c.k == round,
    decreases t,
{
    if t > 0 {
        let g = t - 1;
        let flat = job.metas(n);
        let front = parity_round(flat, round, (t - 1) as nat);
        lemma_parity_round(job, n, round, (t - 1) as nat);
        lemma_group(job, g);
        lemma_group_km(job, n, g);
        if round < job.m(g) {
            lemma_find(job, n, g, job.k(g) + round);
            assert(parity_round(flat, round, t) =~= front.push(job.meta(g, job.k(g) + round)));
        } else {
            assert(parity_round(flat, round, t) =~= front);
        }
        lemma_round_step(
            job,
            t,
            front,
            parity_round(flat, round, t),
            round < job.m(g),
            job.k(g) + round,
            |c: ChunkMeta| c.shard_idx >= c.k && c.shard_idx - c.k == round,
        );
    }
}

/// One more group: its only shard that `p` selects is shard `s`, if there is one.
proof fn lemma_round_step(
    job: SliceJob,
    t: nat,
    front: Seq<ChunkMeta>,
    all: Seq<ChunkMeta>,
    hit: bool,
    s: int,
    p: spec_fn(ChunkMeta) -> bool,
)
    requires
        job.valid(),
        0 < t <= job.group_count(),
        t <= 255,
        front.no_duplicates(),
        forall|c: ChunkMeta| #[trigger]
            front.contains(c) <==> is_entry(job, (t - 1) as nat, c) && p(c),
        hit ==> 0 <= s < job.k(t - 1) + job.m(t - 1) && p(job.meta(t - 1, s)),
        forall|x: int|
            0 <= x < job.k(t - 1) + job.m(t - 1) && p(#[trigger] job.meta(t - 1, x)) ==> hit && x
                == s,
        all == if hit {
            front.push(job.meta(t - 1, s))
        } else {
            front
        },
    ensures
        all.no_duplicates(),
        forall|c: ChunkMeta| #[trigger] all.contains(c) <==> is_entry(job, t, c) && p(c),
{
    let g = t - 1;
    assert forall|c: ChunkMeta| #[trigger] all.contains(c) implies is_entry(job, t, c) && p(c) by {
        let i = choose|i: int| 0 <= i < all.len() && all[i] == c;
        if i < front.len() {
            assert(front[i] == c);
            assert(front.contains(c));
            let (h, x) = choose|h: int, x: int|
                0 <= h < t - 1 && 0 <= x < job.k(h) + job.m(h) && c == #[trigger] job.meta(h, x);
            assert(is_entry(job, t, c));
        } else {
            assert(c == job.meta(g, s));
        }
    }
    assert forall|c: ChunkMeta| is_entry(job, t, c) && p(c) implies #[trigger] all.contains(c) by {
        let (h, x) = choose|h: int, x: int|
            0 <= h < t && 0 <= x < job.k(h) + job.m(h) && c == #[trigger] job.meta(h, x);
        if h < t - 1 {
            assert(is_entry(job, (t - 1) as nat, c));
            assert(front.contains(c));
            let i = choose|i: int| 0 <= i < front.len() && front[i] == c;
            assert(all[i] == c);
        } else {
            assert(x == s);
            assert(all[front.len() as int] == c);
        }
    }
    assert forall|i: int, j: int| 0 <= i < j < all.len() implies all[i] != all[j] by {
        if j < front.len() {
            assert(front[i] != front[j]);
        } else {
            assert(front.contains(front[i]));
            let (h, x) = choose|h: int, x: int|
                0 <= h < t - 1 && 0 <= x < job.k(h) + job.m(h) && front[i] == #[trigger] job.meta(
                    h,
                    x,
                );
            assert(front[i].group_idx == h);
            assert(all[j].group_idx == g);
        }
    }
}

/// The first `r` rounds send the entries whose round is below `r`, each once.
proof fn lemma_rounds(job: SliceJob, n: nat, r: nat)
    requires
        job.valid(),
        n == job.group_count(),
        n <= 255,
    ensures
        rounds(job.metas(n), r, n).no_duplicates(),
        forall|c: ChunkMeta| #[trigger]
            rounds(job.metas(n), r, n).contains(c) <==> is_entry(job, n, c) && round_of(c) < r,
    decreases r,
{
    if r > 0 {
        let flat = job.metas(n);
        let round = r - 1;
        let a = rounds(flat, (r - 1) as nat, n);
        let b = data_round(flat, round, n);
        let d = parity_round(flat, round, n);
        lemma_rounds(job, n, (r - 1) as nat);
        lemma_data_round(job, n, round, n);
        lemma_parity_round(job, n, round, n);
        lemma_disjoint_concat(a, b);
        lemma_disjoint_concat(a + b, d);
    }
}

/// Two sequences without duplicates and without a common element, one behind the other.
proof fn lemma_disjoint_concat(a: Seq<ChunkMeta>, b: Seq<ChunkMeta>)
    requires
        a.no_duplicates(),
        b.no_duplicates(),
        forall|c: ChunkMeta| #[trigger] a.contains(c) ==> !b.contains(c),
    ensures
        (a + b).no_duplicates(),
        forall|c: ChunkMeta| #[trigger] (a + b).contains(c) <==> a.contains(c) || b.contains(c),
{
    assert forall|i: int, j: int| 0 <= i < j < (a + b).len() implies (a + b)[i] != (a + b)[j] by {
        if i < a.len() && j >= a.len() {
            assert(a.contains(a[i]));
            assert(b.contains(b[j - a.len()]));
        }
    }
    assert forall|c: ChunkMeta| #[trigger] (a + b).contains(c) <==> a.contains(c) || b.contains(
        c,
    ) by {
        if a.contains(c) {
            let i = choose|i: int| 0 <= i < a.len() && a[i] == c;
            assert((a + b)[i] == c);
        }
        if b.contains(c) {
            let i = choose|i: int| 0 <= i < b.len() && b[i] == c;
            assert((a + b)[a.len() + i] == c);
        }
        if (a + b).contains(c) {
            let i = choose|i: int| 0 <= i < (a + b).len() && (a + b)[i] == c;
            if i < a.len() {
                assert(a[i] == c);
            } else {
                assert(b[i - a.len()] == c);
            }
        }
    }
}

} // verus!
