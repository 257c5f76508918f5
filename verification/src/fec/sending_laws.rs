//! Laws of the order in which the shards of a slice are sent.
use crate::fec::encode::{
    data_round, lemma_group, parity_pct, parity_round, quality_of, round_count, rounds, ChunkMeta,
    LinkQuality, SliceJob,
};
use crate::fec::laws::{is_entry, law_interleaving_permutes, lemma_find, lemma_group_km};
use vstd::prelude::*;

verus! {

/// Data shard `i` of a group is shard `i` of its kind, and so is parity shard `i`.
pub open spec fn place(c: ChunkMeta) -> int {
    if c.shard_idx < c.k {
        c.shard_idx as int
    } else {
        c.shard_idx - c.k
    }
}

/// `c` goes before `d` when the groups take turns: by the place among the shards of a kind,
/// then data before parity, then by the group.
pub open spec fn takes_turn_before(c: ChunkMeta, d: ChunkMeta) -> bool {
    ||| place(c) < place(d)
    ||| place(c) == place(d) && c.shard_idx < c.k && d.shard_idx >= d.k
    ||| place(c) == place(d) && (c.shard_idx < c.k <==> d.shard_idx < d.k) && c.group_idx
        < d.group_idx
}

/// The groups take turns.
pub open spec fn take_turns(s: Seq<ChunkMeta>) -> bool {
    forall|i: int, j: int|
        #![trigger s[i], s[j]]
        0 <= i < j < s.len() ==> takes_turn_before(s[i], s[j])
}

proof fn lemma_join_turns(a: Seq<ChunkMeta>, b: Seq<ChunkMeta>)
    requires
        take_turns(a),
        take_turns(b),
        forall|i: int, j: int|
            #![trigger a[i], b[j]]
            0 <= i < a.len() && 0 <= j < b.len() ==> takes_turn_before(a[i], b[j]),
    ensures
        take_turns(a + b),
{
    let s = a + b;
    assert forall|i: int, j: int|
        #![trigger s[i], s[j]]
        0 <= i < j < s.len() implies takes_turn_before(s[i], s[j]) by {
        if j < a.len() {
            assert(s[i] == a[i] && s[j] == a[j]);
        } else if i < a.len() {
            assert(s[i] == a[i] && s[j] == b[j - a.len()]);
        } else {
            assert(s[i] == b[i - a.len()] && s[j] == b[j - a.len()]);
        }
    }
}

/// The entries are data shards at `round`, or parity shards, of groups below `t`.
spec fn of_round(s: Seq<ChunkMeta>, round: int, data: bool, t: nat) -> bool {
    forall|i: int|
        0 <= i < s.len() ==> place(#[trigger] s[i]) == round && (s[i].shard_idx < s[i].k <==> data)
            && s[i].group_idx < t
}

proof fn lemma_data_turns(job: SliceJob, n: nat, round: int, t: nat)
    requires
        job.valid(),
        n == job.group_count(),
        n <= 255,
        t <= n,
        round >= 0,
    ensures
        take_turns(data_round(job.metas(n), round, t)),
        of_round(data_round(job.metas(n), round, t), round, true, t),
    decreases t,
{
    if t > 0 {
        let g = t - 1;
        lemma_data_turns(job, n, round, g as nat);
        lemma_group_km(job, n, g);
        lemma_group(job, g);
        let front = data_round(job.metas(n), round, g as nat);
        if round < job.k(g) {
            lemma_find(job, n, g, round);
            let back = seq![job.meta(g, round)];
            lemma_join_turns(front, back);
            assert(of_round(front + back, round, true, t));
        } else {
            assert(front + Seq::<ChunkMeta>::empty() =~= front);
        }
    }
}

proof fn lemma_parity_turns(job: SliceJob, n: nat, round: int, t: nat)
    requires
        job.valid(),
        n == job.group_count(),
        n <= 255,
        t <= n,
        round >= 0,
    ensures
        take_turns(parity_round(job.metas(n), round, t)),
        of_round(parity_round(job.metas(n), round, t), round, false, t),
    decreases t,
{
    if t > 0 {
        let g = t - 1;
        lemma_parity_turns(job, n, round, g as nat);
        lemma_group_km(job, n, g);
        lemma_group(job, g);
        let front = parity_round(job.metas(n), round, g as nat);
        if round < job.m(g) {
            lemma_find(job, n, g, job.k(g) + round);
            let back = seq![job.meta(g, job.k(g) + round)];
            lemma_join_turns(front, back);
            assert(of_round(front + back, round, false, t));
        } else {
            assert(front + Seq::<ChunkMeta>::empty() =~= front);
        }
    }
}

proof fn lemma_rounds_turns(job: SliceJob, n: nat, r: nat)
    requires
        job.valid(),
        n == job.group_count(),
        n <= 255,
    ensures
        take_turns(rounds(job.metas(n), r, n)),
        ({
            let s = rounds(job.metas(n), r, n);
            forall|i: int| 0 <= i < s.len() ==> place(#[trigger] s[i]) < r
        }),
    decreases r,
{
    if r > 0 {
        let metas = job.metas(n);
        let front = rounds(metas, (r - 1) as nat, n);
        let data = data_round(metas, r - 1, n);
        let parity = parity_round(metas, r - 1, n);
        lemma_rounds_turns(job, n, (r - 1) as nat);
        lemma_data_turns(job, n, r - 1, n);
        lemma_parity_turns(job, n, r - 1, n);
        lemma_join_turns(front, data);
        let both = front + data;
        assert forall|i: int, j: int|
            #![trigger both[i], parity[j]]
            0 <= i < both.len() && 0 <= j < parity.len() implies takes_turn_before(
            both[i],
            parity[j],
        ) by {
            if i < front.len() {
                assert(both[i] == front[i]);
            } else {
                assert(both[i] == data[i - front.len()]);
            }
        }
        lemma_join_turns(both, parity);
        let s = both + parity;
        assert forall|i: int| 0 <= i < s.len() implies place(#[trigger] s[i]) < r by {
            if i < front.len() {
                assert(s[i] == front[i]);
            } else if i < both.len() {
                assert(s[i] == data[i - front.len()]);
            } else {
                assert(s[i] == parity[i - both.len()]);
            }
        }
    }
}

/// Over any link but an excellent one the groups of a slice take turns: the first data shard
/// of each group is sent, then the first parity shard of each, then the second data shard of
/// each, and so on.
pub proof fn law_groups_take_turns(job: SliceJob)
    requires
        job.valid(),
        job.group_count() <= 255,
        job.quality != LinkQuality::Excellent,
    ensures
        take_turns(job.sent()),
{
    let n = job.group_count();
    lemma_rounds_turns(job, n, round_count(job.metas(n), n));
}

/// Entry `c` stands in `s` behind `b` and before `d`.
pub open spec fn stands_between(s: Seq<ChunkMeta>, b: ChunkMeta, c: ChunkMeta, d: ChunkMeta) -> bool {
    exists|x: int, y: int, z: int|
        #![trigger s[x], s[y], s[z]]
        0 <= x < y < z < s.len() && s[x] == b && s[y] == c && s[z] == d
}

proof fn lemma_between(job: SliceJob, b: ChunkMeta, c: ChunkMeta, d: ChunkMeta)
    requires
        job.valid(),
        job.group_count() <= 255,
        job.quality != LinkQuality::Excellent,
        is_entry(job, job.group_count(), b),
        is_entry(job, job.group_count(), c),
        is_entry(job, job.group_count(), d),
        takes_turn_before(b, c),
        takes_turn_before(c, d),
    ensures
        stands_between(job.sent(), b, c, d),
{
    let s = job.sent();
    law_groups_take_turns(job);
    law_interleaving_permutes(job);
    assert(s.contains(b) && s.contains(c) && s.contains(d));
    let x = choose|x: int| 0 <= x < s.len() && s[x] == b;
    let y = choose|y: int| 0 <= y < s.len() && s[y] == c;
    let z = choose|z: int| 0 <= z < s.len() && s[z] == d;
    assert(x < y) by {
        if y < x {
            assert(takes_turn_before(s[y], s[x]));
        }
    }
    assert(y < z) by {
        if z < y {
            assert(takes_turn_before(s[z], s[y]));
        }
    }
}

/// Over any link but an excellent one a run of losses is spread over the groups: between two
/// data shards of a group that follow each other stands a data shard of every other group
/// that has one at that place, and likewise between two of its parity shards.
pub proof fn law_losses_are_spread(job: SliceJob, g: int, h: int, i: int)
    requires
        job.valid(),
        job.group_count() <= 255,
        job.quality != LinkQuality::Excellent,
        0 <= g < job.group_count(),
        0 <= h < job.group_count(),
        g != h,
        i >= 0,
    ensures
        g < h && i + 1 < job.k(g) && i < job.k(h) ==> stands_between(
            job.sent(),
            job.meta(g, i),
            job.meta(h, i),
            job.meta(g, i + 1),
        ),
        h < g && i + 1 < job.k(g) && i + 1 < job.k(h) ==> stands_between(
            job.sent(),
            job.meta(g, i),
            job.meta(h, i + 1),
            job.meta(g, i + 1),
        ),
        g < h && i + 1 < job.m(g) && i < job.m(h) ==> stands_between(
            job.sent(),
            job.meta(g, job.k(g) + i),
            job.meta(h, job.k(h) + i),
            job.meta(g, job.k(g) + i + 1),
        ),
        h < g && i + 1 < job.m(g) && i + 1 < job.m(h) ==> stands_between(
            job.sent(),
            job.meta(g, job.k(g) + i),
            job.meta(h, job.k(h) + i + 1),
            job.meta(g, job.k(g) + i + 1),
        ),
{
    if g < h {
        if i + 1 < job.k(g) && i < job.k(h) {
            lemma_turn_between(job, g, h, i, i + 1, i, true);
        }
        if i + 1 < job.m(g) && i < job.m(h) {
            lemma_turn_between(job, g, h, i, i + 1, i, false);
        }
    } else {
        if i + 1 < job.k(g) && i + 1 < job.k(h) {
            lemma_turn_between(job, g, h, i, i + 1, i + 1, true);
        }
        if i + 1 < job.m(g) && i + 1 < job.m(h) {
            lemma_turn_between(job, g, h, i, i + 1, i + 1, false);
        }
    }
}

/// The number of data shard or parity shard `i` of group `g`.
spec fn shard_at(job: SliceJob, g: int, i: int, data: bool) -> int {
    if data {
        i
    } else {
        job.k(g) + i
    }
}

proof fn lemma_place(job: SliceJob, g: int, i: int, data: bool)
    requires
        job.valid(),
        job.group_count() <= 255,
        0 <= g < job.group_count(),
        0 <= i,
        data ==> i < job.k(g),
        !data ==> i < job.m(g),
    ensures
        ({
            let c = job.meta(g, shard_at(job, g, i, data));
            &&& is_entry(job, job.group_count(), c)
            &&& place(c) == i
            &&& c.shard_idx < c.k <==> data
            &&& c.group_idx == g
        }),
{
    lemma_group(job, g);
    let s = shard_at(job, g, i, data);
    assert(0 <= s < job.k(g) + job.m(g));
}

proof fn lemma_turn_between(
    job: SliceJob,
    g: int,
    h: int,
    first: int,
    last: int,
    mid: int,
    data: bool,
)
    requires
        job.valid(),
        job.group_count() <= 255,
        job.quality != LinkQuality::Excellent,
        0 <= g < job.group_count(),
        0 <= h < job.group_count(),
        0 <= first < last,
        first < mid || (first == mid && g < h),
        mid < last || (mid == last && h < g),
        data ==> last < job.k(g) && mid < job.k(h),
        !data ==> last < job.m(g) && mid < job.m(h),
    ensures
        stands_between(
            job.sent(),
            job.meta(g, shard_at(job, g, first, data)),
            job.meta(h, shard_at(job, h, mid, data)),
            job.meta(g, shard_at(job, g, last, data)),
        ),
{
    lemma_place(job, g, first, data);
    lemma_place(job, h, mid, data);
    lemma_place(job, g, last, data);
    lemma_between(
        job,
        job.meta(g, shard_at(job, g, first, data)),
        job.meta(h, shard_at(job, h, mid, data)),
        job.meta(g, shard_at(job, g, last, data)),
    );
}

/// Over an excellent link one group is sent after the other, each from its first shard to
/// its last.
pub proof fn law_excellent_link_sends_in_order(job: SliceJob, i: int, j: int)
    requires
        job.valid(),
        job.group_count() <= 255,
        job.quality == LinkQuality::Excellent,
        0 <= i < j < job.sent().len(),
    ensures
        job.sent()[i].group_idx < job.sent()[j].group_idx || (job.sent()[i].group_idx
            == job.sent()[j].group_idx && job.sent()[i].shard_idx < job.sent()[j].shard_idx),
{
    lemma_flat_order(job, job.group_count(), i, j);
}

proof fn lemma_flat_group(job: SliceJob, n: nat, i: int)
    requires
        job.valid(),
        n <= job.group_count(),
        n <= 255,
        0 <= i < job.metas(n).len(),
    ensures
        job.metas(n)[i].group_idx < n,
    decreases n,
{
    if n > 0 {
        let front = job.metas((n - 1) as nat);
        if i < front.len() {
            lemma_flat_group(job, (n - 1) as nat, i);
            assert(job.metas(n)[i] == front[i]);
        } else {
            assert(job.metas(n)[i] == job.meta(n - 1, i - front.len()));
        }
    }
}

proof fn lemma_flat_order(job: SliceJob, n: nat, i: int, j: int)
    requires
        job.valid(),
        n <= job.group_count(),
        n <= 255,
        0 <= i < j < job.metas(n).len(),
    ensures
        job.metas(n)[i].group_idx < job.metas(n)[j].group_idx || (job.metas(n)[i].group_idx
            == job.metas(n)[j].group_idx && job.metas(n)[i].shard_idx < job.metas(n)[j].shard_idx),
    decreases n,
{
    if n > 0 {
        let front = job.metas((n - 1) as nat);
        lemma_group(job, n - 1);
        if j < front.len() {
            lemma_flat_order(job, (n - 1) as nat, i, j);
            assert(job.metas(n)[i] == front[i] && job.metas(n)[j] == front[j]);
        } else {
            assert(job.metas(n)[j] == job.meta(n - 1, j - front.len()));
            if i < front.len() {
                lemma_flat_group(job, (n - 1) as nat, i);
                assert(job.metas(n)[i] == front[i]);
            } else {
                assert(job.metas(n)[i] == job.meta(n - 1, i - front.len()));
            }
        }
    }
}

/// A group gets the least parity that makes up its share of the data shards: a fifth for a
/// frame that must arrive, but two shards at least, a tenth for the first slice of another
/// frame, and eight in a hundred for the rest; half of that over an excellent link, and twice
/// as much over a poor one.
pub proof fn law_parity_has_its_share(job: SliceJob, g: int)
    requires
        job.valid(),
        0 <= g < job.group_count(),
    ensures
        ({
            let (k, m) = (job.k(g) as int, job.m(g) as int);
            let share = if job.critical {
                20int
            } else if job.first {
                10int
            } else {
                8int
            };
            let least = m == 2 && job.critical;
            &&& job.quality is Excellent ==> 200 * m >= share * k && (least || 200 * (m - 1)
                < share * k)
            &&& job.quality is Normal ==> 100 * m >= share * k && (least || 100 * (m - 1) < share
                * k)
            &&& job.quality is Degraded ==> 50 * m >= share * k && (least || 50 * (m - 1) < share
                * k)
        }),
{
    lemma_group(job, g);
    let k = job.k(g);
    let pct = parity_pct(job.critical, job.first, job.quality);
    let share: nat = if job.critical {
        20
    } else if job.first {
        10
    } else {
        8
    };
    assert(pct == 4 || pct == 5 || pct == 8 || pct == 10 || pct == 16 || pct == 20 || pct == 40);
    assert(k * pct == pct * k) by (nonlinear_arith);
    assert(pct * k == if pct == 4 {
        4 * k
    } else if pct == 5 {
        5 * k
    } else if pct == 8 {
        8 * k
    } else if pct == 10 {
        10 * k
    } else if pct == 16 {
        16 * k
    } else if pct == 20 {
        20 * k
    } else {
        40 * k
    });
}

/// The shards of a group follow each other in the buffer, all of one length, and the groups
/// follow each other, too: a shard stands where its entry says.
pub proof fn law_shards_stand_side_by_side(job: SliceJob, g: int, s: int)
    requires
        job.valid(),
        0 <= g < job.group_count(),
        0 <= s < job.k(g) + job.m(g),
        job.span(job.group_count()) <= usize::MAX,
    ensures
        s + 1 < job.k(g) + job.m(g) ==> job.meta(g, s + 1).offset == job.meta(g, s).offset
            + job.shard_size(g),
        s + 1 == job.k(g) + job.m(g) && g + 1 < job.group_count() ==> job.meta(g + 1, 0).offset
            == job.meta(g, s).offset + job.shard_size(g),
        g == 0 && s == 0 ==> job.meta(g, s).offset == 0,
        job.chunk <= 0xffff ==> 1 <= job.meta(g, s).payload_len <= job.shard_size(g),
        job.chunk <= 0xffff && s >= job.k(g) ==> job.meta(g, s).payload_len == job.shard_size(g),
        job.meta(g, s).shard_idx == s,
        job.meta(g, s).k == job.k(g),
        job.meta(g, s).m == job.m(g),
{
    lemma_group(job, g);
    let size = job.shard_size(g);
    let all = job.k(g) + job.m(g);
    lemma_span_grows(job, (g + 1) as nat, job.group_count());
    assert((s + 1) * size == s * size + size) by (nonlinear_arith);
    assert((s + 1) * size <= all * size) by (nonlinear_arith)
        requires
            s + 1 <= all,
    ;
    assert(s * size >= 0) by (nonlinear_arith)
        requires
            s >= 0,
    ;
    assert(job.span((g + 1) as nat) == job.span(g as nat) + all * size);
    if g == 0 && s == 0 {
        assert(s * size == 0) by (nonlinear_arith)
            requires
                s == 0,
        ;
    }
    let next = job.shard_size(g + 1);
    assert(0 * next == 0) by (nonlinear_arith);
    if s < job.k(g) {
        assert(0 < job.shard(16 * g + s).len() <= size);
    }
}

proof fn lemma_span_grows(job: SliceJob, a: nat, b: nat)
    requires
        a <= b,
    ensures
        job.span(a) <= job.span(b),
    decreases b,
{
    if a < b {
        lemma_span_grows(job, a, (b - 1) as nat);
        assert((job.k(b - 1) + job.m(b - 1)) * job.shard_size(b - 1) >= 0) by (nonlinear_arith);
    }
}

/// How good a link is, as a number.
pub open spec fn grade(q: LinkQuality) -> int {
    match q {
        LinkQuality::Excellent => 2,
        LinkQuality::Normal => 1,
        LinkQuality::Degraded => 0,
    }
}

/// A link does not get better when the round trip, the losses or the runs of losses grow. One
/// without runs of losses, with hardly any loss and a round trip of up to four milliseconds
/// is excellent; one with a round trip of more than fifty, with more loss than two in a
/// hundred or a run of two losses is poor, unless it is excellent.
pub proof fn law_link_is_graded(
    rtt: u64,
    below: bool,
    above: bool,
    burst: u32,
    worse_rtt: u64,
    worse_below: bool,
    worse_above: bool,
    worse_burst: u32,
)
    requires
        rtt <= worse_rtt,
        worse_below ==> below,
        above ==> worse_above,
        burst <= worse_burst,
    ensures
        grade(quality_of(rtt, below, above, burst)) >= grade(
            quality_of(worse_rtt, worse_below, worse_above, worse_burst),
        ),
        grade(quality_of(rtt, below, above, burst)) == 2 <==> rtt <= 4 && below && burst == 0,
        grade(quality_of(rtt, below, above, burst)) == 0 <==> (rtt >= 51 || above || burst >= 2)
            && !(rtt <= 4 && below && burst == 0),
{
}

} // verus!
