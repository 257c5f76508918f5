//! The law that lost shards are recovered.
use crate::fec::codec::{agrees, present, rs_parity, uniform};
use crate::fec::decode::shards_of;
use crate::fec::encode::{lemma_group, SliceJob};
use crate::fec::group_builder::{lemma_new_group, lemma_present, new_group, GroupModel};
use crate::fec::laws::{announced_lens, law_every_group_is_protected, lens_of};
use crate::fec::slice_builder::{due_for_decoding, holds_shards_of, new_slice, SliceModel};
use crate::fec::UNKNOWN_LEN;
use crate::packet::ChunkModel;
use vstd::prelude::*;

verus! {

/// The arrival of a shard: its group, its number in the group, the number of the chunk that
/// brings it, and the time.
pub struct Arrival {
    pub group: int,
    pub shard: int,
    pub seq: u64,
    pub now_us: u64,
}

/// The chunk that carries a shard; `head` tells the rest of its header.
pub open spec fn chunk_of(job: SliceJob, head: ChunkModel, g: int, s: int) -> ChunkModel {
    ChunkModel {
        shard_idx: s as u8,
        k: job.k(g) as u8,
        m: job.m(g) as u8,
        payload_len: job.meta(g, s).payload_len,
        group_idx: g as u8,
        total_groups: job.group_count() as u8,
        data: job.group(g)[s],
        ..head
    }
}

/// The slice after shards of it have arrived.
pub open spec fn after_arrivals(job: SliceJob, head: ChunkModel, arrivals: Seq<Arrival>) -> SliceModel
    decreases arrivals.len(),
{
    if arrivals.len() == 0 {
        new_slice(job.group_count() as u8)
    } else {
        let a = arrivals.last();
        after_arrivals(job, head, arrivals.drop_last()).inserted(
            chunk_of(job, head, a.group, a.shard),
            a.seq,
            a.now_us,
        )
    }
}

/// A slice as [`crate::fec::encode::FecEncoder::encode`] puts it into `buf`, and that the
/// header fields can tell of.
pub open spec fn well_encoded(job: SliceJob, buf: Seq<u8>) -> bool {
    &&& job.valid()
    &&& job.chunk <= 0xffff
    &&& job.group_count() <= 255
    &&& forall|g: int| 0 <= g < job.group_count() ==> #[trigger] job.placed(buf, g)
}

/// The arrival is that of a shard of the slice.
pub open spec fn of_slice(job: SliceJob, a: Arrival) -> bool {
    0 <= a.group < job.group_count() && 0 <= a.shard < job.k(a.group) + job.m(a.group)
}

/// Of each group there are as many shards as it has data shards, one of them a data shard.
pub open spec fn enough(job: SliceJob, s: SliceModel) -> bool {
    forall|g: u8|
        g < job.group_count() ==> {
            &&& #[trigger] s.groups.contains_key(g)
            &&& present(s.groups[g].shards()) >= job.k(g as int)
            &&& present(s.groups[g].data) > 0
        }
}

/// How many of the first `n` groups are ready.
spec fn ready_count(groups: Map<u8, GroupModel>, n: nat) -> nat
    decreases n,
{
    if n == 0 {
        0
    } else {
        ready_count(groups, (n - 1) as nat) + if groups.contains_key((n - 1) as u8) && groups[(n
            - 1) as u8].ready() {
            1nat
        } else {
            0nat
        }
    }
}

/// The group holds shards of group `g` of the slice and no others.
spec fn group_of(job: SliceJob, g: int, group: GroupModel) -> bool {
    &&& group.valid()
    &&& group.k == job.k(g)
    &&& group.m == job.m(g)
    &&& agrees(group.shards(), job.group(g))
    &&& lens_of(job, g, group.lens)
    &&& group.state.open() || (group.ready() && (group.state is Ready || group.state is Decoding))
}

/// The slice holds shards of this slice and no others, and counts the groups that are ready.
spec fn slice_of(job: SliceJob, s: SliceModel) -> bool {
    &&& s.valid()
    &&& s.total_groups == job.group_count()
    &&& forall|g: u8| #[trigger]
        s.groups.contains_key(g) ==> g < job.group_count() && group_of(job, g as int, s.groups[g])
    &&& s.ready_groups == ready_count(s.groups, job.group_count())
    &&& s.state is Assembling ==> ready_count(s.groups, job.group_count()) < job.group_count()
}

proof fn lemma_ready_count_bound(groups: Map<u8, GroupModel>, n: nat)
    ensures
        ready_count(groups, n) <= n,
    decreases n,
{
    if n > 0 {
        lemma_ready_count_bound(groups, (n - 1) as nat);
    }
}

proof fn lemma_ready_count_none(groups: Map<u8, GroupModel>, n: nat)
    requires
        forall|g: u8| !#[trigger] groups.contains_key(g),
    ensures
        ready_count(groups, n) == 0,
    decreases n,
{
    if n > 0 {
        lemma_ready_count_none(groups, (n - 1) as nat);
    }
}

proof fn lemma_ready_count_all(groups: Map<u8, GroupModel>, n: nat)
    requires
        n <= 255,
        forall|g: u8| g < n ==> #[trigger] groups.contains_key(g) && groups[g].ready(),
    ensures
        ready_count(groups, n) == n,
    decreases n,
{
    if n > 0 {
        assert forall|g: u8| g < (n - 1) as nat implies #[trigger] groups.contains_key(g)
            && groups[g].ready() by {
            assert(groups.contains_key(g));
        }
        lemma_ready_count_all(groups, (n - 1) as nat);
        assert(groups.contains_key((n - 1) as u8));
    }
}

/// Groups that are equally ready count alike.
proof fn lemma_ready_count_same(a: Map<u8, GroupModel>, b: Map<u8, GroupModel>, n: nat)
    requires
        n <= 255,
        forall|g: u8|
            g < n ==> (#[trigger] a.contains_key(g) && a[g].ready()) == (b.contains_key(g)
                && b[g].ready()),
    ensures
        ready_count(a, n) == ready_count(b, n),
    decreases n,
{
    if n > 0 {
        lemma_ready_count_same(a, b, (n - 1) as nat);
        let g = (n - 1) as u8;
        assert((a.contains_key(g) && a[g].ready()) == (b.contains_key(g) && b[g].ready()));
    }
}

/// One group that becomes ready counts.
proof fn lemma_ready_count_insert(groups: Map<u8, GroupModel>, g: u8, group: GroupModel, n: nat)
    requires
        n <= 255,
        groups.contains_key(g) && groups[g].ready() ==> group.ready(),
    ensures
        ready_count(groups.insert(g, group), n) == ready_count(groups, n) + if g < n
            && group.ready() && !(groups.contains_key(g) && groups[g].ready()) {
            1nat
        } else {
            0nat
        },
    decreases n,
{
    if n > 0 {
        lemma_ready_count_insert(groups, g, group, (n - 1) as nat);
    }
}

/// The arrival of a shard keeps the group one of the slice.
proof fn lemma_group_step(job: SliceJob, buf: Seq<u8>, head: ChunkModel, group: GroupModel, a: Arrival)
    requires
        well_encoded(job, buf),
        of_slice(job, a),
        group_of(job, a.group, group),
    ensures
        ({
            let c = chunk_of(job, head, a.group, a.shard);
            let t = group.inserted(c.shard_idx, c.data, c.payload_len, a.now_us, a.seq);
            &&& t.ready() || t.state.open()
            &&& group.ready() ==> t.ready()
            &&& t.valid()
            &&& t.k == job.k(a.group)
            &&& t.m == job.m(a.group)
            &&& agrees(t.shards(), job.group(a.group))
            &&& lens_of(job, a.group, t.lens)
            &&& t.state.open() || t.state is Ready || t.state is Decoding
        }),
{
    let g = a.group;
    let c = chunk_of(job, head, g, a.shard);
    let t = group.inserted(c.shard_idx, c.data, c.payload_len, a.now_us, a.seq);
    lemma_group(job, g);
    group.law_inserted_valid(c.shard_idx, c.data, c.payload_len, a.now_us, a.seq);
    assert(job.placed(buf, g));
    assert(c.shard_idx == a.shard);
    assert(t.shards() =~= group.shards().update(a.shard, Some(c.data)));
    lemma_present(t.shards());
    lemma_present(group.shards());
    lemma_present(group.data);
    if group.ready() {
        if a.shard < group.k {
            assert(group.shards()[a.shard] == group.data[a.shard]);
        }
        assert(t.ready());
    }
    assert forall|i: int| 0 <= i < t.shards().len() && (#[trigger] t.shards()[i]) is Some implies t.shards()[i]
        == Some(job.group(g)[i]) by {
        if i != a.shard {
            assert(group.shards()[i] is Some);
        }
    }
    assert forall|i: int| 0 <= i < job.k(g) implies (#[trigger] t.lens[i]) == announced_lens(
        job,
        g,
    )[i] || t.lens[i] == UNKNOWN_LEN by {
        if i != a.shard {
            assert(t.lens[i] == group.lens[i]);
        }
    }
}

/// A group of which nothing has come is one of the slice.
proof fn lemma_group_start(job: SliceJob, buf: Seq<u8>, g: int)
    requires
        well_encoded(job, buf),
        0 <= g < job.group_count(),
    ensures
        group_of(job, g, new_group(job.k(g) as u8, job.m(g) as u8)),
        !new_group(job.k(g) as u8, job.m(g) as u8).ready(),
{
    lemma_group(job, g);
    assert(job.placed(buf, g));
    lemma_new_group(job.k(g) as u8, job.m(g) as u8);
}

/// The arrival of a shard keeps the slice one of its shards.
#[verifier::rlimit(40)]
proof fn lemma_slice_step(job: SliceJob, buf: Seq<u8>, head: ChunkModel, s: SliceModel, a: Arrival)
    requires
        well_encoded(job, buf),
        of_slice(job, a),
        slice_of(job, s),
    ensures
        slice_of(job, s.inserted(chunk_of(job, head, a.group, a.shard), a.seq, a.now_us)),
{
    let c = chunk_of(job, head, a.group, a.shard);
    let n = job.group_count();
    let g = a.group as u8;
    lemma_group(job, a.group);
    lemma_group_start(job, buf, a.group);
    assert(group_of(job, a.group, s.group_before(c))) by {
        if s.groups.contains_key(g) {
            assert(g as int == a.group);
        }
    }
    lemma_group_step(job, buf, head, s.group_before(c), a);
    s.law_inserted_valid(c, a.seq, a.now_us);
    let w = s.with_chunk(c, a.seq, a.now_us);
    let done = w.groups[g];
    lemma_ready_count_insert(s.groups, g, done, n);
    assert(done.ready() == s.group_after(c, a.seq, a.now_us).ready());
    lemma_ready_count_bound(w.groups, n);
    assert(w.ready_groups == ready_count(w.groups, n));
    assert forall|x: u8| #[trigger] w.groups.contains_key(x) implies x < n && group_of(
        job,
        x as int,
        w.groups[x],
    ) by {
        if x == g {
            assert(done.shards() == s.group_after(c, a.seq, a.now_us).shards());
        } else {
            assert(s.groups.contains_key(x));
        }
    }
    if w.collected() {
        let e = w.emitting();
        lemma_ready_count_same(e.groups, w.groups, n);
        assert forall|x: u8| #[trigger] e.groups.contains_key(x) implies x < n && group_of(
            job,
            x as int,
            e.groups[x],
        ) by {
            assert(w.groups.contains_key(x));
            assert(e.groups[x] == due_for_decoding(w.groups[x]));
            assert(e.groups[x].shards() == w.groups[x].shards());
        }
    }
}

proof fn lemma_after_arrivals(job: SliceJob, buf: Seq<u8>, head: ChunkModel, arrivals: Seq<Arrival>)
    requires
        well_encoded(job, buf),
        forall|i: int| 0 <= i < arrivals.len() ==> of_slice(job, #[trigger] arrivals[i]),
    ensures
        slice_of(job, after_arrivals(job, head, arrivals)),
    decreases arrivals.len(),
{
    if arrivals.len() == 0 {
        lemma_group(job, 0);
        lemma_ready_count_none(new_slice(job.group_count() as u8).groups, job.group_count());
    } else {
        let front = arrivals.drop_last();
        assert forall|i: int| 0 <= i < front.len() implies of_slice(job, #[trigger] front[i]) by {
            assert(front[i] == arrivals[i]);
        }
        lemma_after_arrivals(job, buf, head, front);
        assert(of_slice(job, arrivals[arrivals.len() - 1]));
        lemma_slice_step(
            job,
            buf,
            head,
            after_arrivals(job, head, front),
            arrivals.last(),
        );
    }
}

/// Shards that are lost are recovered: once as many shards of each group of a slice have
/// arrived as it has data shards, one of them a data shard, in whatever order and however
/// often they come, the slice goes on to the decoder and holds what it takes to have the
/// bytes that were encoded, which [`crate::fec::slice_builder::SliceBuilder::get_data_sync`]
/// then returns.
pub proof fn law_lost_shards_are_recovered(
    job: SliceJob,
    buf: Seq<u8>,
    head: ChunkModel,
    arrivals: Seq<Arrival>,
)
    requires
        well_encoded(job, buf),
        forall|i: int| 0 <= i < arrivals.len() ==> of_slice(job, #[trigger] arrivals[i]),
        enough(job, after_arrivals(job, head, arrivals)),
    ensures
        holds_shards_of(after_arrivals(job, head, arrivals), job),
        !(after_arrivals(job, head, arrivals).state is Assembling),
{
    let s = after_arrivals(job, head, arrivals);
    let n = job.group_count();
    lemma_after_arrivals(job, buf, head, arrivals);
    assert forall|g: u8| g < n implies #[trigger] s.groups.contains_key(g) && s.groups[g].ready() by {
        assert(s.groups.contains_key(g));
        assert(group_of(job, g as int, s.groups[g]));
    }
    lemma_ready_count_all(s.groups, n);
    assert forall|g: int| 0 <= g < n implies ({
        let group = #[trigger] s.groups[g as u8];
        &&& s.groups.contains_key(g as u8)
        &&& group.k == job.k(g)
        &&& group.m == job.m(g)
        &&& shards_of(group.k, group.m, group.shards(), job.data_shards(g))
        &&& lens_of(job, g, group.lens)
    }) by {
        let group = s.groups[g as u8];
        assert(s.groups.contains_key(g as u8));
        assert(group_of(job, g, group));
        lemma_group(job, g);
        law_every_group_is_protected(job, g);
        assert(job.placed(buf, g));
        let data = job.data_shards(g);
        assert(job.group(g) == data + rs_parity(data, group.m as nat));
        assert(uniform(data)) by {
            assert forall|i: int| 0 <= i < data.len() implies (#[trigger] data[i]).len()
                == data[0].len() by {
                assert(job.group(g)[i] == data[i]);
                assert(job.group(g)[0] == data[0]);
            }
            assert(job.group(g)[0] == data[0]);
        }
    }
}

} // verus!
