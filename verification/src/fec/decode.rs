//! Recovery of a shard group's payload.
use crate::buffer::{bytes_slice, bytes_view};
use crate::fec::codec::rs_reconstruct;
use crate::fec::codec::{
    all_present, opt_bytes_views, opt_vec_views, present, agrees, reconstructible, rs_parity, rs_rebuilt,
    uniform,
};
use bytes::Bytes;
use vstd::prelude::*;

verus! {

pub struct FecDecoder;

/// The first `k` shards are all present.
pub open spec fn data_present(k: nat, shards: Seq<Option<Seq<u8>>>) -> bool {
    &&& k <= shards.len()
    &&& forall|i: int| 0 <= i < k ==> (#[trigger] shards[i]) is Some
}

/// A shard without its padding.
pub open spec fn trimmed(shard: Seq<u8>, payload_len: u16) -> Seq<u8> {
    if payload_len <= shard.len() {
        shard.take(payload_len as int)
    } else {
        shard
    }
}

/// The payload of the first `n` shards, in order.
pub open spec fn joined(shards: Seq<Option<Seq<u8>>>, lens: Seq<u16>, n: nat) -> Seq<u8>
    decreases n,
{
    if n == 0 {
        Seq::empty()
    } else {
        joined(shards, lens, (n - 1) as nat) + trimmed(shards[n - 1]->0, lens[n - 1])
    }
}

/// The payload of a group of `k` data and `m` parity shards, as far as it can be had.
pub open spec fn fec_decoded(
    k: u8,
    m: u8,
    shards: Seq<Option<Seq<u8>>>,
    lens: Seq<u16>,
) -> Option<Seq<u8>> {
    if shards.len() < k + m || lens.len() < k || present(shards) < k {
        None
    } else if data_present(k as nat, shards) {
        Some(joined(shards, lens, k as nat))
    } else if reconstructible(shards, k as nat, m as nat) {
        Some(joined(all_present(rs_rebuilt(shards, k as nat, m as nat)), lens, k as nat))
    } else {
        None
    }
}

/// A group without parity that lacks a data shard although it counts `k` shards: no
/// code exists for it.
pub open spec fn no_code(k: u8, m: u8, shards: Seq<Option<Seq<u8>>>, lens: Seq<u16>) -> bool {
    &&& m == 0
    &&& lens.len() >= k
    &&& present(shards) >= k
    &&& !data_present(k as nat, shards)
}

/// The shards belong to the group that `data` and its parity make up, and enough of them
/// are there.
pub open spec fn shards_of(k: u8, m: u8, shards: Seq<Option<Seq<u8>>>, data: Seq<Seq<u8>>) -> bool {
    let word = data + rs_parity(data, m as nat);
    &&& m > 0
    &&& data.len() == k
    &&& uniform(data)
    &&& word.len() == k + m
    &&& uniform(word)
    &&& agrees(shards, word)
    &&& present(shards) >= k
}

/// The payload depends on the first shards alone.
pub proof fn lemma_joined_same(
    a: Seq<Option<Seq<u8>>>,
    b: Seq<Option<Seq<u8>>>,
    lens: Seq<u16>,
    n: nat,
)
    requires
        forall|i: int| 0 <= i < n ==> #[trigger] a[i] == b[i],
    ensures
        joined(a, lens, n) == joined(b, lens, n),
    decreases n,
{
    if n > 0 {
        lemma_joined_same(a, b, lens, (n - 1) as nat);
        assert(a[n - 1] == b[n - 1]);
    }
}

/// The number of present shards, counted.
fn count_present(shards: &[Option<Bytes>]) -> (n: usize)
    ensures
        n == present(opt_bytes_views(shards@)),
        n <= shards@.len(),
{
    let mut n: usize = 0;
    let mut i: usize = 0;
    while i < shards.len()
        invariant
            i <= shards@.len(),
            n <= i,
            n == present(opt_bytes_views(shards@).take(i as int)),
        decreases shards@.len() - i,
    {
        proof {
            let v = opt_bytes_views(shards@);
            assert(v.take(i + 1).drop_last() =~= v.take(i as int));
        }
        if shards[i].is_some() {
            n = n + 1;
        }
        i = i + 1;
    }
    proof {
        let v = opt_bytes_views(shards@);
        assert(v.take(v.len() as int) =~= v);
    }
    n
}

/// Appends the first bytes of `shard`, `payload_len` at most, to `out`.
fn append_trimmed(out: &mut Vec<u8>, shard: &[u8], payload_len: u16)
    ensures
        final(out)@ == old(out)@ + trimmed(shard@, payload_len),
{
    let len: usize = if (payload_len as usize) < shard.len() {
        payload_len as usize
    } else {
        shard.len()
    };
    let part = vstd::slice::slice_subrange(shard, 0, len);
    out.extend_from_slice(part);
    assert(out@ =~= old(out)@ + trimmed(shard@, payload_len));
}

impl FecDecoder {
    /// The payload of a group: of its data shards when they are all there, else of the
    /// shards that the code reconstructs; `None` when that is not possible.
    pub fn decode(k: u8, m: u8, shards: &[Option<Bytes>], payload_lens: &[u16]) -> (r: Option<
        Vec<u8>,
    >)
        requires
            k + m <= 255,
            !no_code(k, m, opt_bytes_views(shards@), payload_lens@),
        ensures
            match r {
                Some(v) => fec_decoded(k, m, opt_bytes_views(shards@), payload_lens@) == Some(v@),
                None => fec_decoded(k, m, opt_bytes_views(shards@), payload_lens@) is None,
            },
            forall|data: Seq<Seq<u8>>|
                #![trigger rs_parity(data, m as nat)]
                shards_of(k, m, opt_bytes_views(shards@), data) && payload_lens@.len() >= k ==> {
                    &&& r is Some
                    &&& r->0@ == joined(all_present(data), payload_lens@, k as nat)
                },
    {
        let ghost s = opt_bytes_views(shards@);
        let k_us: usize = k as usize;
        let total: usize = (k + m) as usize;
        if shards.len() < total || payload_lens.len() < k_us {
            return None;
        }
        if count_present(shards) < k_us {
            return None;
        }
        let mut out: Vec<u8> = Vec::new();
        let mut i: usize = 0;
        while i < k_us && shards[i].is_some()
            invariant
                s == opt_bytes_views(shards@),
                i <= k_us == k <= shards@.len(),
                k_us <= payload_lens@.len(),
                forall|j: int| 0 <= j < i ==> (#[trigger] s[j]) is Some,
                out@ == joined(s, payload_lens@, i as nat),
            ensures
                i == k_us || s[i as int] is None,
            decreases k_us - i,
        {
            if let Some(b) = &shards[i] {
                append_trimmed(&mut out, bytes_slice(b), payload_lens[i]);
            }
            i = i + 1;
        }
        if i == k_us {
            proof {
                assert(data_present(k as nat, s));
                assert forall|data: Seq<Seq<u8>>|
                    #![trigger rs_parity(data, m as nat)]
                    shards_of(k, m, s, data) implies out@ == joined(
                    all_present(data),
                    payload_lens@,
                    k as nat,
                ) by {
                    assert forall|x: int| 0 <= x < k implies #[trigger] s[x] == all_present(data)[x] by {
                        assert(s[x] is Some);
                    }
                    lemma_joined_same(s, all_present(data), payload_lens@, k as nat);
                }
            }
            return Some(out);
        }
        let mut temp: Vec<Option<Vec<u8>>> = Vec::new();
        let mut j: usize = 0;
        while j < shards.len()
            invariant
                j <= shards@.len(),
                temp@.len() == j,
                forall|x: int|
                    0 <= x < j ==> (#[trigger] opt_vec_views(temp@)[x]) == opt_bytes_views(
                        shards@,
                    )[x],
            decreases shards@.len() - j,
        {
            let ghost before = temp@;
            match &shards[j] {
                Some(b) => {
                    let mut v: Vec<u8> = Vec::new();
                    v.extend_from_slice(bytes_slice(b));
                    assert(v@ =~= bytes_view(*b));
                    temp.push(Some(v));
                },
                None => {
                    temp.push(None);
                },
            }
            assert(forall|x: int|
                0 <= x < j ==> (#[trigger] opt_vec_views(temp@)[x]) == opt_vec_views(before)[x]);
            j = j + 1;
        }
        assert(opt_vec_views(temp@) =~= s);
        proof {
            assert forall|data: Seq<Seq<u8>>|
                #![trigger rs_parity(data, m as nat)]
                shards_of(k, m, s, data) implies reconstructible(s, k as nat, m as nat) by {
                let word = data + rs_parity(data, m as nat);
                assert forall|x: int| 0 <= x < s.len() && (#[trigger] s[x]) is Some implies s[x]->0.len()
                    == word[0].len() by {
                    assert(s[x] == Some(word[x]));
                }
            }
        }
        if !rs_reconstruct(k_us, m as usize, &mut temp) {
            return None;
        }
        let ghost t = all_present(rs_rebuilt(s, k as nat, m as nat));
        let mut out: Vec<u8> = Vec::new();
        let mut i: usize = 0;
        while i < k_us
            invariant
                t == opt_vec_views(temp@),
                t == all_present(rs_rebuilt(s, k as nat, m as nat)),
                i <= k_us == k <= temp@.len(),
                k_us <= payload_lens@.len(),
                out@ == joined(t, payload_lens@, i as nat),
            decreases k_us - i,
        {
            assert(t.len() == temp@.len() && t.len() == rs_rebuilt(s, k as nat, m as nat).len());
            assert(t[i as int] is Some);
            match &temp[i] {
                Some(v) => {
                    append_trimmed(&mut out, v.as_slice(), payload_lens[i]);
                },
                None => {},
            }
            i = i + 1;
        }
        proof {
            assert forall|data: Seq<Seq<u8>>|
                #![trigger rs_parity(data, m as nat)]
                shards_of(k, m, s, data) implies out@ == joined(
                all_present(data),
                payload_lens@,
                k as nat,
            ) by {
                let word = data + rs_parity(data, m as nat);
                assert(t == all_present(word));
                lemma_joined_same(t, all_present(data), payload_lens@, k as nat);
            }
        }
        Some(out)
    }
}

} // verus!
