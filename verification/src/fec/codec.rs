//! The Reed-Solomon erasure code over GF(2^8) of the `reed-solomon-erasure` crate.
use crate::buffer::bytes_view;
use bytes::Bytes;
use reed_solomon_erasure::galois_8::ReedSolomon;
use vstd::prelude::*;

verus! {

/// What the vectors of `s` hold.
pub open spec fn vec_views(s: Seq<Vec<u8>>) -> Seq<Seq<u8>> {
    Seq::new(s.len(), |i: int| s[i]@)
}

/// What the vectors of `s` hold, where there is one.
pub open spec fn opt_vec_views(s: Seq<Option<Vec<u8>>>) -> Seq<Option<Seq<u8>>> {
    Seq::new(
        s.len(),
        |i: int|
            match s[i] {
                Some(v) => Some(v@),
                None => None,
            },
    )
}

/// What the buffers of `s` hold, where there is one.
pub open spec fn opt_bytes_views(s: Seq<Option<Bytes>>) -> Seq<Option<Seq<u8>>> {
    Seq::new(
        s.len(),
        |i: int|
            match s[i] {
                Some(b) => Some(bytes_view(b)),
                None => None,
            },
    )
}

/// Every shard of `s`, marked as present.
pub open spec fn all_present(s: Seq<Seq<u8>>) -> Seq<Option<Seq<u8>>> {
    Seq::new(s.len(), |i: int| Some(s[i]))
}

/// How many shards are present.
pub open spec fn present(s: Seq<Option<Seq<u8>>>) -> nat
    decreases s.len(),
{
    if s.len() == 0 {
        0
    } else {
        present(s.drop_last()) + if s.last() is Some {
            1nat
        } else {
            0nat
        }
    }
}

/// The shards have one common length, which is not zero.
pub open spec fn uniform(s: Seq<Seq<u8>>) -> bool {
    &&& s.len() > 0
    &&& s[0].len() > 0
    &&& forall|i: int| 0 <= i < s.len() ==> (#[trigger] s[i]).len() == s[0].len()
}

/// Each shard that is present in `s` is the one of `w` at its place.
pub open spec fn agrees(s: Seq<Option<Seq<u8>>>, w: Seq<Seq<u8>>) -> bool {
    &&& s.len() == w.len()
    &&& forall|i: int| 0 <= i < s.len() && (#[trigger] s[i]) is Some ==> s[i] == Some(w[i])
}

/// The present shards suffice for a reconstruction by a code of `k` data and `m`
/// parity shards.
pub open spec fn reconstructible(s: Seq<Option<Seq<u8>>>, k: nat, m: nat) -> bool {
    &&& s.len() == k + m
    &&& present(s) >= k
    &&& forall|i: int| 0 <= i < s.len() ==> ((#[trigger] s[i]) matches Some(a) ==> a.len() > 0)
    &&& forall|i: int, j: int|
        0 <= i < s.len() && 0 <= j < s.len() && s[i] is Some && s[j] is Some ==> (
        #[trigger] s[i])->0.len() == (#[trigger] s[j])->0.len()
}

/// The `m` parity shards that the code gives to the data shards.
pub uninterp spec fn rs_parity(data: Seq<Seq<u8>>, m: nat) -> Seq<Seq<u8>>;

/// The shards after a reconstruction by a code of `k` data and `m` parity shards.
pub uninterp spec fn rs_rebuilt(s: Seq<Option<Seq<u8>>>, k: nat, m: nat) -> Seq<Seq<u8>>;

/// `ReedSolomon::encode`, on a code made by `ReedSolomon::new`: leaves the first `k`
/// shards as they are and overwrites the last `m` with their parity. Both calls fail
/// only on counts or lengths that the precondition rules out.
#[verifier::external_body]
pub(crate) fn rs_encode(k: usize, m: usize, shards: &mut Vec<Vec<u8>>)
    requires
        1 <= k,
        1 <= m,
        k + m <= 256,
        old(shards)@.len() == k + m,
        uniform(vec_views(old(shards)@)),
    ensures
        final(shards)@.len() == k + m,
        vec_views(final(shards)@) == vec_views(old(shards)@).take(k as int) + rs_parity(
            vec_views(old(shards)@).take(k as int),
            m as nat,
        ),
        forall|i: int|
            0 <= i < k + m ==> (#[trigger] final(shards)@[i])@.len() == old(shards)@[0]@.len(),
{
    let rs = ReedSolomon::new(k, m).expect("shard counts are in range");
    rs.encode(shards).expect("shards have one length");
}

/// `ReedSolomon::reconstruct`, on a code made by `ReedSolomon::new`. It fails, and
/// touches nothing, exactly when the count of shards is wrong, a present shard is
/// empty, two present shards differ in length, or fewer than `k` are present. Else it
/// keeps the present shards and fills in the others. Where the present shards belong to
/// data shards and their parity, the filled-in ones belong to them too.
#[verifier::external_body]
pub(crate) fn rs_reconstruct(k: usize, m: usize, shards: &mut Vec<Option<Vec<u8>>>) -> (ok: bool)
    requires
        1 <= k,
        1 <= m,
        k + m <= 256,
    ensures
        ok == reconstructible(opt_vec_views(old(shards)@), k as nat, m as nat),
        !ok ==> opt_vec_views(final(shards)@) == opt_vec_views(old(shards)@),
        ok ==> final(shards)@.len() == k + m,
        ok ==> opt_vec_views(final(shards)@) == all_present(
            rs_rebuilt(opt_vec_views(old(shards)@), k as nat, m as nat),
        ),
        ok ==> forall|i: int|
            0 <= i < k + m && (#[trigger] opt_vec_views(old(shards)@)[i]) is Some
                ==> opt_vec_views(final(shards)@)[i] == opt_vec_views(old(shards)@)[i],
        ok ==> forall|data: Seq<Seq<u8>>|
            #![trigger rs_parity(data, m as nat)]
            data.len() == k && uniform(data) && agrees(
                opt_vec_views(old(shards)@),
                data + rs_parity(data, m as nat),
            ) ==> opt_vec_views(final(shards)@) == all_present(data + rs_parity(data, m as nat)),
{
    let rs = ReedSolomon::new(k, m).expect("shard counts are in range");
    rs.reconstruct(shards).is_ok()
}

} // verus!
