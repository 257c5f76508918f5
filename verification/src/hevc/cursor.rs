//! Parts of the syntax that are passed over without looking at them.
use crate::hevc::reader::{lemma_after_few, lemma_after_ues, lemma_ue_end, RbspReader, ReaderModel};
use vstd::prelude::*;

verus! {

/// The bits that the announced sub-layers take: the flags at `p` say of each whether it has
/// a profile and a level.
pub open spec fn sub_layer_bits(c: ReaderModel, n: nat) -> int
    decreases n,
{
    if n == 0 {
        0
    } else {
        let flags = c.skip(2 * (n - 1));
        sub_layer_bits(c, (n - 1) as nat) + (if flags.flag() {
            96int
        } else {
            0
        }) + (if flags.skip(1).flag() {
            8int
        } else {
            0
        })
    }
}

/// Behind the profile, tier and level.
pub open spec fn after_profile(c: ReaderModel, profile_present: bool, sub_layers: nat) -> ReaderModel {
    let d = if profile_present {
        c.skip(96)
    } else {
        c
    };
    d.skip(2 * sub_layers + sub_layer_bits(d, sub_layers))
}

/// Behind one scaling matrix.
pub open spec fn after_matrix(c: ReaderModel, size_id: nat) -> ReaderModel {
    if !c.flag() {
        c.skip(1).after_ue()
    } else {
        c.skip(1).after_ues(
            if size_id == 0 {
                16
            } else if size_id == 1 {
                64
            } else {
                65
            },
        )
    }
}

/// Behind `n` scaling matrices of one size.
pub open spec fn after_matrices(c: ReaderModel, size_id: nat, n: nat) -> ReaderModel
    decreases n,
{
    if n == 0 {
        c
    } else {
        after_matrix(after_matrices(c, size_id, (n - 1) as nat), size_id)
    }
}

/// Behind the scaling lists: six matrices of each of the first three sizes, two of the last.
pub open spec fn after_scaling(c: ReaderModel) -> ReaderModel {
    after_matrices(
        after_matrices(after_matrices(after_matrices(c, 0, 6), 1, 6), 2, 6),
        3,
        2,
    )
}

/// Behind `n` references, each a code and a bit.
pub open spec fn after_refs(c: ReaderModel, n: nat) -> ReaderModel
    decreases n,
{
    if n == 0 {
        c
    } else {
        after_refs(c, (n - 1) as nat).after_ue().skip(1)
    }
}

/// Behind `n` entries, each a set bit or two bits of which the first is not set.
pub open spec fn after_used_flags(c: ReaderModel, n: nat) -> ReaderModel
    decreases n,
{
    if n == 0 {
        c
    } else {
        let d = after_used_flags(c, (n - 1) as nat);
        d.skip(
            if d.flag() {
                1
            } else {
                2
            },
        )
    }
}

/// Behind the reference picture set with index `idx`. One that is predicted from another
/// set is taken to have 17 entries.
pub open spec fn after_ref_set(c: ReaderModel, idx: nat) -> ReaderModel {
    let predicted = idx > 0 && c.flag();
    let d = if idx > 0 {
        c.skip(1)
    } else {
        c
    };
    if predicted {
        after_used_flags(d.after_ue().skip(1).after_ue(), 17)
    } else {
        after_refs(after_refs(d.after_ues(2), d.ue() as nat), d.after_ue().ue() as nat)
    }
}

/// Behind the first `n` reference picture sets.
pub open spec fn after_ref_sets(c: ReaderModel, n: nat) -> ReaderModel
    decreases n,
{
    if n == 0 {
        c
    } else {
        after_ref_set(after_ref_sets(c, (n - 1) as nat), (n - 1) as nat)
    }
}

/// A reference takes at most 64 bits.
pub proof fn lemma_after_refs(c: ReaderModel, n: nat)
    ensures
        c.pos <= after_refs(c, n).pos <= c.pos + 64 * n,
        after_refs(c, n).bytes == c.bytes,
    decreases n,
{
    if n > 0 {
        lemma_after_refs(c, (n - 1) as nat);
        let d = after_refs(c, (n - 1) as nat);
        lemma_ue_end(d.bytes, d.pos);
    }
}

/// Passes over the profile, tier and level.
pub(crate) fn skip_profile_tier_level(
    r: &mut RbspReader,
    profile_present: bool,
    max_sub_layers: u32,
)
    requires
        max_sub_layers <= 7,
        old(r)@.pos <= 1000,
    ensures
        final(r)@ == after_profile(old(r)@, profile_present, max_sub_layers as nat),
        final(r)@.pos <= old(r)@.pos + 96 + 106 * max_sub_layers,
{
    if profile_present {
        let _space_tier_profile: u32 = r.read_bits(8);
        let _compatibility: u32 = r.read_bits(32);
        let _source_flags: u32 = r.read_bits(4);
        let _reserved: u32 = r.read_bits(32);
        let _more_reserved: u32 = r.read_bits(12);
        let _level: u32 = r.read_bits(8);
    }
    let ghost base = r@;
    let mut profile: Vec<bool> = Vec::new();
    let mut level: Vec<bool> = Vec::new();
    let mut i: u32 = 0;
    while i < max_sub_layers
        invariant
            i <= max_sub_layers <= 7,
            base.pos <= 1096,
            r@ == base.skip(2 * i),
            profile@.len() == i,
            level@.len() == i,
            forall|j: int|
                0 <= j < i ==> #[trigger] profile@[j] == base.skip(2 * j).flag() && level@[j]
                    == base.skip(2 * j).skip(1).flag(),
        decreases max_sub_layers - i,
    {
        let ghost c = r@;
        let has_profile: bool = r.read_flag();
        let has_level: bool = r.read_flag();
        let ghost old_profile = profile@;
        let ghost old_level = level@;
        profile.push(has_profile);
        level.push(has_level);
        proof {
            assert forall|j: int| 0 <= j < i + 1 implies #[trigger] profile@[j] == base.skip(
                2 * j,
            ).flag() && level@[j] == base.skip(2 * j).skip(1).flag() by {
                if j < i {
                    assert(profile@[j] == old_profile[j] && level@[j] == old_level[j]);
                } else {
                    assert(base.skip(2 * j) == c);
                    assert(c.at(c.pos + 1) == c.skip(1));
                }
            }
        }
        i = i + 1;
    }
    let ghost start = r@;
    let mut k: u32 = 0;
    while k < max_sub_layers
        invariant
            k <= max_sub_layers <= 7,
            base.pos <= 1096,
            start == base.skip(2 * max_sub_layers),
            r@ == start.skip(sub_layer_bits(base, k as nat)),
            0 <= sub_layer_bits(base, k as nat) <= 104 * k,
            profile@.len() == max_sub_layers,
            level@.len() == max_sub_layers,
            forall|j: int|
                0 <= j < max_sub_layers ==> #[trigger] profile@[j] == base.skip(2 * j).flag()
                    && level@[j] == base.skip(2 * j).skip(1).flag(),
        decreases max_sub_layers - k,
    {
        if profile[k as usize] {
            let _space_tier_profile: u32 = r.read_bits(8);
            let _compatibility: u32 = r.read_bits(32);
            let _source_flags: u32 = r.read_bits(4);
            let _reserved: u32 = r.read_bits(32);
            let _more_reserved: u32 = r.read_bits(12);
            let _level: u32 = r.read_bits(8);
        }
        if level[k as usize] {
            let _level: u32 = r.read_bits(8);
        }
        k = k + 1;
    }
}

/// Passes over the scaling lists.
pub(crate) fn skip_scaling_list_data(r: &mut RbspReader)
    requires
        old(r)@.pos + 81920 <= u64::MAX,
    ensures
        final(r)@ == after_scaling(old(r)@),
        old(r)@.pos <= final(r)@.pos <= old(r)@.pos + 81920,
{
    skip_matrices(r, 0, 6);
    skip_matrices(r, 1, 6);
    skip_matrices(r, 2, 6);
    skip_matrices(r, 3, 2);
}

/// Passes over scaling matrices of one size.
fn skip_matrices(r: &mut RbspReader, size_id: u32, n: u32)
    requires
        n <= 6,
        old(r)@.pos + 4096 * n <= u64::MAX,
    ensures
        final(r)@ == after_matrices(old(r)@, size_id as nat, n as nat),
        old(r)@.pos <= final(r)@.pos <= old(r)@.pos + 4096 * n,
{
    let ghost start = r@;
    let mut i: u32 = 0;
    while i < n
        invariant
            i <= n <= 6,
            start.pos + 4096 * n <= u64::MAX,
            r@ == after_matrices(start, size_id as nat, i as nat),
            start.pos <= r@.pos <= start.pos + 4096 * i,
        decreases n - i,
    {
        let ghost c = r@;
        if !r.read_flag() {
            proof {
                lemma_ue_end(c.bytes, c.pos + 1);
            }
            let _matrix_delta: u32 = r.read_ue();
        } else {
            let num_coef: u32 = if size_id == 0 {
                16
            } else if size_id == 1 {
                64
            } else {
                65
            };
            proof {
                lemma_after_ues(c.skip(1), num_coef as nat);
            }
            r.skip_ues(num_coef);
        }
        i = i + 1;
    }
}

/// Passes over references.
pub(crate) fn skip_refs(r: &mut RbspReader, n: u32)
    requires
        old(r)@.pos + 64 * n <= u64::MAX,
    ensures
        final(r)@ == after_refs(old(r)@, n as nat),
        old(r)@.pos <= final(r)@.pos <= old(r)@.pos + 64 * n,
{
    let ghost start = r@;
    let mut i: u32 = 0;
    while i < n
        invariant
            i <= n,
            start.pos + 64 * n <= u64::MAX,
            r@ == after_refs(start, i as nat),
        decreases n - i,
    {
        proof {
            lemma_after_refs(start, i as nat);
            lemma_after_refs(start, (i + 1) as nat);
        }
        let _delta: u32 = r.read_ue();
        let _used: bool = r.read_flag();
        i = i + 1;
    }
    proof {
        lemma_after_refs(start, n as nat);
    }
}

/// Passes over a reference picture set.
pub(crate) fn skip_short_term_ref_pic_set(r: &mut RbspReader, st_rps_idx: u32)
    requires
        old(r)@.pos + 0x100_0000_0000 <= u64::MAX,
    ensures
        final(r)@ == after_ref_set(old(r)@, st_rps_idx as nat),
        old(r)@.pos <= final(r)@.pos <= old(r)@.pos + 0x100_0000_0000,
{
    let predicted: bool = if st_rps_idx > 0 {
        r.read_flag()
    } else {
        false
    };
    let ghost d = r@;
    proof {
        lemma_ue_end(d.bytes, d.pos);
        lemma_ue_end(d.after_ue().bytes, d.after_ue().pos);
        lemma_ue_end(d.after_ue().skip(1).bytes, d.after_ue().skip(1).pos);
        lemma_after_few(d);
    }
    if predicted {
        let _delta_idx: u32 = r.read_ue();
        let _delta_sign: bool = r.read_flag();
        let _delta_abs: u32 = r.read_ue();
        let ghost e = r@;
        let mut i: u32 = 0;
        while i < 17
            invariant
                i <= 17,
                e.pos + 34 <= u64::MAX,
                r@ == after_used_flags(e, i as nat),
                e.pos <= r@.pos <= e.pos + 2 * i,
            decreases 17 - i,
        {
            let used: bool = r.read_flag();
            if !used {
                let _use_delta: bool = r.read_flag();
            }
            i = i + 1;
        }
    } else {
        let num_neg: u32 = r.read_ue();
        let num_pos: u32 = r.read_ue();
        skip_refs(r, num_neg);
        skip_refs(r, num_pos);
    }
}

/// Passes over reference picture sets.
pub(crate) fn skip_ref_sets(r: &mut RbspReader, n: u8)
    requires
        old(r)@.pos + 0x100_0000_0000 * n <= u64::MAX,
    ensures
        final(r)@ == after_ref_sets(old(r)@, n as nat),
        old(r)@.pos <= final(r)@.pos <= old(r)@.pos + 0x100_0000_0000 * n,
{
    let ghost start = r@;
    let mut i: u8 = 0;
    while i < n
        invariant
            i <= n,
            start.pos + 0x100_0000_0000 * n <= u64::MAX,
            r@ == after_ref_sets(start, i as nat),
            start.pos <= r@.pos <= start.pos + 0x100_0000_0000 * i,
        decreases n - i,
    {
        skip_short_term_ref_pic_set(r, i as u32);
        i = i + 1;
    }
}

} // verus!
