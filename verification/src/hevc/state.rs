//! Picture order counts and the decoded picture buffer.
use crate::hevc::bits::{packs, BitWriter};
use crate::hevc::refs::{DpbEntry, RefPic, RpsModel, ShortTermRps, MAX_DPB};
use crate::sorting::{insert_by, law_sort_orders, lemma_insert_at, sort_by};
use vstd::prelude::*;

verus! {

/// A 32-bit number read as a signed one.
pub open spec fn signed(x: u32) -> int {
    if x < 0x8000_0000 {
        x as int
    } else {
        x - 0x1_0000_0000
    }
}

/// Half of a number, rounded towards zero.
pub open spec fn half(x: int) -> int {
    if x >= 0 {
        x / 2
    } else {
        -((-x) / 2)
    }
}

pub open spec fn fits_i32(x: int) -> bool {
    i32::MIN <= x <= i32::MAX
}

/// Distance between two order counts.
pub open spec fn poc_distance(curr: i32) -> spec_fn(i32) -> int {
    |poc: i32| if curr >= poc { curr - poc } else { poc - curr }
}

/// The order count of a picture as a sorting key.
pub open spec fn by_poc() -> spec_fn(DpbEntry) -> int {
    |e: DpbEntry| e.abs_poc as int
}

/// The order counts of the short-term references.
pub open spec fn short_term(dpb: Seq<DpbEntry>) -> Seq<i32>
    decreases dpb.len(),
{
    if dpb.len() == 0 {
        Seq::empty()
    } else {
        let front = short_term(dpb.drop_last());
        if dpb.last().is_reference && !dpb.last().long_term {
            front.push(dpb.last().abs_poc)
        } else {
            front
        }
    }
}

/// References to the pictures with these order counts, each used.
pub open spec fn ref_pics(pocs: Seq<i32>, curr: i32) -> Seq<RefPic> {
    Seq::new(
        pocs.len(),
        |i: int|
            RefPic {
                abs_poc: pocs[i],
                delta_poc: (pocs[i] - curr) as i32,
                used_by_curr: true,
                is_long_term: false,
            },
    )
}

/// The distance of each of these order counts from the current one can be written down.
spec fn in_reach(pocs: Seq<i32>, curr: i32) -> bool {
    forall|i: int| 0 <= i < pocs.len() ==> fits_i32(#[trigger] pocs[i] - curr)
}

/// The distance of each short-term reference from the current picture can be written down.
pub open spec fn reachable(dpb: Seq<DpbEntry>, curr: i32) -> bool {
    forall|i: int|
        0 <= i < dpb.len() && (#[trigger] dpb[i]).is_reference && !dpb[i].long_term ==> fits_i32(
            dpb[i].abs_poc - curr,
        )
}

proof fn lemma_reachable(dpb: Seq<DpbEntry>, curr: i32)
    requires
        reachable(dpb, curr),
    ensures
        in_reach(short_term(dpb), curr),
    decreases dpb.len(),
{
    if dpb.len() > 0 {
        let front = dpb.drop_last();
        assert forall|i: int|
            0 <= i < front.len() && (#[trigger] front[i]).is_reference
                && !front[i].long_term implies fits_i32(front[i].abs_poc - curr) by {
            assert(front[i] == dpb[i]);
        }
        lemma_reachable(front, curr);
        assert(dpb.last() == dpb[dpb.len() - 1]);
    }
}

/// What stays of pictures in reach is in reach.
proof fn lemma_pruned_reachable(dpb: Seq<DpbEntry>, curr: i32)
    requires
        reachable(dpb, curr),
    ensures
        reachable(pruned(dpb), curr),
{
    let keep = |e: DpbEntry| e.is_reference;
    let refs = dpb.filter(keep);
    let sorted = sort_by(refs, by_poc());
    lemma_filter_members(dpb, keep);
    law_sort_orders(refs, by_poc());
    lemma_members(sorted, refs);
    assert forall|i: int|
        0 <= i < pruned(dpb).len() && (#[trigger] pruned(dpb)[i]).is_reference && !pruned(
            dpb,
        )[i].long_term implies fits_i32(pruned(dpb)[i].abs_poc - curr) by {
        let e = pruned(dpb)[i];
        if refs.len() > MAX_DPB {
            assert(e == sorted[i + (refs.len() - MAX_DPB)]);
        }
        assert(refs.contains(e));
        assert(dpb.contains(e));
        let k = choose|k: int| 0 <= k < dpb.len() && dpb[k] == e;
        assert(dpb[k].is_reference);
    }
}

/// Only references, and of those at most [`MAX_DPB`] with the highest order counts.
pub open spec fn pruned(dpb: Seq<DpbEntry>) -> Seq<DpbEntry> {
    let refs = dpb.filter(|e: DpbEntry| e.is_reference);
    if refs.len() > MAX_DPB {
        sort_by(refs, by_poc()).skip(refs.len() - MAX_DPB)
    } else {
        refs
    }
}

/// The buffer with the first picture of this order count marked as shown.
pub open spec fn output_marked(dpb: Seq<DpbEntry>, poc: i32) -> Seq<DpbEntry>
    decreases dpb.len(),
{
    if dpb.len() == 0 {
        dpb
    } else if dpb[0].abs_poc == poc {
        dpb.update(0, DpbEntry { output_marked: true, ..dpb[0] })
    } else {
        seq![dpb[0]] + output_marked(dpb.drop_first(), poc)
    }
}

/// What is known of the pictures decoded so far.
#[derive(Debug)]
pub struct HevcState {
    pub dpb: Vec<DpbEntry>,
    pub last_valid_rps: Option<ShortTermRps>,
    pub prev_poc_msb: i32,
    pub prev_poc_lsb: u32,
    pub max_poc_lsb: u32,
}

/// What a [`HevcState`] holds.
#[verifier::ext_equal]
pub struct StateModel {
    pub dpb: Seq<DpbEntry>,
    pub last_valid_rps: Option<RpsModel>,
    pub prev_poc_msb: i32,
    pub prev_poc_lsb: u32,
    pub max_poc_lsb: u32,
}

impl View for HevcState {
    type V = StateModel;

    open spec fn view(&self) -> StateModel {
        StateModel {
            dpb: self.dpb@,
            last_valid_rps: match self.last_valid_rps {
                Some(r) => Some(r@),
                None => None,
            },
            prev_poc_msb: self.prev_poc_msb,
            prev_poc_lsb: self.prev_poc_lsb,
            max_poc_lsb: self.max_poc_lsb,
        }
    }
}

impl StateModel {
    /// The upper part of the order count of the picture with this lower part: that of the
    /// picture before, moved by one period where the lower part has wrapped around.
    pub open spec fn poc_msb(self, poc_lsb: u32) -> int {
        let max = signed(self.max_poc_lsb);
        let prev = signed(self.prev_poc_lsb);
        let lsb = signed(poc_lsb);
        if lsb < prev && prev - lsb >= half(max) {
            self.prev_poc_msb + max
        } else if lsb > prev && lsb - prev > half(max) {
            self.prev_poc_msb - max
        } else {
            self.prev_poc_msb as int
        }
    }

    /// The order count of the picture with this lower part.
    pub open spec fn poc(self, poc_lsb: u32) -> int {
        self.poc_msb(poc_lsb) + signed(poc_lsb)
    }

    /// The order count can be derived within 32 bits.
    pub open spec fn derivable(self, poc_lsb: u32) -> bool {
        &&& fits_i32(signed(self.prev_poc_lsb) - signed(poc_lsb))
        &&& fits_i32(signed(poc_lsb) - signed(self.prev_poc_lsb))
        &&& fits_i32(self.poc_msb(poc_lsb))
        &&& fits_i32(self.poc(poc_lsb))
    }

    /// The lower part within one period.
    pub open spec fn lsb(self, poc_lsb: u32) -> u32 {
        poc_lsb & ((self.max_poc_lsb - 1) as u32)
    }

    /// The buffer after this picture, which is a reference.
    pub open spec fn dpb_with(self, poc_lsb: u32, output: bool, long_term: bool) -> Seq<DpbEntry> {
        pruned(
            self.dpb.push(
                DpbEntry {
                    abs_poc: self.poc(poc_lsb) as i32,
                    lsb: self.lsb(poc_lsb),
                    long_term,
                    is_reference: true,
                    output_marked: output,
                },
            ),
        )
    }

    /// The picture can be taken in.
    pub open spec fn rememberable(
        self,
        poc_lsb: u32,
        is_reference: bool,
        output: bool,
        long_term: bool,
    ) -> bool {
        &&& self.max_poc_lsb >= 1
        &&& self.derivable(poc_lsb)
        &&& poc_lsb < 0x8000_0000 || fits_i32(self.poc(poc_lsb) - signed(self.lsb(poc_lsb)))
        &&& is_reference ==> reachable(self.dpb, self.poc(poc_lsb) as i32) || reachable(
            self.dpb_with(poc_lsb, output, long_term),
            self.poc(poc_lsb) as i32,
        )
    }

    /// After this picture.
    pub open spec fn remembered(
        self,
        poc_lsb: u32,
        is_reference: bool,
        output: bool,
        long_term: bool,
    ) -> StateModel {
        let poc = self.poc(poc_lsb) as i32;
        let moved = StateModel {
            prev_poc_msb: (poc - signed(self.lsb(poc_lsb))) as i32,
            prev_poc_lsb: self.lsb(poc_lsb),
            ..self
        };
        if is_reference {
            let dpb = self.dpb_with(poc_lsb, output, long_term);
            StateModel { dpb, last_valid_rps: Some(short_term_rps(dpb, poc)), ..moved }
        } else {
            moved
        }
    }

    /// Part of the saved set is still there.
    pub open spec fn saved_usable(self) -> bool {
        self.last_valid_rps is Some && !self.last_valid_rps->0.filtered(self.dpb).empty()
    }

    /// The set for a picture that has to be made up: the saved one where part of it is
    /// still there, else all that is there.
    pub open spec fn concealment_rps(self, curr: i32) -> RpsModel {
        if self.saved_usable() {
            self.last_valid_rps->0.filtered(self.dpb)
        } else {
            short_term_rps(self.dpb, curr)
        }
    }
}

/// The short-term references before and after a picture, the closest first.
pub open spec fn short_term_rps(dpb: Seq<DpbEntry>, curr: i32) -> RpsModel {
    let pocs = short_term(dpb);
    RpsModel {
        negative: ref_pics(
            sort_by(pocs.filter(|p: i32| p < curr), poc_distance(curr)),
            curr,
        ),
        positive: ref_pics(
            sort_by(pocs.filter(|p: i32| p > curr), poc_distance(curr)),
            curr,
        ),
    }
}

fn distance(curr: i32, poc: i32) -> (r: u64)
    ensures
        r == poc_distance(curr)(poc),
{
    if curr >= poc {
        (curr as i64 - poc as i64) as u64
    } else {
        (poc as i64 - curr as i64) as u64
    }
}

/// Puts an order count where its distance belongs.
fn insert_near(v: &mut Vec<i32>, poc: i32, curr: i32)
    ensures
        final(v)@ == insert_by(old(v)@, poc, poc_distance(curr)),
{
    let mut i: usize = v.len();
    while i > 0 && distance(curr, v[i - 1]) > distance(curr, poc)
        invariant
            i <= v@.len(),
            forall|j: int|
                i <= j < v@.len() ==> poc_distance(curr)(#[trigger] v@[j]) > poc_distance(curr)(
                    poc,
                ),
        decreases i,
    {
        i = i - 1;
    }
    proof {
        lemma_insert_at(v@, poc, poc_distance(curr), i as int);
    }
    v.insert(i, poc);
}

/// The order counts by their distance.
fn sort_near(pocs: &Vec<i32>, curr: i32) -> (r: Vec<i32>)
    ensures
        r@ == sort_by(pocs@, poc_distance(curr)),
{
    let mut out: Vec<i32> = Vec::new();
    let mut i: usize = 0;
    while i < pocs.len()
        invariant
            i <= pocs@.len(),
            out@ == sort_by(pocs@.take(i as int), poc_distance(curr)),
        decreases pocs@.len() - i,
    {
        assert(pocs@.take(i + 1).drop_last() =~= pocs@.take(i as int));
        insert_near(&mut out, pocs[i], curr);
        i = i + 1;
    }
    assert(pocs@.take(i as int) =~= pocs@);
    out
}

/// The pictures by their order counts.
fn sort_entries(dpb: &Vec<DpbEntry>) -> (r: Vec<DpbEntry>)
    ensures
        r@ == sort_by(dpb@, by_poc()),
{
    let mut out: Vec<DpbEntry> = Vec::new();
    let mut i: usize = 0;
    while i < dpb.len()
        invariant
            i <= dpb@.len(),
            out@ == sort_by(dpb@.take(i as int), by_poc()),
        decreases dpb@.len() - i,
    {
        assert(dpb@.take(i + 1).drop_last() =~= dpb@.take(i as int));
        let e: DpbEntry = dpb[i];
        let mut k: usize = out.len();
        while k > 0 && out[k - 1].abs_poc > e.abs_poc
            invariant
                k <= out@.len(),
                forall|j: int| k <= j < out@.len() ==> (#[trigger] out@[j]).abs_poc > e.abs_poc,
            decreases k,
        {
            k = k - 1;
        }
        proof {
            lemma_insert_at(out@, e, by_poc(), k as int);
        }
        out.insert(k, e);
        i = i + 1;
    }
    assert(dpb@.take(i as int) =~= dpb@);
    out
}

/// The order counts on one side of the current one.
fn on_side(pocs: &Vec<i32>, curr: i32, before: bool) -> (r: Vec<i32>)
    ensures
        before ==> r@ == pocs@.filter(|p: i32| p < curr),
        !before ==> r@ == pocs@.filter(|p: i32| p > curr),
{
    let mut out: Vec<i32> = Vec::new();
    let ghost keep = if before {
        |p: i32| p < curr
    } else {
        |p: i32| p > curr
    };
    let mut i: usize = 0;
    proof {
        reveal(Seq::filter);
        assert(pocs@.take(0).filter(keep) =~= Seq::<i32>::empty());
    }
    while i < pocs.len()
        invariant
            i <= pocs@.len(),
            before ==> keep == (|p: i32| p < curr),
            !before ==> keep == (|p: i32| p > curr),
            out@ == pocs@.take(i as int).filter(keep),
        decreases pocs@.len() - i,
    {
        proof {
            reveal(Seq::filter);
            assert(pocs@.take(i + 1).drop_last() =~= pocs@.take(i as int));
        }
        let poc: i32 = pocs[i];
        if (before && poc < curr) || (!before && poc > curr) {
            out.push(poc);
        }
        i = i + 1;
    }
    assert(pocs@.take(i as int) =~= pocs@);
    out
}

/// References to the pictures with these order counts.
fn make_pics(pocs: &Vec<i32>, curr: i32) -> (r: Vec<RefPic>)
    requires
        in_reach(pocs@, curr),
    ensures
        r@ == ref_pics(pocs@, curr),
{
    let mut out: Vec<RefPic> = Vec::new();
    let mut i: usize = 0;
    while i < pocs.len()
        invariant
            i <= pocs@.len(),
            in_reach(pocs@, curr),
            out@ == ref_pics(pocs@.take(i as int), curr),
        decreases pocs@.len() - i,
    {
        let poc: i32 = pocs[i];
        assert(fits_i32(pocs@[i as int] - curr));
        out.push(
            RefPic { abs_poc: poc, delta_poc: poc - curr, used_by_curr: true, is_long_term: false },
        );
        i = i + 1;
        assert(out@ =~= ref_pics(pocs@.take(i as int), curr));
    }
    assert(pocs@.take(i as int) =~= pocs@);
    out
}

pub proof fn lemma_members<A>(a: Seq<A>, b: Seq<A>)
    requires
        a.to_multiset() == b.to_multiset(),
    ensures
        forall|i: int| 0 <= i < a.len() ==> b.contains(#[trigger] a[i]),
{
    broadcast use vstd::seq_lib::group_to_multiset_ensures;

    assert forall|i: int| 0 <= i < a.len() implies b.contains(#[trigger] a[i]) by {
        assert(a.contains(a[i]));
        assert(a.to_multiset().contains(a[i]));
    }
}

pub proof fn lemma_filter_members<A>(s: Seq<A>, keep: spec_fn(A) -> bool)
    ensures
        forall|i: int|
            0 <= i < s.filter(keep).len() ==> keep(#[trigger] s.filter(keep)[i]) && s.contains(
                s.filter(keep)[i],
            ),
        s.filter(keep).len() <= s.len(),
{
    s.lemma_filter_len(keep);
    assert forall|i: int| 0 <= i < s.filter(keep).len() implies keep(#[trigger] s.filter(keep)[i])
        && s.contains(s.filter(keep)[i]) by {
        s.lemma_filter_pred(keep, i);
        s.lemma_filter_contains_rev(keep, s.filter(keep)[i]);
    }
}

/// What is sorted out of numbers in reach is in reach.
proof fn lemma_side_in_reach(pocs: Seq<i32>, keep: spec_fn(i32) -> bool, curr: i32)
    requires
        in_reach(pocs, curr),
    ensures
        in_reach(sort_by(pocs.filter(keep), poc_distance(curr)), curr),
{
    let side = pocs.filter(keep);
    let sorted = sort_by(side, poc_distance(curr));
    law_sort_orders(side, poc_distance(curr));
    lemma_members(sorted, side);
    lemma_filter_members(pocs, keep);
    assert forall|i: int| 0 <= i < sorted.len() implies fits_i32(#[trigger] sorted[i] - curr) by {
        assert(side.contains(sorted[i]));
        let k = choose|k: int| 0 <= k < side.len() && side[k] == sorted[i];
        assert(pocs.contains(side[k]));
        let m = choose|m: int| 0 <= m < pocs.len() && pocs[m] == side[k];
        assert(fits_i32(pocs[m] - curr));
    }
}

impl HevcState {
    /// No picture has been decoded yet.
    pub fn new(log2_max_poc_lsb: u8) -> (r: HevcState)
        requires
            log2_max_poc_lsb < 32,
        ensures
            r@ == (StateModel {
                dpb: Seq::empty(),
                last_valid_rps: None,
                prev_poc_msb: 0,
                prev_poc_lsb: 0,
                max_poc_lsb: 1u32 << log2_max_poc_lsb,
            }),
            r@.max_poc_lsb >= 1,
    {
        assert(1u32 << log2_max_poc_lsb >= 1u32) by (bit_vector)
            requires
                log2_max_poc_lsb < 32,
        ;
        HevcState {
            dpb: Vec::new(),
            last_valid_rps: None,
            prev_poc_msb: 0,
            prev_poc_lsb: 0,
            max_poc_lsb: 1u32 << log2_max_poc_lsb,
        }
    }

    /// The order count of the picture with this lower part.
    pub fn derive_abs_poc(&self, poc_lsb: u32) -> (r: i32)
        requires
            self@.derivable(poc_lsb),
        ensures
            r == self@.poc(poc_lsb),
    {
        let max: i32 = to_signed(self.max_poc_lsb);
        let half_max: i32 = max / 2;
        let prev_msb: i32 = self.prev_poc_msb;
        let prev_lsb: i32 = to_signed(self.prev_poc_lsb);
        let lsb: i32 = to_signed(poc_lsb);
        assert(half_max == half(max as int));
        let poc_msb: i32 = if lsb < prev_lsb && (prev_lsb - lsb) >= half_max {
            prev_msb + max
        } else if lsb > prev_lsb && (lsb - prev_lsb) > half_max {
            prev_msb - max
        } else {
            prev_msb
        };
        poc_msb + lsb
    }

    /// Takes a decoded picture in. Returns its order count.
    pub fn remember_picture(
        &mut self,
        poc_lsb: u32,
        is_reference: bool,
        output_marked: bool,
        long_term: bool,
    ) -> (r: i32)
        requires
            old(self)@.rememberable(poc_lsb, is_reference, output_marked, long_term),
        ensures
            r == old(self)@.poc(poc_lsb),
            final(self)@ == old(self)@.remembered(poc_lsb, is_reference, output_marked, long_term),
    {
        let ghost start = self@;
        let abs_poc: i32 = self.derive_abs_poc(poc_lsb);
        let lsb: u32 = poc_lsb & (self.max_poc_lsb - 1);
        proof {
            let mask: u32 = (self.max_poc_lsb - 1) as u32;
            assert(poc_lsb & mask <= poc_lsb) by (bit_vector);
        }
        self.prev_poc_msb = abs_poc - to_signed(lsb);
        self.prev_poc_lsb = lsb;
        if is_reference {
            self.dpb.push(DpbEntry { abs_poc, lsb, long_term, is_reference, output_marked });
            self.prune_dpb();
            assert(self.dpb@ == start.dpb_with(poc_lsb, output_marked, long_term));
            proof {
                if reachable(start.dpb, abs_poc) {
                    let all = start.dpb.push(
                        DpbEntry { abs_poc, lsb, long_term, is_reference: true, output_marked },
                    );
                    assert forall|i: int|
                        0 <= i < all.len() && (#[trigger] all[i]).is_reference
                            && !all[i].long_term implies fits_i32(all[i].abs_poc - abs_poc) by {
                        if i < start.dpb.len() {
                            assert(all[i] == start.dpb[i]);
                        }
                    }
                    lemma_pruned_reachable(all, abs_poc);
                }
            }
            self.last_valid_rps = Some(self.build_short_term_rps(abs_poc));
        }
        abs_poc
    }

    /// Marks the picture with this order count as shown.
    pub fn mark_output_and_prune(&mut self, abs_poc: i32)
        ensures
            final(self)@ == (StateModel {
                dpb: pruned(output_marked(old(self)@.dpb, abs_poc)),
                ..old(self)@
            }),
    {
        let ghost start = self.dpb@;
        let ghost rest = self@;
        let mut i: usize = 0;
        assert(start.skip(0) =~= start);
        while i < self.dpb.len() && self.dpb[i].abs_poc != abs_poc
            invariant
                i <= self.dpb@.len(),
                self@ == rest,
                start == self.dpb@,
                output_marked(start, abs_poc) == start.take(i as int) + output_marked(
                    start.skip(i as int),
                    abs_poc,
                ),
            decreases self.dpb@.len() - i,
        {
            assert(start.skip(i as int).drop_first() =~= start.skip(i + 1));
            assert(start.take(i as int) + (seq![start[i as int]] + output_marked(
                start.skip(i + 1),
                abs_poc,
            )) =~= start.take(i + 1) + output_marked(start.skip(i + 1), abs_poc));
            i = i + 1;
        }
        if i < self.dpb.len() {
            let e: DpbEntry = self.dpb[i];
            let marked: DpbEntry = DpbEntry {
                abs_poc: e.abs_poc,
                lsb: e.lsb,
                long_term: e.long_term,
                is_reference: e.is_reference,
                output_marked: true,
            };
            self.dpb.set(i, marked);
            assert(self.dpb@ =~= output_marked(start, abs_poc));
        } else {
            assert(self.dpb@ =~= output_marked(start, abs_poc));
        }
        self.prune_dpb();
    }

    /// Saves the set of all that is there, where there is anything.
    pub fn rebuild_last_valid_rps(&mut self, curr_abs_poc: i32) -> (r: Option<ShortTermRps>)
        requires
            reachable(old(self)@.dpb, curr_abs_poc),
        ensures
            match r {
                Some(rps) => {
                    &&& rps@ == short_term_rps(old(self)@.dpb, curr_abs_poc)
                    &&& !rps@.empty()
                    &&& final(self)@ == (StateModel {
                        last_valid_rps: Some(rps@),
                        ..old(self)@
                    })
                },
                None => {
                    &&& short_term_rps(old(self)@.dpb, curr_abs_poc).empty()
                    &&& final(self)@ == old(self)@
                },
            },
    {
        let rps: ShortTermRps = self.build_short_term_rps(curr_abs_poc);
        if rps.is_empty() {
            None
        } else {
            self.last_valid_rps = Some(rps.duplicate());
            Some(rps)
        }
    }

    /// The set for a picture that has to be made up.
    pub fn current_concealment_rps(&self, curr_abs_poc: i32) -> (r: Option<ShortTermRps>)
        requires
            self@.saved_usable() || reachable(self@.dpb, curr_abs_poc),
        ensures
            match r {
                Some(rps) => rps@ == self@.concealment_rps(curr_abs_poc) && !rps@.empty(),
                None => self@.concealment_rps(curr_abs_poc).empty(),
            },
    {
        let rps: ShortTermRps = match &self.last_valid_rps {
            Some(saved) => {
                let filtered: ShortTermRps = saved.filter_by_dpb(&self.dpb);
                if !filtered.is_empty() {
                    filtered
                } else {
                    self.build_short_term_rps(curr_abs_poc)
                }
            },
            None => self.build_short_term_rps(curr_abs_poc),
        };
        if rps.is_empty() {
            None
        } else {
            Some(rps)
        }
    }

    /// The order counts of at most `max_refs` short-term references other than the current
    /// picture, the closest first.
    pub fn build_short_term_reference_list(&self, curr_abs_poc: i32, max_refs: usize) -> (r: Vec<
        i32,
    >)
        ensures
            ({
                let near = sort_by(
                    short_term(self@.dpb).filter(|p: i32| p != curr_abs_poc),
                    poc_distance(curr_abs_poc),
                );
                r@ == near.take(if max_refs < near.len() { max_refs as int } else { near.len() as int })
            }),
    {
        let pocs: Vec<i32> = self.short_term_pocs();
        let mut other: Vec<i32> = Vec::new();
        let ghost keep = |p: i32| p != curr_abs_poc;
        let mut i: usize = 0;
        proof {
            reveal(Seq::filter);
            assert(pocs@.take(0).filter(keep) =~= Seq::<i32>::empty());
        }
        while i < pocs.len()
            invariant
                i <= pocs@.len(),
                keep == (|p: i32| p != curr_abs_poc),
                other@ == pocs@.take(i as int).filter(keep),
            decreases pocs@.len() - i,
        {
            proof {
                reveal(Seq::filter);
                assert(pocs@.take(i + 1).drop_last() =~= pocs@.take(i as int));
            }
            if pocs[i] != curr_abs_poc {
                other.push(pocs[i]);
            }
            i = i + 1;
        }
        assert(pocs@.take(i as int) =~= pocs@);
        let mut near: Vec<i32> = sort_near(&other, curr_abs_poc);
        let ghost all = near@;
        near.truncate(max_refs);
        assert(near@ =~= all.take(
            if max_refs < all.len() {
                max_refs as int
            } else {
                all.len() as int
            },
        ));
        near
    }

    /// The order counts of the short-term references.
    fn short_term_pocs(&self) -> (r: Vec<i32>)
        ensures
            r@ == short_term(self@.dpb),
    {
        let mut out: Vec<i32> = Vec::new();
        let mut i: usize = 0;
        while i < self.dpb.len()
            invariant
                i <= self.dpb@.len(),
                out@ == short_term(self.dpb@.take(i as int)),
            decreases self.dpb@.len() - i,
        {
            let e: DpbEntry = self.dpb[i];
            assert(self.dpb@.take(i + 1).drop_last() =~= self.dpb@.take(i as int));
            if e.is_reference && !e.long_term {
                out.push(e.abs_poc);
            }
            i = i + 1;
        }
        assert(self.dpb@.take(i as int) =~= self.dpb@);
        out
    }

    /// The short-term references before and after a picture, the closest first.
    pub fn build_short_term_rps(&self, curr_abs_poc: i32) -> (r: ShortTermRps)
        requires
            reachable(self@.dpb, curr_abs_poc),
        ensures
            r@ == short_term_rps(self@.dpb, curr_abs_poc),
    {
        let pocs: Vec<i32> = self.short_term_pocs();
        let before: Vec<i32> = sort_near(&on_side(&pocs, curr_abs_poc, true), curr_abs_poc);
        let after: Vec<i32> = sort_near(&on_side(&pocs, curr_abs_poc, false), curr_abs_poc);
        proof {
            lemma_reachable(self@.dpb, curr_abs_poc);
            lemma_side_in_reach(pocs@, |p: i32| p < curr_abs_poc, curr_abs_poc);
            lemma_side_in_reach(pocs@, |p: i32| p > curr_abs_poc, curr_abs_poc);
        }
        ShortTermRps {
            negative: make_pics(&before, curr_abs_poc),
            positive: make_pics(&after, curr_abs_poc),
        }
    }

    /// The references to pictures that are there.
    pub fn filter_rps_to_dpb(&self, rps: &ShortTermRps) -> (r: ShortTermRps)
        ensures
            r@ == rps@.filtered(self@.dpb),
    {
        rps.filter_by_dpb(&self.dpb)
    }

    /// The inline form of the set for a picture that has to be made up.
    pub fn serialize_inline_short_term_rps(&self, curr_abs_poc: i32) -> (r: Option<Vec<u8>>)
        requires
            self@.saved_usable() || reachable(self@.dpb, curr_abs_poc),
            self@.concealment_rps(curr_abs_poc).writable(),
            64 * (self@.concealment_rps(curr_abs_poc).negative.len() + self@.concealment_rps(
                curr_abs_poc,
            ).positive.len()) + 256 <= usize::MAX,
        ensures
            match r {
                Some(bytes) => {
                    &&& !self@.concealment_rps(curr_abs_poc).empty()
                    &&& packs(bytes@, self@.concealment_rps(curr_abs_poc).bits())
                },
                None => self@.concealment_rps(curr_abs_poc).empty(),
            },
    {
        match self.current_concealment_rps(curr_abs_poc) {
            Some(rps) => {
                let mut w: BitWriter = BitWriter::new();
                rps.encode_inline(&mut w);
                assert(w@ =~= rps@.bits());
                Some(w.into_bytes())
            },
            None => None,
        }
    }

    /// Keeps only references, and of those at most [`MAX_DPB`].
    fn prune_dpb(&mut self)
        ensures
            final(self)@ == (StateModel { dpb: pruned(old(self)@.dpb), ..old(self)@ }),
    {
        let ghost keep = |e: DpbEntry| e.is_reference;
        let ghost start = self@;
        let mut refs: Vec<DpbEntry> = Vec::new();
        let mut i: usize = 0;
        proof {
            reveal(Seq::filter);
            assert(self.dpb@.take(0).filter(keep) =~= Seq::<DpbEntry>::empty());
        }
        while i < self.dpb.len()
            invariant
                i <= self.dpb@.len(),
                self@ == start,
                keep == (|e: DpbEntry| e.is_reference),
                refs@ == self.dpb@.take(i as int).filter(keep),
            decreases self.dpb@.len() - i,
        {
            let e: DpbEntry = self.dpb[i];
            proof {
                reveal(Seq::filter);
                assert(self.dpb@.take(i + 1).drop_last() =~= self.dpb@.take(i as int));
            }
            if e.is_reference {
                refs.push(e);
            }
            i = i + 1;
        }
        assert(self.dpb@.take(i as int) =~= self.dpb@);
        if refs.len() > MAX_DPB {
            let sorted: Vec<DpbEntry> = sort_entries(&refs);
            proof {
                law_sort_orders(refs@, by_poc());
            }
            let mut kept: Vec<DpbEntry> = Vec::new();
            let overflow: usize = sorted.len() - MAX_DPB;
            let mut k: usize = overflow;
            while k < sorted.len()
                invariant
                    overflow <= k <= sorted@.len(),
                    kept@ == sorted@.subrange(overflow as int, k as int),
                decreases sorted@.len() - k,
            {
                kept.push(sorted[k]);
                k = k + 1;
                assert(kept@ =~= sorted@.subrange(overflow as int, k as int));
            }
            assert(kept@ =~= sorted@.skip(overflow as int));
            self.dpb = kept;
        } else {
            self.dpb = refs;
        }
    }
}

/// A 32-bit number read as a signed one.
fn to_signed(x: u32) -> (r: i32)
    ensures
        r == signed(x),
{
    if x < 0x8000_0000 {
        x as i32
    } else {
        (x as i64 - 0x1_0000_0000) as i32
    }
}

/// The buffer holds references only, and no more than [`MAX_DPB`] of them.
pub proof fn law_buffer_is_bounded(dpb: Seq<DpbEntry>)
    ensures
        pruned(dpb).len() <= MAX_DPB,
        forall|i: int| 0 <= i < pruned(dpb).len() ==> (#[trigger] pruned(dpb)[i]).is_reference,
{
    let keep = |e: DpbEntry| e.is_reference;
    let refs = dpb.filter(keep);
    lemma_filter_members(dpb, keep);
    law_sort_orders(refs, by_poc());
    lemma_members(sort_by(refs, by_poc()), refs);
    if refs.len() > MAX_DPB {
        let s = sort_by(refs, by_poc());
        assert forall|i: int| 0 <= i < pruned(dpb).len() implies (#[trigger] pruned(
            dpb,
        )[i]).is_reference by {
            assert(pruned(dpb)[i] == s[i + (refs.len() - MAX_DPB)]);
            assert(refs.contains(s[i + (refs.len() - MAX_DPB)]));
        }
    }
}

/// Of the pictures that are dropped for want of room none comes later than one that stays.
pub proof fn law_latest_pictures_stay(dpb: Seq<DpbEntry>, gone: DpbEntry, kept: DpbEntry)
    requires
        dpb.contains(gone),
        gone.is_reference,
        !pruned(dpb).contains(gone),
        pruned(dpb).contains(kept),
    ensures
        gone.abs_poc <= kept.abs_poc,
{
    broadcast use vstd::seq_lib::group_to_multiset_ensures;

    let keep = |e: DpbEntry| e.is_reference;
    let refs = dpb.filter(keep);
    dpb.lemma_filter_contains(keep, choose|i: int| 0 <= i < dpb.len() && dpb[i] == gone);
    assert(refs.contains(gone));
    let s = sort_by(refs, by_poc());
    law_sort_orders(refs, by_poc());
    lemma_members(refs, s);
    let r = choose|i: int| 0 <= i < refs.len() && refs[i] == gone;
    assert(s.contains(refs[r]));
    let g = choose|i: int| 0 <= i < s.len() && s[i] == gone;
    let k = choose|i: int| 0 <= i < pruned(dpb).len() && pruned(dpb)[i] == kept;
    let cut = refs.len() - MAX_DPB;
    if g >= cut {
        assert(pruned(dpb)[g - cut] == gone);
    }
    assert(s[k + cut] == kept);
    assert(by_poc()(s[g]) <= by_poc()(s[k + cut]));
}

/// Earlier references come closest first and all have a negative distance, later ones
/// come closest first and all have a positive distance, and each distance is that from the
/// current picture.
pub proof fn law_references_are_ordered(dpb: Seq<DpbEntry>, curr: i32)
    requires
        reachable(dpb, curr),
    ensures
        ({
            let rps = short_term_rps(dpb, curr);
            &&& forall|i: int|
                0 <= i < rps.negative.len() ==> (#[trigger] rps.negative[i]).delta_poc < 0
                    && rps.negative[i].abs_poc == curr + rps.negative[i].delta_poc
            &&& forall|i: int|
                0 <= i < rps.positive.len() ==> (#[trigger] rps.positive[i]).delta_poc > 0
                    && rps.positive[i].abs_poc == curr + rps.positive[i].delta_poc
            &&& forall|i: int, j: int|
                0 <= i < j < rps.negative.len() ==> (#[trigger] rps.negative[i]).delta_poc >= (
                #[trigger] rps.negative[j]).delta_poc
            &&& forall|i: int, j: int|
                0 <= i < j < rps.positive.len() ==> (#[trigger] rps.positive[i]).delta_poc <= (
                #[trigger] rps.positive[j]).delta_poc
        }),
{
    let pocs = short_term(dpb);
    let less = |p: i32| p < curr;
    let more = |p: i32| p > curr;
    lemma_reachable(dpb, curr);
    lemma_side_in_reach(pocs, less, curr);
    lemma_side_in_reach(pocs, more, curr);
    law_sort_orders(pocs.filter(less), poc_distance(curr));
    law_sort_orders(pocs.filter(more), poc_distance(curr));
    let neg = sort_by(pocs.filter(less), poc_distance(curr));
    let pos = sort_by(pocs.filter(more), poc_distance(curr));
    lemma_members(neg, pocs.filter(less));
    lemma_members(pos, pocs.filter(more));
    lemma_filter_members(pocs, less);
    lemma_filter_members(pocs, more);
    assert forall|i: int| 0 <= i < neg.len() implies #[trigger] neg[i] < curr && fits_i32(
        neg[i] - curr,
    ) by {
        assert(pocs.filter(less).contains(neg[i]));
    }
    assert forall|i: int| 0 <= i < pos.len() implies #[trigger] pos[i] > curr && fits_i32(
        pos[i] - curr,
    ) by {
        assert(pocs.filter(more).contains(pos[i]));
    }
    let rps = short_term_rps(dpb, curr);
    assert forall|i: int, j: int| 0 <= i < j < rps.negative.len() implies (
    #[trigger] rps.negative[i]).delta_poc >= (#[trigger] rps.negative[j]).delta_poc by {
        assert(poc_distance(curr)(neg[i]) <= poc_distance(curr)(neg[j]));
        assert(neg[i] < curr && neg[j] < curr);
    }
    assert forall|i: int, j: int| 0 <= i < j < rps.positive.len() implies (
    #[trigger] rps.positive[i]).delta_poc <= (#[trigger] rps.positive[j]).delta_poc by {
        assert(poc_distance(curr)(pos[i]) <= poc_distance(curr)(pos[j]));
        assert(pos[i] > curr && pos[j] > curr);
    }
}

/// The order count is the one with this lower part, modulo the period, that lies less than half
/// a period before the one before or at most half a period behind it.
pub proof fn law_order_count_is_close(state: StateModel, poc_lsb: u32)
    requires
        2 <= state.max_poc_lsb < 0x8000_0000,
        state.max_poc_lsb % 2 == 0,
        state.prev_poc_lsb < state.max_poc_lsb,
        poc_lsb < state.max_poc_lsb,
    ensures
        -(state.max_poc_lsb / 2) < state.poc(poc_lsb) - (state.prev_poc_msb + state.prev_poc_lsb)
            <= state.max_poc_lsb / 2,
        exists|k: int|
            -1 <= k <= 1 && state.poc(poc_lsb) == state.prev_poc_msb + poc_lsb
                + #[trigger] (k * state.max_poc_lsb),
{
    let m = state.max_poc_lsb as int;
    assert(0 * m == 0 && 1 * m == m && (-1) * m == -m) by (nonlinear_arith);
    let prev = state.prev_poc_lsb as int;
    let lsb = poc_lsb as int;
    if lsb < prev && prev - lsb >= m / 2 {
        assert(state.poc(poc_lsb) == state.prev_poc_msb + poc_lsb + 1 * m);
    } else if lsb > prev && lsb - prev > m / 2 {
        assert(state.poc(poc_lsb) == state.prev_poc_msb + poc_lsb + (-1) * m);
    } else {
        assert(state.poc(poc_lsb) == state.prev_poc_msb + poc_lsb + 0 * m);
    }
}

} // verus!
