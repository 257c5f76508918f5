//! Decoded pictures and the reference picture sets made of them.
use crate::hevc::bits::{bit_length, packs, ue_bits, BitWriter};
use vstd::arithmetic::power2::pow2;
use vstd::prelude::*;

verus! {

/// Most pictures that are kept.
pub const MAX_DPB: usize = 16;

/// A decoded picture that may be referred to.
#[derive(Debug, Clone, Copy, PartialEq, Eq, Structural)]
pub struct DpbEntry {
    /// The full picture order count.
    pub abs_poc: i32,
    /// Its lower part.
    pub lsb: u32,
    pub long_term: bool,
    pub is_reference: bool,
    pub output_marked: bool,
}

/// A reference to a picture.
#[derive(Debug, Clone, Copy, PartialEq, Eq, Structural)]
pub struct RefPic {
    pub abs_poc: i32,
    /// The distance from the current picture, negative for an earlier one.
    pub delta_poc: i32,
    pub used_by_curr: bool,
    pub is_long_term: bool,
}

/// The pictures that a picture may refer to.
#[derive(Debug)]
pub struct ShortTermRps {
    /// Earlier pictures, the closest one first.
    pub negative: Vec<RefPic>,
    /// Later pictures, the closest one first.
    pub positive: Vec<RefPic>,
}

/// What a [`ShortTermRps`] holds.
#[verifier::ext_equal]
pub struct RpsModel {
    pub negative: Seq<RefPic>,
    pub positive: Seq<RefPic>,
}

impl View for ShortTermRps {
    type V = RpsModel;

    open spec fn view(&self) -> RpsModel {
        RpsModel { negative: self.negative@, positive: self.positive@ }
    }
}

impl Default for ShortTermRps {
    fn default() -> (r: ShortTermRps)
        ensures
            r@ == (RpsModel { negative: Seq::empty(), positive: Seq::empty() }),
    {
        ShortTermRps { negative: Vec::new(), positive: Vec::new() }
    }
}

/// A picture with this order count is there.
pub open spec fn in_dpb(dpb: Seq<DpbEntry>, poc: i32) -> bool {
    exists|i: int| 0 <= i < dpb.len() && (#[trigger] dpb[i]).abs_poc == poc
}

/// The code of a reference: its distance less one, and whether it is used.
pub open spec fn pic_bits(pic: RefPic) -> Seq<bool> {
    let d = if pic.delta_poc < 0 {
        -(pic.delta_poc as int)
    } else {
        pic.delta_poc as int
    };
    ue_bits(
        (if d > 0 {
            d - 1
        } else {
            0
        }) as nat,
    ).push(pic.used_by_curr)
}

/// The codes of references, one behind the other.
pub open spec fn pics_bits(pics: Seq<RefPic>) -> Seq<bool>
    decreases pics.len(),
{
    if pics.len() == 0 {
        Seq::empty()
    } else {
        pics_bits(pics.drop_last()) + pic_bits(pics.last())
    }
}

impl RpsModel {
    pub open spec fn empty(self) -> bool {
        self.negative.len() == 0 && self.positive.len() == 0
    }

    /// The references to pictures that are there.
    pub open spec fn filtered(self, dpb: Seq<DpbEntry>) -> RpsModel {
        RpsModel {
            negative: self.negative.filter(|p: RefPic| in_dpb(dpb, p.abs_poc)),
            positive: self.positive.filter(|p: RefPic| in_dpb(dpb, p.abs_poc)),
        }
    }

    /// The inline form of a reference picture set: no prediction from another set, the two
    /// counts, and the references.
    pub open spec fn bits(self) -> Seq<bool> {
        seq![false] + ue_bits(self.negative.len()) + ue_bits(self.positive.len()) + pics_bits(
            self.negative,
        ) + pics_bits(self.positive)
    }

    /// The set can be written.
    pub open spec fn writable(self) -> bool {
        &&& self.negative.len() < u32::MAX
        &&& self.positive.len() < u32::MAX
        &&& forall|i: int|
            0 <= i < self.negative.len() ==> (#[trigger] self.negative[i]).delta_poc > i32::MIN
        &&& forall|i: int|
            0 <= i < self.positive.len() ==> (#[trigger] self.positive[i]).delta_poc > i32::MIN
    }

    /// The farther one of the last references is an earlier picture.
    pub open spec fn drops_negative(self) -> bool {
        self.negative.len() > 0 && (self.positive.len() == 0 || distance(
            self.negative.last().delta_poc,
        ) >= distance(self.positive.last().delta_poc))
    }

    /// The set without its farthest reference.
    pub open spec fn reduced(self) -> RpsModel {
        if self.drops_negative() {
            RpsModel { negative: self.negative.drop_last(), ..self }
        } else {
            RpsModel { positive: self.positive.drop_last(), ..self }
        }
    }

    /// The inline form of what is left of the set when references are dropped, the
    /// farthest first, until it fits into `max_bits` bits.
    pub open spec fn compact_bits(self, max_bits: nat) -> Option<Seq<bool>>
        decreases self.negative.len() + self.positive.len(),
    {
        if self.bits().len() <= max_bits {
            Some(self.bits())
        } else if self.empty() {
            None
        } else {
            self.reduced().compact_bits(max_bits)
        }
    }
}

/// The absolute value of a distance.
pub open spec fn distance(delta: i32) -> int {
    if delta < 0 {
        -(delta as int)
    } else {
        delta as int
    }
}

proof fn lemma_bit_length(v: nat, n: nat)
    requires
        v < pow2(n),
    ensures
        bit_length(v) <= n,
    decreases n,
{
    vstd::arithmetic::power2::lemma2_to64();
    if n == 0 {
    } else {
        vstd::arithmetic::power2::lemma_pow2_unfold(n);
        if v > 0 {
            lemma_bit_length(v / 2, (n - 1) as nat);
        }
    }
}

/// The code of a number that fits into 32 bits takes at most 63 bits.
pub proof fn lemma_ue_len(v: nat)
    requires
        v < u32::MAX,
    ensures
        1 <= ue_bits(v).len() <= 63,
{
    vstd::arithmetic::power2::lemma2_to64();
    lemma_bit_length(v + 1, 32);
    crate::hevc::bits::lemma_number_len(v + 1, bit_length(v + 1));
}

proof fn lemma_pics_len(pics: Seq<RefPic>)
    requires
        forall|i: int| 0 <= i < pics.len() ==> (#[trigger] pics[i]).delta_poc > i32::MIN,
    ensures
        pics_bits(pics).len() <= 64 * pics.len(),
    decreases pics.len(),
{
    if pics.len() > 0 {
        let front = pics.drop_last();
        assert forall|i: int| 0 <= i < front.len() implies (#[trigger] front[i]).delta_poc
            > i32::MIN by {
            assert(front[i] == pics[i]);
        }
        lemma_pics_len(front);
        let p = pics.last();
        assert(p == pics[pics.len() - 1]);
        let d = distance(p.delta_poc);
        lemma_ue_len(
            (if d > 0 {
                d - 1
            } else {
                0
            }) as nat,
        );
    }
}

/// A set takes at most 64 bits for each reference and 127 for the rest.
pub proof fn lemma_bits_len(rps: RpsModel)
    requires
        rps.writable(),
    ensures
        rps.bits().len() <= 127 + 64 * (rps.negative.len() + rps.positive.len()),
{
    lemma_ue_len(rps.negative.len());
    lemma_ue_len(rps.positive.len());
    lemma_pics_len(rps.negative);
    lemma_pics_len(rps.positive);
}

/// Writes references.
fn write_pics(w: &mut BitWriter, pics: &Vec<RefPic>)
    requires
        forall|i: int| 0 <= i < pics@.len() ==> (#[trigger] pics@[i]).delta_poc > i32::MIN,
        old(w)@.len() + 64 * pics@.len() + 64 <= usize::MAX,
    ensures
        final(w)@ == old(w)@ + pics_bits(pics@),
{
    let ghost before = w@;
    let mut i: usize = 0;
    assert(before + pics_bits(pics@.take(0)) =~= before);
    while i < pics.len()
        invariant
            i <= pics@.len(),
            forall|j: int| 0 <= j < pics@.len() ==> (#[trigger] pics@[j]).delta_poc > i32::MIN,
            before.len() + 64 * pics@.len() + 64 <= usize::MAX,
            w@ == before + pics_bits(pics@.take(i as int)),
        decreases pics@.len() - i,
    {
        proof {
            assert(pics@[i as int].delta_poc > i32::MIN);
            let front = pics@.take(i as int);
            assert forall|j: int| 0 <= j < front.len() implies (#[trigger] front[j]).delta_poc
                > i32::MIN by {
                assert(front[j] == pics@[j]);
            }
            lemma_pics_len(front);
            assert(pics@.take(i + 1).drop_last() =~= front);
        }
        let pic: RefPic = pics[i];
        let delta: u32 = if pic.delta_poc < 0 {
            (-pic.delta_poc) as u32
        } else {
            pic.delta_poc as u32
        };
        let minus1: u32 = delta.saturating_sub(1);
        let ghost now = w@;
        proof {
            lemma_ue_len(minus1 as nat);
        }
        w.write_ue(minus1);
        w.write_bit(pic.used_by_curr);
        assert(w@ =~= now + pic_bits(pic));
        i = i + 1;
        assert(w@ =~= before + pics_bits(pics@.take(i as int)));
    }
    assert(pics@.take(i as int) =~= pics@);
}

/// The references that `keep` selects.
fn filter_pics(pics: &Vec<RefPic>, dpb: &Vec<DpbEntry>) -> (r: Vec<RefPic>)
    ensures
        r@ == pics@.filter(|p: RefPic| in_dpb(dpb@, p.abs_poc)),
{
    let ghost keep = |p: RefPic| in_dpb(dpb@, p.abs_poc);
    let mut out: Vec<RefPic> = Vec::new();
    let mut i: usize = 0;
    proof {
        reveal(Seq::filter);
        assert(pics@.take(0).filter(keep) =~= Seq::<RefPic>::empty());
    }
    while i < pics.len()
        invariant
            i <= pics@.len(),
            keep == (|p: RefPic| in_dpb(dpb@, p.abs_poc)),
            out@ == pics@.take(i as int).filter(keep),
        decreases pics@.len() - i,
    {
        let pic: RefPic = pics[i];
        proof {
            reveal(Seq::filter);
            assert(pics@.take(i + 1).drop_last() =~= pics@.take(i as int));
            assert(pics@.take(i + 1).last() == pic);
        }
        if has_poc(dpb, pic.abs_poc) {
            out.push(pic);
        }
        i = i + 1;
    }
    assert(pics@.take(i as int) =~= pics@);
    out
}

/// Whether a picture with this order count is there.
fn has_poc(dpb: &Vec<DpbEntry>, poc: i32) -> (r: bool)
    ensures
        r == in_dpb(dpb@, poc),
{
    let mut i: usize = 0;
    while i < dpb.len()
        invariant
            i <= dpb@.len(),
            forall|j: int| 0 <= j < i ==> (#[trigger] dpb@[j]).abs_poc != poc,
        decreases dpb@.len() - i,
    {
        if dpb[i].abs_poc == poc {
            return true;
        }
        i = i + 1;
    }
    false
}

fn copy_pics(pics: &Vec<RefPic>) -> (r: Vec<RefPic>)
    ensures
        r@ == pics@,
{
    let mut out: Vec<RefPic> = Vec::new();
    let mut i: usize = 0;
    while i < pics.len()
        invariant
            i <= pics@.len(),
            out@ == pics@.take(i as int),
        decreases pics@.len() - i,
    {
        out.push(pics[i]);
        i = i + 1;
        assert(out@ =~= pics@.take(i as int));
    }
    assert(out@ =~= pics@);
    out
}

impl ShortTermRps {
    pub fn is_empty(&self) -> (r: bool)
        ensures
            r == self@.empty(),
    {
        self.negative.len() == 0 && self.positive.len() == 0
    }

    pub fn total_refs(&self) -> (r: usize)
        requires
            self@.negative.len() + self@.positive.len() <= usize::MAX,
        ensures
            r == self@.negative.len() + self@.positive.len(),
    {
        self.negative.len() + self.positive.len()
    }

    /// A copy of the set.
    pub fn duplicate(&self) -> (r: ShortTermRps)
        ensures
            r@ == self@,
    {
        ShortTermRps { negative: copy_pics(&self.negative), positive: copy_pics(&self.positive) }
    }

    /// The references to pictures that are there.
    pub fn filter_by_dpb(&self, dpb: &Vec<DpbEntry>) -> (r: ShortTermRps)
        ensures
            r@ == self@.filtered(dpb@),
    {
        ShortTermRps {
            negative: filter_pics(&self.negative, dpb),
            positive: filter_pics(&self.positive, dpb),
        }
    }

    /// Writes the inline form of the set.
    pub fn encode_inline(&self, w: &mut BitWriter)
        requires
            self@.writable(),
            old(w)@.len() + 64 * (self@.negative.len() + self@.positive.len()) + 256 <= usize::MAX,
        ensures
            final(w)@ == old(w)@ + self@.bits(),
    {
        let ghost before = w@;
        proof {
            lemma_ue_len(self@.negative.len());
            lemma_ue_len(self@.positive.len());
            lemma_pics_len(self@.negative);
        }
        w.write_bit(false);
        w.write_ue(self.negative.len() as u32);
        w.write_ue(self.positive.len() as u32);
        write_pics(w, &self.negative);
        write_pics(w, &self.positive);
        assert(w@ =~= before + self@.bits());
    }

    /// The inline form of what fits into `max_bits` bits, and its length. The farthest
    /// references are dropped first.
    pub fn serialize_inline_compact(&self, max_bits: usize) -> (r: Option<(Vec<u8>, usize)>)
        requires
            self@.writable(),
            64 * (self@.negative.len() + self@.positive.len()) + 256 <= usize::MAX,
        ensures
            match r {
                Some(p) => {
                    &&& self@.compact_bits(max_bits as nat) is Some
                    &&& packs(p.0@, self@.compact_bits(max_bits as nat)->0)
                    &&& p.1 == self@.compact_bits(max_bits as nat)->0.len()
                },
                None => self@.compact_bits(max_bits as nat) is None,
            },
    {
        let mut rps: ShortTermRps = self.duplicate();
        loop
            invariant
                rps@.writable(),
                64 * (rps@.negative.len() + rps@.positive.len()) + 256 <= usize::MAX,
                rps@.compact_bits(max_bits as nat) == self@.compact_bits(max_bits as nat),
            decreases rps@.negative.len() + rps@.positive.len(),
        {
            let ghost now = rps@;
            let mut w: BitWriter = BitWriter::new();
            rps.encode_inline(&mut w);
            assert(w@ =~= now.bits());
            let bit_len: usize = w.bit_len();
            if bit_len <= max_bits {
                return Some((w.into_bytes(), bit_len));
            }
            if rps.is_empty() {
                return None;
            }
            let drop_neg: bool = if rps.negative.len() == 0 {
                false
            } else if rps.positive.len() == 0 {
                true
            } else {
                let n: i32 = rps.negative[rps.negative.len() - 1].delta_poc;
                let p: i32 = rps.positive[rps.positive.len() - 1].delta_poc;
                assert(n == now.negative.last().delta_poc && p == now.positive.last().delta_poc);
                abs_delta(n) >= abs_delta(p)
            };
            assert(drop_neg == now.drops_negative());
            if drop_neg {
                rps.negative.pop();
                assert(rps@.negative =~= now.negative.drop_last());
            } else {
                rps.positive.pop();
                assert(rps@.positive =~= now.positive.drop_last());
            }
            assert(rps@ =~= now.reduced());
        }
    }
}

fn abs_delta(delta: i32) -> (r: i32)
    requires
        delta > i32::MIN,
    ensures
        r == distance(delta),
{
    if delta < 0 {
        -delta
    } else {
        delta
    }
}

} // verus!
