//! Frames that repeat an earlier picture.
use crate::hevc::bits::{
    bits_from, get_bit, packs, padded, patched, replaced, splice_bits, spliced, write_bits,
    BitWriter,
};
use crate::hevc::params::{copy_bytes, reader_of, skip_to_poc_bits, sps_poc_bits};
use crate::hevc::reader::RbspReader;
use crate::hevc::refs::{RpsModel, ShortTermRps};
use crate::hevc::state::{reachable, HevcState, StateModel};
use vstd::prelude::*;

verus! {

/// A slice that skips every block. Only the order count and the reference picture set differ
/// from frame to frame.
#[derive(Debug)]
pub struct SkipFrameTemplate {
    pub data: Vec<u8>,
    pub poc_lsb_bit_offset: usize,
    pub poc_lsb_len: u8,
    pub max_poc_lsb: u32,
    pub rps_bit_offset: usize,
    pub rps_original_bit_len: usize,
    pub pps_id: u8,
}

impl SkipFrameTemplate {
    /// The set that fits in the place of the one in the slice: one bit goes to the flag
    /// that says that it stands there.
    pub open spec fn set_bits(self, rps: RpsModel) -> Option<Seq<bool>> {
        rps.compact_bits(
            if self.rps_original_bit_len > 0 {
                (self.rps_original_bit_len - 1) as nat
            } else {
                0
            },
        )
    }

    /// The bits of the slice with this order count.
    pub open spec fn dated_bits(self, poc: u32) -> Seq<bool> {
        Seq::new(
            8 * self.data@.len(),
            |i: int|
                patched(
                    self.data@,
                    self.poc_lsb_bit_offset as int,
                    self.poc_lsb_len as nat,
                    poc as nat,
                    i,
                ),
        )
    }

    /// The bits of the slice with this order count and this reference picture set.
    pub open spec fn frame_bits(self, poc: u32, set: Seq<bool>) -> Seq<bool> {
        replaced(
            self.dated_bits(poc),
            self.rps_bit_offset as int,
            self.rps_original_bit_len as int,
            seq![false] + set,
        )
    }

    /// The lower part of the order count within one period.
    pub open spec fn lsb(self, poc_lsb: u32) -> u32 {
        poc_lsb & ((self.max_poc_lsb - 1) as u32)
    }

    /// The reference picture set of the frame with this order count.
    pub open spec fn frame_rps(self, poc_lsb: u32, state: StateModel) -> RpsModel {
        state.concealment_rps(state.poc(poc_lsb) as i32)
    }

    /// The frame with the order count whose lower part is `poc_lsb`, behind a start code.
    /// There is none where nothing can be referred to or the set does not fit.
    pub fn make_frame(&self, poc_lsb: u32, state: &HevcState) -> (r: Option<Vec<u8>>)
        requires
            self.max_poc_lsb >= 1,
            self.poc_lsb_len <= 32,
            self.poc_lsb_bit_offset + self.poc_lsb_len <= usize::MAX,
            self.rps_bit_offset + self.rps_original_bit_len + 8 * self.data@.len() + 8
                <= usize::MAX,
            state@.derivable(poc_lsb),
            state@.saved_usable() || reachable(state@.dpb, state@.poc(poc_lsb) as i32),
            self.frame_rps(poc_lsb, state@).writable(),
            64 * (self.frame_rps(poc_lsb, state@).negative.len() + self.frame_rps(
                poc_lsb,
                state@,
            ).positive.len()) + 256 <= usize::MAX,
        ensures
            match r {
                Some(frame) => {
                    &&& !self.frame_rps(poc_lsb, state@).empty()
                    &&& self.set_bits(self.frame_rps(poc_lsb, state@)) is Some
                    &&& frame@.len() >= 4
                    &&& frame@.take(4) == seq![0u8, 0u8, 0u8, 1u8]
                    &&& packs(
                        frame@.skip(4),
                        self.frame_bits(
                            self.lsb(poc_lsb),
                            self.set_bits(self.frame_rps(poc_lsb, state@))->0,
                        ),
                    )
                },
                None => {
                    ||| self.frame_rps(poc_lsb, state@).empty()
                    ||| self.set_bits(self.frame_rps(poc_lsb, state@)) is None
                },
            },
    {
        let poc: u32 = poc_lsb & (self.max_poc_lsb - 1);
        let curr_abs_poc: i32 = state.derive_abs_poc(poc_lsb);
        let rps: ShortTermRps = match state.current_concealment_rps(curr_abs_poc) {
            Some(rps) => rps,
            None => {
                return None;
            },
        };
        let max_bits: usize = self.rps_original_bit_len.saturating_sub(1);
        let (rps_bytes, rps_bit_len): (Vec<u8>, usize) = match rps.serialize_inline_compact(
            max_bits,
        ) {
            Some(p) => p,
            None => {
                return None;
            },
        };
        let ghost set = self.set_bits(rps@)->0;
        proof {
            lemma_compact_fits(rps@, max_bits as nat);
        }
        let mut full: BitWriter = BitWriter::new();
        full.write_bit(false);
        let mut i: usize = 0;
        assert(full@ =~= seq![false] + bits_from(rps_bytes@, 0, 0));
        while i < rps_bit_len
            invariant
                i <= rps_bit_len < usize::MAX,
                full@ == seq![false] + bits_from(rps_bytes@, 0, i as nat),
            decreases rps_bit_len - i,
        {
            let ghost before = full@;
            full.write_bit(get_bit(rps_bytes.as_slice(), i) != 0);
            i = i + 1;
            assert(full@ =~= seq![false] + bits_from(rps_bytes@, 0, i as nat));
        }
        assert(bits_from(rps_bytes@, 0, rps_bit_len as nat) =~= set);
        let ghost field = full@;
        let full_bytes: Vec<u8> = full.into_bytes();
        let full_bit_len: usize = rps_bit_len + 1;
        assert(bits_from(full_bytes@, 0, full_bit_len as nat) =~= seq![false] + set);
        let mut dated: Vec<u8> = copy_bytes(self.data.as_slice());
        write_bits(&mut dated, self.poc_lsb_bit_offset, self.poc_lsb_len as usize, poc);
        let payload: Vec<u8> = splice_bits(
            dated.as_slice(),
            self.rps_bit_offset,
            self.rps_original_bit_len,
            full_bytes.as_slice(),
            full_bit_len,
        );
        proof {
            assert(spliced(
                dated@,
                self.rps_bit_offset as int,
                self.rps_original_bit_len as int,
                seq![false] + set,
            ) =~= self.frame_bits(poc, set)) by {
                let end = self.rps_bit_offset + self.rps_original_bit_len;
                let bits = self.dated_bits(poc);
                assert(bits_from(dated@, 0, self.rps_bit_offset as nat) =~= padded(
                    bits,
                    self.rps_bit_offset as nat,
                ));
                if end < bits.len() {
                    assert(bits_from(dated@, end as int, (bits.len() - end) as nat) =~= bits.skip(
                        end as int,
                    ));
                } else {
                    assert(bits_from(dated@, end as int, 0) =~= Seq::<bool>::empty());
                }
            }
        }
        let mut frame: Vec<u8> = Vec::new();
        frame.push(0x00);
        frame.push(0x00);
        frame.push(0x00);
        frame.push(0x01);
        let ghost code = frame@;
        frame.extend_from_slice(payload.as_slice());
        assert(frame@ =~= code + payload@);
        assert(frame@.skip(4) =~= payload@);
        assert(frame@.take(4) =~= seq![0u8, 0u8, 0u8, 1u8]);
        Some(frame)
    }

    /// What a sequence parameter set, a unit without start code, says of the number of bits
    /// of an order count: four less than there are.
    pub fn parse_sps_poc_bits(nalu: &[u8]) -> (r: Option<u8>)
        ensures
            r == (if nalu@.len() < 3 {
                None
            } else {
                Some(sps_poc_bits(nalu@).ue() as u8)
            }),
    {
        if nalu.len() < 3 {
            return None;
        }
        let mut r: RbspReader = reader_of(nalu);
        let _sub_layers: u32 = skip_to_poc_bits(&mut r, Ghost(nalu@));
        let log2_max: u32 = r.read_ue();
        Some(
            #[verifier::truncate]
            (log2_max as u8),
        )
    }
}

/// A set that was cut down to size has it.
proof fn lemma_compact_fits(rps: RpsModel, max_bits: nat)
    ensures
        rps.compact_bits(max_bits) is Some ==> rps.compact_bits(max_bits)->0.len() <= max_bits,
    decreases rps.negative.len() + rps.positive.len(),
{
    if rps.bits().len() > max_bits && !rps.empty() {
        lemma_compact_fits(rps.reduced(), max_bits);
    }
}

} // verus!
