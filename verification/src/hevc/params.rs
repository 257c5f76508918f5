//! Parameter sets and slice headers.
use crate::hevc::cursor::{
    after_profile, after_ref_sets, after_refs, after_scaling, skip_profile_tier_level,
    skip_ref_sets, skip_refs, skip_scaling_list_data,
};
use crate::hevc::reader::{
    lemma_after_few, lemma_after_ues, lemma_number_bound, lemma_ue_end, RbspReader, ReaderModel,
};
use vstd::prelude::*;

verus! {

/// What a sequence parameter set says of order counts.
#[derive(Debug, Clone, Copy, PartialEq, Eq, Structural)]
pub struct HevcSpsInfo {
    /// How many bits the lower part of an order count has.
    pub log2_max_poc_lsb: u8,
}

/// What a slice header says, and where.
#[derive(Debug, Clone, Copy, PartialEq, Eq, Structural)]
pub struct SliceHeaderInfo {
    /// The lower part of the order count.
    pub poc_lsb: u32,
    /// Where it stands, in bits from the beginning of the unit.
    pub poc_lsb_bit_offset: usize,
    pub poc_lsb_len: u8,
    /// Where the reference picture set stands.
    pub rps_bit_offset: usize,
    pub rps_original_bit_len: usize,
    pub pps_id: u8,
}

/// The type of a unit.
pub open spec fn unit_type(nalu: Seq<u8>) -> u8 {
    (nalu[0] >> 1) & 0x3F
}

pub open spec fn random_access(nal_type: u8) -> bool {
    16 <= nal_type <= 23
}

/// Units of these types have no order count in their slice headers.
pub open spec fn instant_refresh(nal_type: u8) -> bool {
    nal_type == 19 || nal_type == 20
}

/// At the identifier of the picture parameter set.
pub open spec fn header_pps(nalu: Seq<u8>) -> ReaderModel {
    ReaderModel::of_unit(nalu).skip(
        if random_access(unit_type(nalu)) {
            2
        } else {
            1
        },
    )
}

/// At the order count: behind the identifier, the address of a slice that is not the first
/// one, and the slice type.
pub open spec fn header_poc(nalu: Seq<u8>) -> ReaderModel {
    let c = header_pps(nalu).after_ue();
    if ReaderModel::of_unit(nalu).flag() {
        c.after_ue()
    } else {
        c.skip(1).after_ue().after_ue()
    }
}

/// At the reference picture set.
pub open spec fn header_rps(nalu: Seq<u8>, log2: u8) -> ReaderModel {
    if instant_refresh(unit_type(nalu)) {
        header_poc(nalu)
    } else {
        header_poc(nalu).skip(log2 as int)
    }
}

/// Behind the reference picture set, if it is one of those sent earlier or has no more than
/// 15 references on each side.
pub open spec fn header_rps_end(c: ReaderModel) -> Option<ReaderModel> {
    let d = c.skip(1);
    if c.flag() {
        Some(d.after_ue())
    } else if d.ue() > 15 || d.after_ue().ue() > 15 {
        None
    } else {
        Some(after_refs(after_refs(d.after_ues(2), d.ue() as nat), d.after_ue().ue() as nat))
    }
}

/// What the slice header of a unit says.
pub open spec fn slice_header(nalu: Seq<u8>, log2: u8) -> Option<SliceHeaderInfo> {
    let rps = header_rps(nalu, log2);
    if nalu.len() < 3 || header_rps_end(rps) is None {
        None
    } else {
        Some(
            SliceHeaderInfo {
                poc_lsb: if instant_refresh(unit_type(nalu)) {
                    0
                } else {
                    header_poc(nalu).bits(log2 as nat)
                },
                poc_lsb_bit_offset: (header_poc(nalu).pos + 16) as usize,
                poc_lsb_len: log2,
                rps_bit_offset: (rps.pos + 16) as usize,
                rps_original_bit_len: (header_rps_end(rps)->0.pos - rps.pos) as usize,
                pps_id: header_pps(nalu).ue() as u8,
            },
        )
    }
}

/// The unit behind its header.
pub(crate) fn reader_of(nalu: &[u8]) -> (r: RbspReader)
    requires
        nalu@.len() >= 2,
    ensures
        r@ == ReaderModel::of_unit(nalu@),
{
    let body: &[u8] = vstd::slice::slice_subrange(nalu, 2, nalu.len());
    assert(body@ =~= nalu@.skip(2));
    RbspReader::new(body)
}

impl SliceHeaderInfo {
    /// Reads the slice header of `nalu`, a unit without start code. A slice that is not the
    /// first of its picture is taken to have its address as an Exp-Golomb code.
    #[verifier::spinoff_prover]
    pub fn parse(nalu: &[u8], sps: &HevcSpsInfo) -> (r: Option<SliceHeaderInfo>)
        ensures
            r == slice_header(nalu@, sps.log2_max_poc_lsb),
    {
        if nalu.len() < 3 {
            return None;
        }
        let ghost start = ReaderModel::of_unit(nalu@);
        let mut r: RbspReader = reader_of(nalu);
        let first_slice: bool = r.read_flag();
        let nal_type: u8 = (nalu[0] >> 1) & 0x3F;
        if nal_type >= 16 && nal_type <= 23 {
            let _no_output_of_prior: bool = r.read_flag();
        }
        assert(r@ == header_pps(nalu@));
        proof {
            lemma_ue_end(r@.bytes, r@.pos);
        }
        let pps_id: u32 = r.read_ue();
        if !first_slice {
            let _dependent: bool = r.read_flag();
            proof {
                lemma_ue_end(r@.bytes, r@.pos);
            }
            let _address: u32 = r.read_ue();
        }
        proof {
            lemma_ue_end(r@.bytes, r@.pos);
        }
        let _slice_type: u32 = r.read_ue();
        assert(r@ == header_poc(nalu@));
        let poc_bit_offset: usize = r.current_bit_pos();
        let poc_lsb: u32 = if nal_type != 19 && nal_type != 20 {
            r.read_bits(sps.log2_max_poc_lsb as usize)
        } else {
            0
        };
        let rps_start_pos: usize = r.current_bit_pos();
        let ghost c = r@;
        assert(c == header_rps(nalu@, sps.log2_max_poc_lsb));
        let from_sps: bool = r.read_flag();
        let ghost d = r@;
        proof {
            lemma_ue_end(d.bytes, d.pos);
            lemma_ue_end(d.after_ue().bytes, d.after_ue().pos);
            lemma_after_few(d);
        }
        if from_sps {
            let _index: u32 = r.read_ue();
        } else {
            let num_neg: u32 = r.read_ue();
            let num_pos: u32 = r.read_ue();
            if num_neg > 15 || num_pos > 15 {
                return None;
            }
            skip_refs(&mut r, num_neg);
            skip_refs(&mut r, num_pos);
        }
        assert(header_rps_end(c) == Some(r@));
        let rps_end_pos: usize = r.current_bit_pos();
        Some(
            SliceHeaderInfo {
                poc_lsb,
                poc_lsb_bit_offset: poc_bit_offset + 16,
                poc_lsb_len: sps.log2_max_poc_lsb,
                rps_bit_offset: rps_start_pos + 16,
                rps_original_bit_len: rps_end_pos - rps_start_pos,
                pps_id: #[verifier::truncate]
                (pps_id as u8),
            },
        )
    }
}

/// The fields of a sequence parameter set.
#[derive(Debug)]
pub struct SpsFields {
    pub raw: Vec<u8>,
    pub log2_max_poc_lsb_minus4: u8,
    pub log2_min_luma_coding_block_size_minus3: u8,
    pub log2_diff_max_min_luma_coding_block_size: u8,
    pub log2_min_transform_block_size_minus2: u8,
    pub log2_diff_max_min_transform_block_size: u8,
    pub max_transform_hierarchy_depth_inter: u8,
    pub max_transform_hierarchy_depth_intra: u8,
    pub sps_max_dec_pic_buffering_minus1: u8,
    pub amp_enabled_flag: bool,
    pub sample_adaptive_offset_enabled_flag: bool,
    pub pcm_enabled_flag: bool,
    pub num_short_term_ref_pic_sets: u8,
    pub long_term_ref_pics_present_flag: bool,
    pub sps_temporal_mvp_enabled_flag: bool,
    pub strong_intra_smoothing_enabled_flag: bool,
    pub scaling_list_enabled_flag: bool,
}

/// How many sub-layers a sequence parameter set announces besides the first one.
pub open spec fn sps_sub_layers(nalu: Seq<u8>) -> u32 {
    ReaderModel::of_unit(nalu).skip(4).bits(3)
}

/// At the number of bits of an order count: behind the profile, the identifier, the chroma
/// format, the picture size, the window that is shown and the bit depths.
pub open spec fn sps_poc_bits(nalu: Seq<u8>) -> ReaderModel {
    let chroma = after_profile(
        ReaderModel::of_unit(nalu).skip(8),
        true,
        sps_sub_layers(nalu) as nat,
    ).after_ue();
    let size = if chroma.ue() == 3 {
        chroma.after_ue().skip(1)
    } else {
        chroma.after_ue()
    };
    let window = size.after_ues(2);
    let depths = if window.flag() {
        window.skip(1).after_ues(4)
    } else {
        window.skip(1)
    };
    depths.after_ues(2)
}

/// How often the buffer sizes are given.
pub open spec fn sps_orderings(nalu: Seq<u8>) -> nat {
    if sps_poc_bits(nalu).after_ue().flag() {
        (sps_sub_layers(nalu) + 1) as nat
    } else {
        1
    }
}

/// At the buffer sizes, of which each is three codes.
pub open spec fn sps_buffering(nalu: Seq<u8>) -> ReaderModel {
    sps_poc_bits(nalu).after_ue().skip(1)
}

/// At the block sizes.
pub open spec fn sps_blocks(nalu: Seq<u8>) -> ReaderModel {
    sps_buffering(nalu).after_ues(3 * sps_orderings(nalu))
}

/// At the flags behind the scaling lists.
pub open spec fn sps_tools(nalu: Seq<u8>) -> ReaderModel {
    let c = sps_blocks(nalu).after_ues(6);
    if !c.flag() {
        c.skip(1)
    } else if !c.skip(1).flag() {
        c.skip(2)
    } else {
        after_scaling(c.skip(2))
    }
}

/// At the number of reference picture sets: behind three flags and what is said of
/// uncompressed blocks.
pub open spec fn sps_ref_sets(nalu: Seq<u8>) -> ReaderModel {
    let c = sps_tools(nalu);
    if c.skip(2).flag() {
        c.skip(11).after_ues(2).skip(1)
    } else {
        c.skip(3)
    }
}

/// At the flag for long-term references.
pub open spec fn sps_long_term(nalu: Seq<u8>) -> ReaderModel {
    let c = sps_ref_sets(nalu);
    after_ref_sets(c.after_ue(), (c.ue() as u8) as nat)
}

/// At the last flags.
pub open spec fn sps_last(nalu: Seq<u8>) -> ReaderModel {
    let c = sps_long_term(nalu);
    if c.flag() {
        let d = c.skip(1);
        d.after_ue().skip(d.ue() * ((sps_poc_bits(nalu).ue() as u8) + 5))
    } else {
        c.skip(1)
    }
}

impl SpsFields {
    /// The fields are those that stand in the unit.
    pub open spec fn read_from(self, nalu: Seq<u8>) -> bool {
        &&& self.raw@ == nalu
        &&& self.log2_max_poc_lsb_minus4 == sps_poc_bits(nalu).ue() as u8
        &&& self.sps_max_dec_pic_buffering_minus1 == sps_buffering(nalu).after_ues(
            (3 * (sps_orderings(nalu) - 1)) as nat,
        ).ue() as u8
        &&& self.log2_min_luma_coding_block_size_minus3 == sps_blocks(nalu).ue() as u8
        &&& self.log2_diff_max_min_luma_coding_block_size == sps_blocks(nalu).after_ues(
            1,
        ).ue() as u8
        &&& self.log2_min_transform_block_size_minus2 == sps_blocks(nalu).after_ues(2).ue() as u8
        &&& self.log2_diff_max_min_transform_block_size == sps_blocks(nalu).after_ues(
            3,
        ).ue() as u8
        &&& self.max_transform_hierarchy_depth_inter == sps_blocks(nalu).after_ues(4).ue() as u8
        &&& self.max_transform_hierarchy_depth_intra == sps_blocks(nalu).after_ues(5).ue() as u8
        &&& self.scaling_list_enabled_flag == sps_blocks(nalu).after_ues(6).flag()
        &&& self.amp_enabled_flag == sps_tools(nalu).flag()
        &&& self.sample_adaptive_offset_enabled_flag == sps_tools(nalu).skip(1).flag()
        &&& self.pcm_enabled_flag == sps_tools(nalu).skip(2).flag()
        &&& self.num_short_term_ref_pic_sets == sps_ref_sets(nalu).ue() as u8
        &&& self.long_term_ref_pics_present_flag == sps_long_term(nalu).flag()
        &&& self.sps_temporal_mvp_enabled_flag == sps_last(nalu).flag()
        &&& self.strong_intra_smoothing_enabled_flag == sps_last(nalu).skip(1).flag()
    }

    /// Reads a sequence parameter set, a unit without start code.
    #[verifier::spinoff_prover]
    pub fn parse(nalu: &[u8]) -> (r: Option<SpsFields>)
        ensures
            match r {
                Some(sps) => nalu@.len() >= 4 && sps.read_from(nalu@),
                None => nalu@.len() < 4,
            },
    {
        if nalu.len() < 4 {
            return None;
        }
        let mut r: RbspReader = reader_of(nalu);
        let sub_layers: u32 = skip_to_poc_bits(&mut r, Ghost(nalu@));
        proof {
            lemma_ue_end(r@.bytes, r@.pos);
        }
        let log2_max_poc_lsb_minus4: u8 = #[verifier::truncate]
        (r.read_ue() as u8);
        let sub_layer_ordering: bool = r.read_flag();
        let orderings: u32 = if sub_layer_ordering {
            sub_layers + 1
        } else {
            1
        };
        assert(r@ == sps_buffering(nalu@));
        let buffering: u8 = read_buffering(&mut r, orderings);
        assert(r@ == sps_blocks(nalu@));
        let ghost blocks = r@;
        proof {
            lemma_after_few(blocks);
            lemma_after_ues(blocks, 1);
            lemma_after_ues(blocks, 2);
            lemma_after_ues(blocks, 3);
            lemma_after_ues(blocks, 4);
            lemma_after_ues(blocks, 5);
            lemma_after_ues(blocks, 6);
        }
        let min_coding: u32 = r.read_ue();
        let diff_coding: u32 = r.read_ue();
        let min_transform: u32 = r.read_ue();
        let diff_transform: u32 = r.read_ue();
        let depth_inter: u32 = r.read_ue();
        let depth_intra: u32 = r.read_ue();
        assert(r@ == blocks.after_ues(6));
        let scaling_list_enabled_flag: bool = r.read_flag();
        if scaling_list_enabled_flag {
            let scaling_present: bool = r.read_flag();
            if scaling_present {
                skip_scaling_list_data(&mut r);
            }
        }
        assert(r@ == sps_tools(nalu@));
        let amp_enabled_flag: bool = r.read_flag();
        let sample_adaptive_offset_enabled_flag: bool = r.read_flag();
        let pcm_enabled_flag: bool = r.read_flag();
        if pcm_enabled_flag {
            let _luma_depth: u32 = r.read_bits(4);
            let _chroma_depth: u32 = r.read_bits(4);
            r.skip_ues(2);
            let _loop_filter: bool = r.read_flag();
        }
        assert(r@ == sps_ref_sets(nalu@));
        let (sets, long_term): (u8, bool) = read_ref_sets(
            &mut r,
            log2_max_poc_lsb_minus4,
            Ghost(nalu@),
        );
        assert(r@ == sps_last(nalu@));
        let sps_temporal_mvp_enabled_flag: bool = r.read_flag();
        let strong_intra_smoothing_enabled_flag: bool = r.read_flag();
        Some(
            SpsFields {
                raw: copy_bytes(nalu),
                log2_max_poc_lsb_minus4,
                log2_min_luma_coding_block_size_minus3: #[verifier::truncate]
                (min_coding as u8),
                log2_diff_max_min_luma_coding_block_size: #[verifier::truncate]
                (diff_coding as u8),
                log2_min_transform_block_size_minus2: #[verifier::truncate]
                (min_transform as u8),
                log2_diff_max_min_transform_block_size: #[verifier::truncate]
                (diff_transform as u8),
                max_transform_hierarchy_depth_inter: #[verifier::truncate]
                (depth_inter as u8),
                max_transform_hierarchy_depth_intra: #[verifier::truncate]
                (depth_intra as u8),
                sps_max_dec_pic_buffering_minus1: buffering,
                amp_enabled_flag,
                sample_adaptive_offset_enabled_flag,
                pcm_enabled_flag,
                num_short_term_ref_pic_sets: sets,
                long_term_ref_pics_present_flag: long_term,
                sps_temporal_mvp_enabled_flag,
                strong_intra_smoothing_enabled_flag,
                scaling_list_enabled_flag,
            },
        )
    }
}

pub(crate) fn copy_bytes(bytes: &[u8]) -> (r: Vec<u8>)
    ensures
        r@ == bytes@,
{
    let mut out: Vec<u8> = Vec::new();
    out.extend_from_slice(bytes);
    assert(out@ =~= bytes@);
    out
}

/// Reads up to the number of bits of an order count. Returns the number of sub-layers.
pub(crate) fn skip_to_poc_bits(r: &mut RbspReader, Ghost(nalu): Ghost<Seq<u8>>) -> (sub_layers: u32)
    requires
        old(r)@ == ReaderModel::of_unit(nalu),
    ensures
        final(r)@ == sps_poc_bits(nalu),
        final(r)@.pos <= 1700,
        sub_layers == sps_sub_layers(nalu),
        sub_layers <= 7,
{
    let _vps: u32 = r.read_bits(4);
    let ghost at = r@;
    let sub_layers: u32 = r.read_bits(3);
    proof {
        lemma_number_bound(crate::hevc::bits::bits_from(at.bytes, at.pos, 3));
        vstd::arithmetic::power2::lemma2_to64();
    }
    let _nesting: bool = r.read_flag();
    skip_profile_tier_level(r, true, sub_layers);
    proof {
        lemma_ue_end(r@.bytes, r@.pos);
    }
    let _sps_id: u32 = r.read_ue();
    proof {
        lemma_ue_end(r@.bytes, r@.pos);
    }
    let chroma: u32 = r.read_ue();
    if chroma == 3 {
        let _separate_planes: bool = r.read_flag();
    }
    r.skip_ues(2);
    let window: bool = r.read_flag();
    if window {
        r.skip_ues(4);
    }
    r.skip_ues(2);
    sub_layers
}

/// Reads the buffer sizes. Returns the last first one.
fn read_buffering(r: &mut RbspReader, n: u32) -> (buf: u8)
    requires
        1 <= n <= 8,
        old(r)@.pos <= 2000,
    ensures
        final(r)@ == old(r)@.after_ues(3 * n as nat),
        old(r)@.pos <= final(r)@.pos <= old(r)@.pos + 189 * n,
        buf == old(r)@.after_ues((3 * (n - 1)) as nat).ue() as u8,
{
    let ghost start = r@;
    let mut buf: u8 = 0;
    let mut i: u32 = 0;
    while i < n
        invariant
            i <= n <= 8,
            start.pos <= 2000,
            r@ == start.after_ues((3 * i) as nat),
            i > 0 ==> buf == start.after_ues((3 * (i - 1)) as nat).ue() as u8,
        decreases n - i,
    {
        proof {
            let c = (3 * i) as nat;
            lemma_after_ues(start, c);
            lemma_after_ues(start, c + 1);
            lemma_after_ues(start, c + 2);
            assert(start.after_ues(c + 1) == start.after_ues(c).after_ue());
            assert(start.after_ues(c + 2) == start.after_ues(c + 1).after_ue());
            assert(start.after_ues(c + 3) == start.after_ues(c + 2).after_ue());
        }
        let size: u32 = r.read_ue();
        buf = #[verifier::truncate]
        (size as u8);
        let _reorder: u32 = r.read_ue();
        let _latency: u32 = r.read_ue();
        i = i + 1;
    }
    proof {
        lemma_after_ues(start, (3 * n) as nat);
    }
    buf
}

/// Reads the reference picture sets and what is said of long-term references.
#[verifier::spinoff_prover]
fn read_ref_sets(r: &mut RbspReader, log2: u8, Ghost(nalu): Ghost<Seq<u8>>) -> (res: (u8, bool))
    requires
        old(r)@ == sps_ref_sets(nalu),
        log2 == sps_poc_bits(nalu).ue() as u8,
        old(r)@.pos <= 100_000,
    ensures
        final(r)@ == sps_last(nalu),
        res.0 == sps_ref_sets(nalu).ue() as u8,
        res.1 == sps_long_term(nalu).flag(),
        final(r)@.pos <= 0x2_0000_0000_0000,
{
    proof {
        lemma_ue_end(r@.bytes, r@.pos);
    }
    let num: u32 = r.read_ue();
    let sets: u8 = #[verifier::truncate]
    (num as u8);
    skip_ref_sets(r, sets);
    assert(r@ == sps_long_term(nalu));
    let long_term: bool = r.read_flag();
    if long_term {
        proof {
            lemma_ue_end(r@.bytes, r@.pos);
        }
        let num_lt: u32 = r.read_ue();
        let ghost d = r@;
        let poc_bits: usize = log2 as usize + 4;
        let mut i: u32 = 0;
        assert(0 * (poc_bits + 1) == 0) by (nonlinear_arith);
        while i < num_lt
            invariant
                i <= num_lt,
                4 <= poc_bits <= 259,
                d.pos <= 0x1_0000_0000_0000,
                r@ == d.skip(i * (poc_bits + 1)),
                0 <= i * (poc_bits + 1) <= i * 260,
            decreases num_lt - i,
        {
            assert((i + 1) * (poc_bits + 1) == i * (poc_bits + 1) + poc_bits + 1)
                by (nonlinear_arith);
            let _poc: u32 = r.read_bits(poc_bits);
            let _used: bool = r.read_flag();
            i = i + 1;
        }
    }
    (sets, long_term)
}

} // verus!
