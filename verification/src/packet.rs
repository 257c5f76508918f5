//! Wire types shared by the sending and the receiving side.
use crate::buffer::{
    bytes_empty, bytes_from, bytes_mut_with_capacity, bytes_slice, freeze, put_slice, put_u16_le,
    put_u64_le, put_u8, read_le16, read_le64,
};
use crate::buffer::{
    bytes_mut_view, bytes_view, law_le16_injective, law_le64_injective, law_number_from_low_bytes,
    le16, le64,
};
use bytes::Bytes;
use vstd::prelude::*;

verus! {

pub const TYPE_VIDEO: u8 = 0;

pub const TYPE_AUDIO: u8 = 1;

pub const TYPE_CONTROL: u8 = 2;

/// When a frame passed each stage of the pipeline, in microseconds. Zero stands
/// for a stage that was not passed.
#[derive(Debug, Clone, Copy, PartialEq, Eq, Structural)]
pub struct FrameTrace {
    pub capture_us: u64,
    pub encode_us: u64,
    pub serialize_us: u64,
    pub receive_us: u64,
    pub reassembled_us: u64,
    pub jitter_out_us: u64,
    pub decoder_submit_us: u64,
    pub decode_us: u64,
    pub present_us: u64,
    pub network_ready_us: u64,
    pub hol_released_us: u64,
    pub collecting_done_us: u64,
    pub fec_submitted_us: u64,
    pub fec_done_us: u64,
}

impl Default for FrameTrace {
    fn default() -> (r: FrameTrace)
        ensures
            r == no_trace(),
    {
        FrameTrace {
            capture_us: 0,
            encode_us: 0,
            serialize_us: 0,
            receive_us: 0,
            reassembled_us: 0,
            jitter_out_us: 0,
            decoder_submit_us: 0,
            decode_us: 0,
            present_us: 0,
            network_ready_us: 0,
            hol_released_us: 0,
            collecting_done_us: 0,
            fec_submitted_us: 0,
            fec_done_us: 0,
        }
    }
}

/// The trace of a frame that passed no stage.
pub open spec fn no_trace() -> FrameTrace {
    FrameTrace {
        capture_us: 0,
        encode_us: 0,
        serialize_us: 0,
        receive_us: 0,
        reassembled_us: 0,
        jitter_out_us: 0,
        decoder_submit_us: 0,
        decode_us: 0,
        present_us: 0,
        network_ready_us: 0,
        hol_released_us: 0,
        collecting_done_us: 0,
        fec_submitted_us: 0,
        fec_done_us: 0,
    }
}

/// One slice of an encoded frame, on its way to the decoder.
#[derive(Debug)]
pub struct VideoPacket {
    pub frame_id: u64,
    pub payload: Vec<u8>,
    pub slice_idx: u8,
    pub is_key: bool,
    pub is_last: bool,
    /// Set on the last slice of a frame that was released with slices missing.
    pub is_concealed: bool,
    pub trace: Option<FrameTrace>,
}

/// What a [`VideoPacket`] holds.
#[verifier::ext_equal]
pub struct PacketModel {
    pub frame_id: u64,
    pub payload: Seq<u8>,
    pub slice_idx: u8,
    pub is_key: bool,
    pub is_last: bool,
    pub is_concealed: bool,
    pub trace: Option<FrameTrace>,
}

impl View for VideoPacket {
    type V = PacketModel;

    open spec fn view(&self) -> PacketModel {
        PacketModel {
            frame_id: self.frame_id,
            payload: self.payload@,
            slice_idx: self.slice_idx,
            is_key: self.is_key,
            is_last: self.is_last,
            is_concealed: self.is_concealed,
            trace: self.trace,
        }
    }
}

impl Default for VideoPacket {
    fn default() -> (r: VideoPacket)
        ensures
            r@ == (PacketModel {
                frame_id: 0,
                payload: Seq::empty(),
                slice_idx: 0,
                is_key: false,
                is_last: false,
                is_concealed: false,
                trace: None,
            }),
    {
        VideoPacket {
            frame_id: 0,
            payload: Vec::new(),
            slice_idx: 0,
            is_key: false,
            is_last: false,
            is_concealed: false,
            trace: None,
        }
    }
}

/// What the units of an HEVC stream are for.
#[derive(Debug, Clone, Copy, PartialEq, Eq, Structural)]
pub enum NaluType {
    VideoParamSet,
    SeqParamSet,
    PicParamSet,
    Sei,
    SliceIdr,
    SliceTrailing,
    Other(u8),
}

/// One slice of a frame, as the sender serialises it.
#[derive(Debug, Clone)]
pub struct VideoSlice {
    pub frame_id: u64,
    pub slice_idx: u8,
    pub total_slices: u8,
    pub is_key: bool,
    pub is_last: bool,
    pub payload: Vec<u8>,
    pub trace: Option<FrameTrace>,
    pub nal_type: NaluType,
}

/// What a [`VideoSlice`] holds.
#[verifier::ext_equal]
pub struct VideoSliceModel {
    pub frame_id: u64,
    pub slice_idx: u8,
    pub total_slices: u8,
    pub is_key: bool,
    pub is_last: bool,
    pub payload: Seq<u8>,
    pub trace: Option<FrameTrace>,
    pub nal_type: NaluType,
}

impl View for VideoSlice {
    type V = VideoSliceModel;

    open spec fn view(&self) -> VideoSliceModel {
        VideoSliceModel {
            frame_id: self.frame_id,
            slice_idx: self.slice_idx,
            total_slices: self.total_slices,
            is_key: self.is_key,
            is_last: self.is_last,
            payload: self.payload@,
            trace: self.trace,
            nal_type: self.nal_type,
        }
    }
}

/// One datagram: a shard of a slice behind a header of fixed layout.
///
/// | offset | field          | bytes |
/// |--------|----------------|-------|
/// | 0      | `frame_id`     | 8, little-endian |
/// | 8      | `slice_idx`, `total_slices`, `shard_idx`, `k`, `m` | 1 each |
/// | 13     | `payload_len`  | 2, little-endian |
/// | 15     | `packet_type`, `flags`, `group_idx`, `total_groups` | 1 each |
/// | 19     | `data`         | the rest |
#[derive(Debug)]
pub struct DatagramChunk {
    pub frame_id: u64,
    /// Index of the slice in its frame.
    pub slice_idx: u8,
    /// Number of slices in the frame.
    pub total_slices: u8,
    /// Index of the shard in its group: data shards first, then parity shards.
    pub shard_idx: u8,
    /// Number of data shards in the group.
    pub k: u8,
    /// Number of parity shards in the group.
    pub m: u8,
    /// Length of the shard's data without the padding that equalises shards.
    pub payload_len: u16,
    pub packet_type: u8,
    pub flags: u8,
    pub group_idx: u8,
    pub total_groups: u8,
    pub data: Bytes,
}

/// What a [`DatagramChunk`] holds.
#[verifier::ext_equal]
pub struct ChunkModel {
    pub frame_id: u64,
    pub slice_idx: u8,
    pub total_slices: u8,
    pub shard_idx: u8,
    pub k: u8,
    pub m: u8,
    pub payload_len: u16,
    pub packet_type: u8,
    pub flags: u8,
    pub group_idx: u8,
    pub total_groups: u8,
    pub data: Seq<u8>,
}

impl View for DatagramChunk {
    type V = ChunkModel;

    open spec fn view(&self) -> ChunkModel {
        ChunkModel {
            frame_id: self.frame_id,
            slice_idx: self.slice_idx,
            total_slices: self.total_slices,
            shard_idx: self.shard_idx,
            k: self.k,
            m: self.m,
            payload_len: self.payload_len,
            packet_type: self.packet_type,
            flags: self.flags,
            group_idx: self.group_idx,
            total_groups: self.total_groups,
            data: bytes_view(self.data),
        }
    }
}

impl ChunkModel {
    /// The datagram that carries this chunk.
    pub open spec fn wire(self) -> Seq<u8> {
        le64(self.frame_id) + seq![
            self.slice_idx,
            self.total_slices,
            self.shard_idx,
            self.k,
            self.m,
        ] + le16(self.payload_len) + seq![
            self.packet_type,
            self.flags,
            self.group_idx,
            self.total_groups,
        ] + self.data
    }
}

impl Default for DatagramChunk {
    fn default() -> (r: DatagramChunk)
        ensures
            r@ == (ChunkModel {
                frame_id: 0,
                slice_idx: 0,
                total_slices: 0,
                shard_idx: 0,
                k: 0,
                m: 0,
                payload_len: 0,
                packet_type: 0,
                flags: 0,
                group_idx: 0,
                total_groups: 0,
                data: Seq::empty(),
            }),
    {
        DatagramChunk {
            frame_id: 0,
            slice_idx: 0,
            total_slices: 0,
            shard_idx: 0,
            k: 0,
            m: 0,
            payload_len: 0,
            packet_type: 0,
            flags: 0,
            group_idx: 0,
            total_groups: 0,
            data: bytes_empty(),
        }
    }
}

impl DatagramChunk {
    /// Length of the header.
    pub const HEADER_LEN: usize = 19;

    /// The datagram with the given header fields and `data` behind them.
    pub fn encode(
        frame_id: u64,
        slice_idx: u8,
        total_slices: u8,
        shard_idx: u8,
        k: u8,
        m: u8,
        payload_len: u16,
        p_type: u8,
        flags: u8,
        group_idx: u8,
        total_groups: u8,
        data: &[u8],
    ) -> (r: Bytes)
        requires
            data@.len() + Self::HEADER_LEN <= isize::MAX,
        ensures
            bytes_view(r) == (ChunkModel {
                frame_id,
                slice_idx,
                total_slices,
                shard_idx,
                k,
                m,
                payload_len,
                packet_type: p_type,
                flags,
                group_idx,
                total_groups,
                data: data@,
            }).wire(),
    {
        let mut buf = bytes_mut_with_capacity(Self::HEADER_LEN + data.len());
        put_u64_le(&mut buf, frame_id);
        put_u8(&mut buf, slice_idx);
        put_u8(&mut buf, total_slices);
        put_u8(&mut buf, shard_idx);
        put_u8(&mut buf, k);
        put_u8(&mut buf, m);
        put_u16_le(&mut buf, payload_len);
        put_u8(&mut buf, p_type);
        put_u8(&mut buf, flags);
        put_u8(&mut buf, group_idx);
        put_u8(&mut buf, total_groups);
        put_slice(&mut buf, data);
        assert(bytes_mut_view(buf) =~= le64(frame_id) + seq![slice_idx, total_slices, shard_idx, k, m]
            + le16(payload_len) + seq![p_type, flags, group_idx, total_groups] + data@);
        freeze(buf)
    }

    /// The chunk that a datagram carries; `None` when the datagram is shorter
    /// than the header.
    pub fn decode(raw: Bytes) -> (r: Option<DatagramChunk>)
        ensures
            r is Some <==> bytes_view(raw).len() >= Self::HEADER_LEN,
            r matches Some(c) ==> c@.wire() == bytes_view(raw),
    {
        let s = bytes_slice(&raw);
        if s.len() < Self::HEADER_LEN {
            return None;
        }
        let frame_id: u64 = read_le64(s, 0);
        let payload_len: u16 = read_le16(s, 13);
        let c = DatagramChunk {
            frame_id,
            slice_idx: s[8],
            total_slices: s[9],
            shard_idx: s[10],
            k: s[11],
            m: s[12],
            payload_len,
            packet_type: s[15],
            flags: s[16],
            group_idx: s[17],
            total_groups: s[18],
            data: bytes_from(&raw, Self::HEADER_LEN),
        };
        assert(c@.wire() =~= bytes_view(raw)) by {
            let w = bytes_view(raw);
            assert(w =~= w.subrange(0, 8) + w.subrange(8, 13) + w.subrange(13, 15) + w.subrange(15, 19)
                + w.skip(19));
            assert(w.subrange(8, 13) =~= seq![w[8], w[9], w[10], w[11], w[12]]);
            assert(w.subrange(15, 19) =~= seq![w[15], w[16], w[17], w[18]]);
        }
        Some(c)
    }

    /// The datagram that carries this chunk.
    pub fn to_bytes(&self) -> (r: Bytes)
        requires
            self@.data.len() + Self::HEADER_LEN <= isize::MAX,
        ensures
            bytes_view(r) == self@.wire(),
    {
        Self::encode(
            self.frame_id,
            self.slice_idx,
            self.total_slices,
            self.shard_idx,
            self.k,
            self.m,
            self.payload_len,
            self.packet_type,
            self.flags,
            self.group_idx,
            self.total_groups,
            bytes_slice(&self.data),
        )
    }
}

/// A datagram determines the chunk that it carries: what [`DatagramChunk::decode`]
/// reads out of an encoded chunk is that chunk.
pub proof fn law_wire_injective(a: ChunkModel, b: ChunkModel)
    requires
        a.wire() == b.wire(),
    ensures
        a == b,
{
    let w = a.wire();
    assert(le64(a.frame_id) =~= w.subrange(0, 8) && le64(b.frame_id) =~= w.subrange(0, 8));
    law_le64_injective(a.frame_id, b.frame_id);
    assert(le16(a.payload_len) =~= w.subrange(13, 15) && le16(b.payload_len) =~= w.subrange(13, 15));
    law_le16_injective(a.payload_len, b.payload_len);
    assert(a.slice_idx == w[8] && b.slice_idx == w[8]);
    assert(a.total_slices == w[9] && b.total_slices == w[9]);
    assert(a.shard_idx == w[10] && b.shard_idx == w[10]);
    assert(a.k == w[11] && b.k == w[11]);
    assert(a.m == w[12] && b.m == w[12]);
    assert(a.packet_type == w[15] && b.packet_type == w[15]);
    assert(a.flags == w[16] && b.flags == w[16]);
    assert(a.group_idx == w[17] && b.group_idx == w[17]);
    assert(a.total_groups == w[18] && b.total_groups == w[18]);
    assert(a.data =~= w.skip(19) && b.data =~= w.skip(19));
}

/// Where the fields stand in a datagram: the numbers of frame and length from the lowest byte
/// on, every other field in a byte of its own, and the data behind nineteen bytes of header.
pub proof fn law_fields_have_their_places(c: ChunkModel)
    ensures
        ({
            let w = c.wire();
            &&& w.len() == 19 + c.data.len()
            &&& c.frame_id == w[0] + 0x100 * w[1] + 0x1_0000 * w[2] + 0x100_0000 * w[3]
                + 0x1_0000_0000 * w[4] + 0x100_0000_0000 * w[5] + 0x1_0000_0000_0000 * w[6]
                + 0x100_0000_0000_0000 * w[7]
            &&& w[8] == c.slice_idx
            &&& w[9] == c.total_slices
            &&& w[10] == c.shard_idx
            &&& w[11] == c.k
            &&& w[12] == c.m
            &&& c.payload_len == w[13] + 0x100 * w[14]
            &&& w[15] == c.packet_type
            &&& w[16] == c.flags
            &&& w[17] == c.group_idx
            &&& w[18] == c.total_groups
            &&& w.skip(19) == c.data
        }),
{
    let w = c.wire();
    law_number_from_low_bytes(c.frame_id);
    assert(le64(c.frame_id) =~= w.subrange(0, 8));
    assert forall|i: int| 0 <= i < 8 implies (#[trigger] w[i]) == le64(c.frame_id)[i] by {
        assert(w.subrange(0, 8)[i] == w[i]);
    }
    assert(w.subrange(13, 15) =~= le16(c.payload_len));
    assert(w[13] == w.subrange(13, 15)[0] && w[14] == w.subrange(13, 15)[1]);
    assert(w.skip(19) =~= c.data);
}

} // verus!
