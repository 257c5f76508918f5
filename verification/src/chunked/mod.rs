//! Whole frames cut into numbered datagrams.
use crate::buffer::{
    bytes_from, bytes_mut_with_capacity, bytes_slice, bytes_view, freeze, law_le16_injective,
    law_le64_injective, le16, le64, put_slice, put_u16_le, put_u64_le, read_le16, read_le64,
};
use bytes::Bytes;
use vstd::prelude::*;

pub mod packet;
pub mod reassembly;
pub mod sender;
pub mod laws;

verus! {

/// One datagram: a piece of a serialised frame behind a header of fixed layout.
///
/// | offset | field          | bytes |
/// |--------|----------------|-------|
/// | 0      | `frame_id`     | 8, little-endian |
/// | 8      | `chunk_idx`    | 2, little-endian |
/// | 10     | `total_chunks` | 2, little-endian |
/// | 12     | `data`         | the rest |
#[derive(Debug)]
pub struct DatagramChunk {
    pub frame_id: u64,
    pub chunk_idx: u16,
    pub total_chunks: u16,
    pub data: Bytes,
}

/// What a [`DatagramChunk`] holds.
#[verifier::ext_equal]
pub struct PieceModel {
    pub frame_id: u64,
    pub chunk_idx: u16,
    pub total_chunks: u16,
    pub data: Seq<u8>,
}

impl View for DatagramChunk {
    type V = PieceModel;

    open spec fn view(&self) -> PieceModel {
        PieceModel {
            frame_id: self.frame_id,
            chunk_idx: self.chunk_idx,
            total_chunks: self.total_chunks,
            data: bytes_view(self.data),
        }
    }
}

impl PieceModel {
    /// The datagram that carries this piece.
    pub open spec fn wire(self) -> Seq<u8> {
        le64(self.frame_id) + le16(self.chunk_idx) + le16(self.total_chunks) + self.data
    }
}

impl DatagramChunk {
    /// Length of the header.
    pub const HEADER_LEN: usize = 12;

    /// The datagram with the given header fields and `data` behind them.
    pub fn encode(frame_id: u64, chunk_idx: u16, total_chunks: u16, data: &[u8]) -> (r: Bytes)
        requires
            data@.len() + Self::HEADER_LEN <= isize::MAX,
        ensures
            bytes_view(r) == (PieceModel { frame_id, chunk_idx, total_chunks, data: data@ }).wire(),
    {
        let mut buf = bytes_mut_with_capacity(Self::HEADER_LEN + data.len());
        put_u64_le(&mut buf, frame_id);
        put_u16_le(&mut buf, chunk_idx);
        put_u16_le(&mut buf, total_chunks);
        put_slice(&mut buf, data);
        assert(crate::buffer::bytes_mut_view(buf) =~= le64(frame_id) + le16(chunk_idx) + le16(
            total_chunks,
        ) + data@);
        freeze(buf)
    }

    /// The piece that a datagram carries; `None` when the datagram is shorter than the
    /// header.
    pub fn decode(raw: Bytes) -> (r: Option<DatagramChunk>)
        ensures
            r is Some <==> bytes_view(raw).len() >= Self::HEADER_LEN,
            r matches Some(c) ==> c@.wire() == bytes_view(raw),
    {
        let s = bytes_slice(&raw);
        if s.len() < Self::HEADER_LEN {
            return None;
        }
        let frame_id: u64 = read_le64(s, 0);
        let chunk_idx: u16 = read_le16(s, 8);
        let total_chunks: u16 = read_le16(s, 10);
        let c = DatagramChunk {
            frame_id,
            chunk_idx,
            total_chunks,
            data: bytes_from(&raw, Self::HEADER_LEN),
        };
        assert(c@.wire() =~= bytes_view(raw)) by {
            let w = bytes_view(raw);
            assert(w =~= w.subrange(0, 8) + w.subrange(8, 10) + w.subrange(10, 12) + w.skip(12));
        }
        Some(c)
    }
}

/// A datagram determines the piece that it carries.
pub proof fn law_piece_wire_injective(a: PieceModel, b: PieceModel)
    requires
        a.wire() == b.wire(),
    ensures
        a == b,
{
    let w = a.wire();
    assert(le64(a.frame_id) =~= w.subrange(0, 8) && le64(b.frame_id) =~= w.subrange(0, 8));
    law_le64_injective(a.frame_id, b.frame_id);
    assert(le16(a.chunk_idx) =~= w.subrange(8, 10) && le16(b.chunk_idx) =~= w.subrange(8, 10));
    law_le16_injective(a.chunk_idx, b.chunk_idx);
    assert(le16(a.total_chunks) =~= w.subrange(10, 12) && le16(b.total_chunks) =~= w.subrange(
        10,
        12,
    ));
    law_le16_injective(a.total_chunks, b.total_chunks);
    assert(a.data =~= w.skip(12) && b.data =~= w.skip(12));
}

/// Where the fields stand in a datagram: the numbers from the lowest byte on, and the data
/// behind twelve bytes of header.
pub proof fn law_piece_fields_have_their_places(p: PieceModel)
    ensures
        ({
            let w = p.wire();
            &&& w.len() == 12 + p.data.len()
            &&& p.frame_id == w[0] + 0x100 * w[1] + 0x1_0000 * w[2] + 0x100_0000 * w[3]
                + 0x1_0000_0000 * w[4] + 0x100_0000_0000 * w[5] + 0x1_0000_0000_0000 * w[6]
                + 0x100_0000_0000_0000 * w[7]
            &&& p.chunk_idx == w[8] + 0x100 * w[9]
            &&& p.total_chunks == w[10] + 0x100 * w[11]
            &&& w.skip(12) == p.data
        }),
{
    let w = p.wire();
    crate::buffer::law_number_from_low_bytes(p.frame_id);
    assert(le64(p.frame_id) =~= w.subrange(0, 8));
    assert forall|i: int| 0 <= i < 8 implies (#[trigger] w[i]) == le64(p.frame_id)[i] by {
        assert(w.subrange(0, 8)[i] == w[i]);
    }
    assert(w.subrange(8, 10) =~= le16(p.chunk_idx));
    assert(w[8] == w.subrange(8, 10)[0] && w[9] == w.subrange(8, 10)[1]);
    assert(w.subrange(10, 12) =~= le16(p.total_chunks));
    assert(w[10] == w.subrange(10, 12)[0] && w[11] == w.subrange(10, 12)[1]);
    assert(w.skip(12) =~= p.data);
}

} // verus!
