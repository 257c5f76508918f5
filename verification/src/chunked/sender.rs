//! Cutting of frames into datagrams.
use crate::buffer::{bytes_between, bytes_of, bytes_slice, bytes_view};
use crate::chunked::packet::{packet_wire, postcard_packet_fields, VideoPacket};
use crate::chunked::{DatagramChunk, PieceModel};
use bytes::Bytes;
use vstd::prelude::*;

verus! {

/// Datagram size that is assumed when the connection does not know its own.
pub const DEFAULT_DATAGRAM: usize = 1200;

/// Room that is left in a datagram for the framing of the transport.
pub const FRAMING_MARGIN: usize = 8;

/// The size that a screen is captured in.
#[derive(Debug, Clone, Copy, PartialEq, Eq, Structural)]
pub struct LinuxPipeWireSender {
    pub width: u32,
    pub height: u32,
}

impl LinuxPipeWireSender {
    /// Captures in this size.
    pub fn new(width: u32, height: u32) -> (r: LinuxPipeWireSender)
        ensures
            r == (LinuxPipeWireSender { width, height }),
    {
        LinuxPipeWireSender { width, height }
    }
}

/// How much data a datagram takes besides the header.
pub open spec fn chunk_room(datagram: Option<usize>) -> int {
    let size = match datagram {
        Some(n) => n as int,
        None => DEFAULT_DATAGRAM as int,
    };
    let taken = DatagramChunk::HEADER_LEN + FRAMING_MARGIN;
    if size >= taken {
        size - taken
    } else {
        0
    }
}

/// How much data a datagram takes besides the header.
pub fn max_chunk_data(datagram: Option<usize>) -> (r: usize)
    ensures
        r == chunk_room(datagram),
{
    let size: usize = match datagram {
        Some(n) => n,
        None => DEFAULT_DATAGRAM,
    };
    size.saturating_sub(DatagramChunk::HEADER_LEN + FRAMING_MARGIN)
}

/// How many pieces `len` bytes are cut into.
pub open spec fn piece_count(len: nat, max: nat) -> nat {
    (len + max - 1) as nat / max
}

/// Piece `i` of `data`.
pub open spec fn piece(data: Seq<u8>, max: nat, i: int) -> Seq<u8> {
    data.subrange(
        i * max,
        if (i + 1) * max < data.len() {
            (i + 1) * max
        } else {
            data.len() as int
        },
    )
}

/// The datagrams of a frame. Numbers are written modulo two to the power of 16.
pub open spec fn frame_datagrams(frame_id: u64, data: Seq<u8>, max: nat) -> Seq<PieceModel> {
    Seq::new(
        piece_count(data.len(), max),
        |i: int|
            PieceModel {
                frame_id,
                chunk_idx: i as u16,
                total_chunks: piece_count(data.len(), max) as u16,
                data: piece(data, max, i),
            },
    )
}

/// Cuts a serialised frame into datagrams.
pub fn split_frame(frame_id: u64, data: &Bytes, max: usize) -> (r: Vec<Bytes>)
    requires
        max > 0,
        bytes_view(*data).len() + max + DatagramChunk::HEADER_LEN <= isize::MAX,
    ensures
        r@.len() == piece_count(bytes_view(*data).len(), max as nat),
        forall|i: int|
            0 <= i < r@.len() ==> bytes_view(#[trigger] r@[i]) == frame_datagrams(
                frame_id,
                bytes_view(*data),
                max as nat,
            )[i].wire(),
{
    let ghost d = bytes_view(*data);
    let ghost m = max as nat;
    let len: usize = bytes_slice(data).len();
    let total: usize = (len + max - 1) / max;
    let total_chunks: u16 = #[verifier::truncate]
    (total as u16);
    let mut out: Vec<Bytes> = Vec::new();
    let mut offset: usize = 0;
    let mut idx: usize = 0;
    assert(0 * m == 0) by (nonlinear_arith);
    proof {
        lemma_piece_bounds(d.len(), m, 0);
    }
    while offset < len
        invariant
            d == bytes_view(*data),
            m == max,
            max > 0,
            len == d.len(),
            len + max + DatagramChunk::HEADER_LEN <= isize::MAX,
            total == piece_count(d.len(), m),
            total_chunks == total as u16,
            offset == idx * m,
            idx <= total,
            idx < total <==> offset < len,
            out@.len() == idx,
            forall|i: int|
                0 <= i < out@.len() ==> bytes_view(#[trigger] out@[i]) == frame_datagrams(
                    frame_id,
                    d,
                    m,
                )[i].wire(),
        decreases total - idx,
    {
        let end: usize = if max < len - offset {
            offset + max
        } else {
            len
        };
        assert((idx + 1) * m == idx * m + m) by (nonlinear_arith);
        let slice: Bytes = bytes_between(data, offset, end);
        let dgram: Bytes = DatagramChunk::encode(
            frame_id,
            #[verifier::truncate]
            (idx as u16),
            total_chunks,
            bytes_slice(&slice),
        );
        let ghost before = out@;
        out.push(dgram);
        proof {
            assert(bytes_view(dgram) == frame_datagrams(frame_id, d, m)[idx as int].wire());
            assert forall|i: int| 0 <= i < out@.len() implies bytes_view(#[trigger] out@[i])
                == frame_datagrams(frame_id, d, m)[i].wire() by {
                if i < before.len() {
                    assert(out@[i] == before[i]);
                }
            }
            lemma_piece_bounds(d.len(), m, (idx + 1) as nat);
        }
        idx = idx + 1;
        offset = offset + max;
    }
    proof {
        lemma_piece_bounds(d.len(), m, idx as nat);
    }
    out
}

/// A piece begins inside the data if and only if it is counted.
pub proof fn lemma_piece_bounds(len: nat, max: nat, i: nat)
    requires
        max > 0,
    ensures
        i * max < len <==> i < piece_count(len, max),
{
    let n = piece_count(len, max);
    vstd::arithmetic::div_mod::lemma_fundamental_div_mod((len + max - 1) as int, max as int);
    let r = (len + max - 1) as int % (max as int);
    assert(len + max - 1 == max * n + r);
    assert(0 <= r < max) by {
        vstd::arithmetic::div_mod::lemma_mod_bound((len + max - 1) as int, max as int);
    }
    if i < n {
        assert(i * max + max <= n * max) by (nonlinear_arith)
            requires
                i + 1 <= n,
        ;
        assert(n * max == max * n) by (nonlinear_arith);
    } else {
        assert(i * max >= n * max) by (nonlinear_arith)
            requires
                i >= n,
        ;
        assert(n * max == max * n) by (nonlinear_arith);
    }
}

/// Which frames go to a client: none before the first key frame, and none between a gap in
/// the queue and the next key frame.
#[derive(Debug, Clone, Copy, PartialEq, Eq, Structural)]
pub struct ClientStream {
    pub started: bool,
}

impl ClientStream {
    /// Nothing has been sent yet.
    pub fn new() -> (r: ClientStream)
        ensures
            !r.started,
    {
        ClientStream { started: false }
    }

    /// Whether a frame is sent.
    pub fn accept(&mut self, is_key: bool) -> (r: bool)
        ensures
            r == (old(self).started || is_key),
            final(self).started == r,
    {
        if !self.started {
            if !is_key {
                return false;
            }
            self.started = true;
        }
        true
    }

    /// Frames have been missed.
    pub fn lagged(&mut self)
        ensures
            !final(self).started,
    {
        self.started = false;
    }
}

/// Numbers the frames from one on.
#[derive(Debug, Clone, Copy, PartialEq, Eq, Structural)]
pub struct FrameNumbers {
    pub last: u64,
}

impl FrameNumbers {
    /// No frame has been numbered.
    pub fn new() -> (r: FrameNumbers)
        ensures
            r.last == 0,
    {
        FrameNumbers { last: 0 }
    }

    /// Numbers a frame and serialises it.
    pub fn next(&mut self, payload: Vec<u8>, is_key: bool, timestamp: u64) -> (r: (u64, Option<Bytes>))
        requires
            old(self).last < u64::MAX,
        ensures
            final(self).last == old(self).last + 1,
            r.0 == final(self).last,
            r.1 is Some,
            bytes_view(r.1->0) == packet_wire((r.0, payload@, timestamp, is_key)),
            postcard_packet_fields(bytes_view(r.1->0)) == Some(
                (r.0, payload@, timestamp, is_key),
            ),
    {
        self.last = self.last + 1;
        let packet = VideoPacket { frame_id: self.last, payload, timestamp, is_key };
        match packet.to_bytes() {
            Some(bin) => (self.last, Some(bytes_of(bin))),
            None => (self.last, None),
        }
    }
}

} // verus!
