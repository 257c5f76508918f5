//! The serialised form of a frame, which the `postcard` crate writes and reads.
use crate::buffer::{flag_byte, varint};
use vstd::prelude::*;

verus! {

/// An encoded frame.
#[derive(Debug)]
pub struct VideoPacket {
    pub frame_id: u64,
    pub payload: Vec<u8>,
    /// When it was sent, in milliseconds since the Unix epoch.
    pub timestamp: u64,
    pub is_key: bool,
}

/// What a [`VideoPacket`] holds, in the order of its fields.
pub type PacketView = (u64, Seq<u8>, u64, bool);

impl View for VideoPacket {
    type V = PacketView;

    open spec fn view(&self) -> PacketView {
        (self.frame_id, self.payload@, self.timestamp, self.is_key)
    }
}

/// The bytes that the fields of a frame are written as: numbers in groups of seven bits, the
/// payload behind its length.
pub open spec fn packet_wire(f: PacketView) -> Seq<u8> {
    varint(f.0 as nat) + varint(f.1.len()) + f.1 + varint(f.2 as nat) + seq![flag_byte(f.3)]
}

/// The fields that are read out of bytes.
pub uninterp spec fn postcard_packet_fields(bytes: Seq<u8>) -> Option<(u64, Seq<u8>, u64, bool)>;

/// `postcard::to_allocvec`: writes the fields of a frame, each in the crate's format. It fails
/// for none, and the crate reads what it wrote back as the same fields.
#[verifier::external_body]
pub(crate) fn packet_bytes(frame_id: u64, payload: &Vec<u8>, timestamp: u64, is_key: bool) -> (r:
    Option<Vec<u8>>)
    ensures
        r is Some,
        r->0@ == packet_wire((frame_id, payload@, timestamp, is_key)),
        postcard_packet_fields(r->0@) == Some((frame_id, payload@, timestamp, is_key)),
{
    match postcard::to_allocvec(&(frame_id, payload, timestamp, is_key)) {
        Ok(bytes) => Some(bytes),
        Err(_) => None,
    }
}

/// `postcard::from_bytes`: reads the fields of a frame. What it reads depends on `data`
/// alone, and where `data` is what fields are written as, it is those fields.
#[verifier::external_body]
pub(crate) fn packet_fields(data: &[u8]) -> (r: Option<(u64, Vec<u8>, u64, bool)>)
    ensures
        match r {
            Some(f) => postcard_packet_fields(data@) == Some((f.0, f.1@, f.2, f.3)),
            None => postcard_packet_fields(data@) is None,
        },
        forall|f: PacketView|
            data@ == #[trigger] packet_wire(f) ==> r is Some && (
                (r->0).0,
                (r->0).1@,
                (r->0).2,
                (r->0).3,
            ) == f,
{
    match postcard::from_bytes::<(u64, Vec<u8>, u64, bool)>(data) {
        Ok(fields) => Some(fields),
        Err(_) => None,
    }
}

impl VideoPacket {
    /// The serialised frame.
    pub fn to_bytes(&self) -> (r: Option<Vec<u8>>)
        ensures
            r is Some,
            r->0@ == packet_wire(self@),
            postcard_packet_fields(r->0@) == Some(self@),
    {
        packet_bytes(self.frame_id, &self.payload, self.timestamp, self.is_key)
    }

    /// The frame that was serialised.
    pub fn from_bytes(data: &[u8]) -> (r: Option<VideoPacket>)
        ensures
            match r {
                Some(p) => postcard_packet_fields(data@) == Some(p@),
                None => postcard_packet_fields(data@) is None,
            },
            forall|f: PacketView|
                data@ == #[trigger] packet_wire(f) ==> r is Some && r->0@ == f,
    {
        match packet_fields(data) {
            Some((frame_id, payload, timestamp, is_key)) => Some(
                VideoPacket { frame_id, payload, timestamp, is_key },
            ),
            None => None,
        }
    }
}

} // verus!
