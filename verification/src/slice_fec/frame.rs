//! Putting of a frame together out of its slices.
use crate::chunked::reassembly::{reassembled_trace, stamp_reassembled};
use crate::fec::slice_wire::{read_slice, slice_in};
use crate::packet::{ChunkModel, DatagramChunk, FrameTrace, PacketModel, VideoPacket};
use crate::slice_fec::slice::{new_slice, SliceBuilder, SliceModel};
use std::collections::HashMap;
use vstd::prelude::*;

verus! {

broadcast use vstd::std_specs::hash::group_hash_axioms;

/// The slices of a frame as far as they have come.
#[derive(Debug)]
pub struct FrameBuilder {
    slices: HashMap<u8, SliceBuilder>,
    total_slices: u8,
    is_key: bool,
    first_us: u64,
    handed_out: bool,
}

/// What a [`FrameBuilder`] holds.
#[verifier::ext_equal]
pub struct FrameModel {
    pub slices: Map<u8, SliceModel>,
    pub total_slices: u8,
    pub is_key: bool,
    pub first_us: u64,
    /// The frame has been put together and handed out.
    pub handed_out: bool,
}

/// A frame of which nothing has come.
pub open spec fn new_frame(total_slices: u8, is_key: bool, now_us: u64) -> FrameModel {
    FrameModel {
        slices: Map::empty(),
        total_slices,
        is_key,
        first_us: now_us,
        handed_out: false,
    }
}

/// The bytes of a frame and its trace.
#[verifier::ext_equal]
pub struct Assembly {
    pub payload: Seq<u8>,
    pub trace: Option<FrameTrace>,
}

impl FrameModel {
    /// Each slice is valid.
    pub open spec fn valid(self) -> bool {
        &&& self.slices.dom().finite()
        &&& forall|i: u8| #[trigger] self.slices.contains_key(i) ==> self.slices[i].valid()
    }

    /// As many slices have come as the frame has, counted in one byte, and each is ready.
    pub open spec fn complete(self) -> bool {
        &&& self.slices.len() % 256 == self.total_slices
        &&& forall|i: u8| #[trigger] self.slices.contains_key(i) ==> self.slices[i].ready()
    }

    /// The slices with a new one for the shard, if there was none.
    pub open spec fn opened(self, c: ChunkModel) -> FrameModel {
        if self.slices.contains_key(c.slice_idx) {
            self
        } else {
            FrameModel {
                slices: self.slices.insert(c.slice_idx, new_slice(c.k, c.m)),
                ..self
            }
        }
    }

    /// With one more shard.
    pub open spec fn inserted(self, c: ChunkModel) -> FrameModel {
        let open = self.opened(c);
        FrameModel {
            slices: open.slices.insert(c.slice_idx, open.slices[c.slice_idx].inserted(c)),
            ..self
        }
    }

    /// The frame after slice `i` was recovered.
    pub open spec fn filled_in(self, i: u8) -> FrameModel {
        FrameModel { slices: self.slices.insert(i, self.slices[i].filled_in()), ..self }
    }

    /// With the bytes of slice `i`. The first slice has the trace of the frame.
    pub open spec fn with_slice(self, got: Assembly, i: nat, bytes: Seq<u8>, now_us: u64) -> Option<
        Assembly,
    > {
        match slice_in(bytes) {
            Some(v) => Some(
                Assembly {
                    payload: got.payload + v.payload,
                    trace: if i == 0 {
                        reassembled_trace(v.trace, self.first_us, now_us)
                    } else {
                        got.trace
                    },
                },
            ),
            None => None,
        }
    }

    /// Puts slices together from slice `i` on, as long as each can be recovered and read.
    /// Returns the frame as it is then, and the bytes if all could be had.
    pub open spec fn assembled_from(self, i: nat, got: Assembly, now_us: u64) -> (
        FrameModel,
        Option<Assembly>,
    )
        decreases self.total_slices - i,
    {
        if i >= self.total_slices {
            (self, Some(got))
        } else if !self.slices.contains_key(i as u8) {
            (self, None)
        } else {
            let next = self.filled_in(i as u8);
            match self.slices[i as u8].recovered() {
                Some(bytes) => match self.with_slice(got, i, bytes, now_us) {
                    Some(more) => next.assembled_from(i + 1, more, now_us),
                    None => (next, None),
                },
                None => (next, None),
            }
        }
    }

    /// The frame that is put together, if all slices can be recovered and read.
    pub open spec fn assembled(self, frame_id: u64, now_us: u64) -> (FrameModel, Option<PacketModel>) {
        let (after, all) = self.assembled_from(
            0,
            Assembly { payload: Seq::empty(), trace: None },
            now_us,
        );
        match all {
            Some(a) => (
                after,
                Some(
                    PacketModel {
                        frame_id,
                        payload: a.payload,
                        slice_idx: 0,
                        is_key: self.is_key,
                        is_last: true,
                        is_concealed: false,
                        trace: a.trace,
                    },
                ),
            ),
            None => (after, None),
        }
    }

    /// After a shard: the frame, and its packet if it can be put together and has not been
    /// handed out before.
    pub open spec fn accepted(self, c: ChunkModel, now_us: u64) -> (FrameModel, Option<PacketModel>) {
        let with = self.inserted(c);
        if with.complete() && !self.handed_out {
            let (after, packet) = with.assembled(c.frame_id, now_us);
            (FrameModel { handed_out: packet is Some, ..after }, packet)
        } else {
            (with, None)
        }
    }
}

impl View for FrameBuilder {
    type V = FrameModel;

    closed spec fn view(&self) -> FrameModel {
        FrameModel {
            slices: self.slices@.map_values(|s: SliceBuilder| s@),
            total_slices: self.total_slices,
            is_key: self.is_key,
            first_us: self.first_us,
            handed_out: self.handed_out,
        }
    }
}

pub open spec fn packet_view(p: Option<VideoPacket>) -> Option<PacketModel> {
    match p {
        Some(v) => Some(v@),
        None => None,
    }
}

impl FrameBuilder {
    /// Nothing has come.
    pub fn new(total_slices: u8, is_key: bool, now_us: u64) -> (r: FrameBuilder)
        ensures
            r@ == new_frame(total_slices, is_key, now_us),
            r@.valid(),
    {
        let r = FrameBuilder {
            slices: HashMap::new(),
            total_slices,
            is_key,
            first_us: now_us,
            handed_out: false,
        };
        assert(r@.slices =~= Map::<u8, SliceModel>::empty());
        r
    }

    /// How many slices the frame has.
    pub fn total_slices(&self) -> (r: u8)
        ensures
            r == self@.total_slices,
    {
        self.total_slices
    }

    /// When the frame began to come.
    pub fn first_us(&self) -> (r: u64)
        ensures
            r == self@.first_us,
    {
        self.first_us
    }

    /// The slice of this number, if any of it has come.
    pub fn slice(&self, idx: u8) -> (r: Option<&SliceBuilder>)
        ensures
            match r {
                Some(s) => self@.slices.contains_key(idx) && self@.slices[idx] == s@,
                None => !self@.slices.contains_key(idx),
            },
    {
        self.slices.get(&idx)
    }

    /// Whether all slices can be recovered.
    pub fn is_complete(&self) -> (r: bool)
        requires
            self@.valid(),
        ensures
            r == self@.complete(),
    {
        assert(self@.slices.dom() =~= self.slices@.dom());
        if self.slices.len() % 256 != self.total_slices as usize {
            return false;
        }
        let mut i: u16 = 0;
        while i < 256
            invariant
                i <= 256,
                forall|j: u8|
                    j < i && #[trigger] self@.slices.contains_key(j) ==> self@.slices[j].ready(),
            decreases 256 - i,
        {
            match self.slices.get(&(i as u8)) {
                Some(s) => {
                    assert(self@.slices.contains_key(i as u8));
                    if !s.is_ready() {
                        return false;
                    }
                },
                None => {},
            }
            i = i + 1;
        }
        true
    }

    /// Takes a shard in. Returns the frame if it can be put together and has not been handed
    /// out before.
    pub fn insert_chunk(&mut self, chunk: &DatagramChunk, now_us: u64) -> (r: Option<VideoPacket>)
        requires
            old(self)@.valid(),
            old(self)@.slices.contains_key(chunk.slice_idx) || chunk.k + chunk.m <= 255,
        ensures
            (final(self)@, packet_view(r)) == old(self)@.accepted(chunk@, now_us),
            final(self)@.valid(),
    {
        let ghost before = self@;
        let mut s: SliceBuilder = match self.slices.remove(&chunk.slice_idx) {
            Some(s) => s,
            None => SliceBuilder::new(chunk.k, chunk.m),
        };
        assert(s@ == before.opened(chunk@).slices[chunk.slice_idx]);
        s.insert(chunk);
        self.slices.insert(chunk.slice_idx, s);
        assert(self@.slices =~= before.inserted(chunk@).slices);
        if !self.handed_out && self.is_complete() {
            let packet: Option<VideoPacket> = self.assemble(chunk.frame_id, now_us);
            self.handed_out = packet.is_some();
            packet
        } else {
            None
        }
    }

    /// Puts the frame together, if all slices can be recovered and read.
    pub fn assemble(&mut self, frame_id: u64, now_us: u64) -> (r: Option<VideoPacket>)
        requires
            old(self)@.valid(),
        ensures
            (final(self)@, packet_view(r)) == old(self)@.assembled(frame_id, now_us),
            final(self)@.valid(),
    {
        let ghost start = self@;
        let ghost none = Assembly { payload: Seq::empty(), trace: None };
        let mut payload: Vec<u8> = Vec::new();
        let mut trace: Option<FrameTrace> = None;
        let mut i: u8 = 0;
        assert(payload@ =~= none.payload);
        while i < self.total_slices
            invariant
                start == old(self)@,
                self@.valid(),
                i <= self.total_slices == start.total_slices,
                self.first_us == start.first_us,
                self.is_key == start.is_key,
                self@.assembled_from(i as nat, Assembly { payload: payload@, trace }, now_us)
                    == start.assembled_from(
                    0,
                    Assembly { payload: Seq::empty(), trace: None },
                    now_us,
                ),
            decreases self.total_slices - i,
        {
            let ghost now = self@;
            let ghost got = Assembly { payload: payload@, trace };
            let mut s: SliceBuilder = match self.slices.remove(&i) {
                Some(s) => s,
                None => {
                    assert(self@ =~= now);
                    return None;
                },
            };
            assert(s@ == now.slices[i]);
            let bytes: Option<Vec<u8>> = s.reconstruct();
            self.slices.insert(i, s);
            assert(self@ =~= now.filled_in(i));
            match bytes {
                Some(b) => match read_slice(b.as_slice()) {
                    Some(v) => {
                        if i == 0 {
                            trace = stamp_reassembled(v.trace, self.first_us, now_us);
                        }
                        payload.extend_from_slice(v.payload.as_slice());
                        assert(payload@ =~= got.payload + v.payload@);
                        assert(now.with_slice(got, i as nat, b@, now_us) == Some(
                            Assembly { payload: payload@, trace },
                        ));
                    },
                    None => {
                        return None;
                    },
                },
                None => {
                    return None;
                },
            }
            i = i + 1;
        }
        Some(
            VideoPacket {
                frame_id,
                payload,
                slice_idx: 0,
                is_key: self.is_key,
                is_last: true,
                is_concealed: false,
                trace,
            },
        )
    }
}

} // verus!
