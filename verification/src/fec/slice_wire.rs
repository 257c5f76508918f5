//! The serialised form of a slice, which the `postcard` crate reads.
use crate::buffer::{flag_byte, varint};
use crate::packet::{FrameTrace, NaluType, VideoSlice, VideoSliceModel};
use vstd::prelude::*;

verus! {

/// The fields of a trace in the order of their declaration.
pub type TraceFields = (
    u64,
    u64,
    u64,
    u64,
    u64,
    u64,
    u64,
    u64,
    u64,
    u64,
    u64,
    u64,
    u64,
    u64,
);

/// The fields of a slice in the order of their declaration, with the number of the unit
/// type's variant in place of the unit type.
pub type SliceFields = (u64, u8, u8, bool, bool, Vec<u8>, Option<TraceFields>, u32);

/// What [`SliceFields`] hold.
pub type SliceFieldsView = (u64, u8, u8, bool, bool, Seq<u8>, Option<TraceFields>, u32);

/// The bytes that the fields of a trace are written as.
pub open spec fn trace_wire(t: TraceFields) -> Seq<u8> {
    varint(t.0 as nat) + varint(t.1 as nat) + varint(t.2 as nat) + varint(t.3 as nat) + varint(
        t.4 as nat,
    ) + varint(t.5 as nat) + varint(t.6 as nat) + varint(t.7 as nat) + varint(t.8 as nat) + varint(
        t.9 as nat,
    ) + varint(t.10 as nat) + varint(t.11 as nat) + varint(t.12 as nat) + varint(t.13 as nat)
}

/// The bytes that the fields of a slice are written as: numbers in groups of seven bits, those
/// of one byte as they are, the payload behind its length, the trace behind a byte that tells
/// whether there is one.
pub open spec fn slice_wire(f: SliceFieldsView) -> Seq<u8> {
    varint(f.0 as nat) + seq![f.1, f.2, flag_byte(f.3), flag_byte(f.4)] + varint(f.5.len()) + f.5
        + (match f.6 {
        Some(t) => seq![1u8] + trace_wire(t),
        None => seq![0u8],
    }) + varint(f.7 as nat)
}

/// The fields that `bytes` begin with and the bytes behind them, if `bytes` begin with
/// such fields.
pub uninterp spec fn postcard_slice_fields(bytes: Seq<u8>) -> Option<
    (SliceFieldsView, Seq<u8>),
>;

/// What the fields hold.
pub open spec fn fields_view(f: SliceFields) -> SliceFieldsView {
    (f.0, f.1, f.2, f.3, f.4, f.5@, f.6, f.7)
}

/// `postcard::take_from_bytes`: reads the fields of a slice and hands back the unused
/// bytes. What it reads depends on `data` alone, and where `data` begins with what fields are
/// written as, it is those fields.
#[verifier::external_body]
pub(crate) fn take_slice_fields(data: &[u8]) -> (r: Option<(SliceFields, Vec<u8>)>)
    ensures
        match r {
            Some(p) => postcard_slice_fields(data@) == Some((fields_view(p.0), p.1@)),
            None => postcard_slice_fields(data@) is None,
        },
        forall|f: SliceFieldsView, rest: Seq<u8>|
            data@ == #[trigger] (slice_wire(f) + rest) ==> r is Some && fields_view((r->0).0) == f
                && (r->0).1@ == rest,
{
    match postcard::take_from_bytes::<SliceFields>(data) {
        Ok((fields, rest)) => Some((fields, rest.to_vec())),
        Err(_) => None,
    }
}

/// The trace with the given fields.
pub open spec fn trace_of(f: TraceFields) -> FrameTrace {
    FrameTrace {
        capture_us: f.0,
        encode_us: f.1,
        serialize_us: f.2,
        receive_us: f.3,
        reassembled_us: f.4,
        jitter_out_us: f.5,
        decoder_submit_us: f.6,
        decode_us: f.7,
        present_us: f.8,
        network_ready_us: f.9,
        hol_released_us: f.10,
        collecting_done_us: f.11,
        fec_submitted_us: f.12,
        fec_done_us: f.13,
    }
}

/// The unit type of variant `tag`. Variant 6 has one byte of its own behind the number.
pub open spec fn nalu_type_of(tag: u32, rest: Seq<u8>) -> Option<NaluType> {
    if tag == 0 {
        Some(NaluType::VideoParamSet)
    } else if tag == 1 {
        Some(NaluType::SeqParamSet)
    } else if tag == 2 {
        Some(NaluType::PicParamSet)
    } else if tag == 3 {
        Some(NaluType::Sei)
    } else if tag == 4 {
        Some(NaluType::SliceIdr)
    } else if tag == 5 {
        Some(NaluType::SliceTrailing)
    } else if tag == 6 && rest.len() > 0 {
        Some(NaluType::Other(rest[0]))
    } else {
        None
    }
}

/// The slice with the given fields.
pub open spec fn slice_of(f: SliceFieldsView, rest: Seq<u8>) -> Option<VideoSliceModel> {
    match nalu_type_of(f.7, rest) {
        Some(nal_type) => Some(
            VideoSliceModel {
                frame_id: f.0,
                slice_idx: f.1,
                total_slices: f.2,
                is_key: f.3,
                is_last: f.4,
                payload: f.5,
                trace: match f.6 {
                    Some(t) => Some(trace_of(t)),
                    None => None,
                },
                nal_type,
            },
        ),
        None => None,
    }
}

/// The slice that `bytes` begin with.
pub open spec fn slice_in(bytes: Seq<u8>) -> Option<VideoSliceModel> {
    match postcard_slice_fields(bytes) {
        Some(p) => slice_of(p.0, p.1),
        None => None,
    }
}

/// Makes a slice of its fields and the bytes behind them; `None` when the number of the
/// unit type is none or its own byte is missing.
pub fn slice_from_fields(f: SliceFields, rest: &[u8]) -> (r: Option<VideoSlice>)
    ensures
        match r {
            Some(v) => slice_of(fields_view(f), rest@) == Some(v@),
            None => slice_of(fields_view(f), rest@) is None,
        },
{
    let nal_type: NaluType = match f.7 {
        0 => NaluType::VideoParamSet,
        1 => NaluType::SeqParamSet,
        2 => NaluType::PicParamSet,
        3 => NaluType::Sei,
        4 => NaluType::SliceIdr,
        5 => NaluType::SliceTrailing,
        6 => {
            if rest.len() == 0 {
                return None;
            }
            NaluType::Other(rest[0])
        },
        _ => {
            return None;
        },
    };
    let trace: Option<FrameTrace> = match f.6 {
        Some(t) => Some(
            FrameTrace {
                capture_us: t.0,
                encode_us: t.1,
                serialize_us: t.2,
                receive_us: t.3,
                reassembled_us: t.4,
                jitter_out_us: t.5,
                decoder_submit_us: t.6,
                decode_us: t.7,
                present_us: t.8,
                network_ready_us: t.9,
                hol_released_us: t.10,
                collecting_done_us: t.11,
                fec_submitted_us: t.12,
                fec_done_us: t.13,
            },
        ),
        None => None,
    };
    Some(
        VideoSlice {
            frame_id: f.0,
            slice_idx: f.1,
            total_slices: f.2,
            is_key: f.3,
            is_last: f.4,
            payload: f.5,
            trace,
            nal_type,
        },
    )
}

/// Reads the slice that `data` begins with. Fields that were written are read.
pub fn read_slice(data: &[u8]) -> (r: Option<VideoSlice>)
    ensures
        match r {
            Some(v) => slice_in(data@) == Some(v@),
            None => slice_in(data@) is None,
        },
        forall|f: SliceFieldsView, rest: Seq<u8>|
            data@ == #[trigger] (slice_wire(f) + rest) ==> slice_in(data@) == slice_of(f, rest),
{
    match take_slice_fields(data) {
        Some((fields, rest)) => slice_from_fields(fields, rest.as_slice()),
        None => None,
    }
}

} // verus!
