use stream_core::control::ControlPacket;
use stream_core::fec::slice_wire::read_slice;
use stream_core::packet::{DatagramChunk, NaluType};
use stream_core::slice_fec::assembler::FrameAssembler;
use stream_core::slice_fec::encode::FecEncoder;
use stream_core::slice_fec::frame::FrameBuilder;
use stream_core::slice_fec::slice::SliceBuilder;

type Trace = (u64, u64, u64, u64, u64, u64, u64, u64, u64, u64, u64, u64, u64, u64);

fn slice_bytes(frame_id: u64, idx: u8, total: u8, payload: &[u8]) -> Vec<u8> {
    let trace: Option<Trace> =
        if idx == 0 { Some((1, 0, 0, 0, 0, 0, 0, 0, 0, 0, 0, 0, 0, 0)) } else { None };
    let fields = (frame_id, idx, total, true, idx + 1 == total, payload.to_vec(), trace, 5u32);
    postcard::to_allocvec(&fields).unwrap()
}

fn sent(frame_id: u64, idx: u8, total: u8, payload: &[u8]) -> Vec<DatagramChunk> {
    FecEncoder::encode_slice(frame_id, idx, total, &slice_bytes(frame_id, idx, total, payload), 10, 1)
}

#[test]
fn slice_is_cut_evenly() {
    let data: Vec<u8> = (0..23).collect();
    let chunks = FecEncoder::encode_slice(5, 1, 2, &data, 10, 0);
    assert_eq!(chunks.len(), 5);
    assert_eq!((chunks[0].k, chunks[0].m), (3, 2));
    assert_eq!(chunks[0].data.as_ref(), &[0, 1, 2, 3, 4, 5, 6, 7]);
    assert_eq!(chunks[2].data.as_ref(), &[16, 17, 18, 19, 20, 21, 22, 0]);
    assert_eq!(chunks[2].payload_len, 7);
    assert_eq!(chunks[4].payload_len, 8);
    assert_eq!((chunks[4].frame_id, chunks[4].slice_idx, chunks[4].total_slices), (5, 1, 2));
    assert!(FecEncoder::encode_slice(5, 1, 2, &[], 10, 0).is_empty());
    assert!(FecEncoder::encode_slice(5, 1, 2, &data, 0, 0).is_empty());
}

#[test]
fn important_slices_get_more_parity() {
    let data = [1u8; 30];
    assert_eq!(FecEncoder::encode_slice(1, 0, 2, &data, 10, 0)[0].m, 3);
    assert_eq!(FecEncoder::encode_slice(1, 1, 2, &data, 10, 2)[0].m, 3);
    assert_eq!(FecEncoder::encode_slice(1, 1, 2, &data, 10, 0)[0].m, 2);
    assert_eq!(FecEncoder::encode_slice(1, 0, 2, &[1u8; 100], 10, 0)[0].m, 4);
}

#[test]
fn any_enough_shards_recover_the_slice() {
    let data: Vec<u8> = (0..29).collect();
    let chunks = FecEncoder::encode_slice(1, 0, 1, &data, 10, 0);
    assert_eq!((chunks[0].k, chunks[0].m), (3, 3));
    let mut s = SliceBuilder::new(3, 3);
    s.insert(&chunks[4]);
    s.insert(&chunks[4]);
    assert!(!s.is_ready());
    assert!(s.reconstruct().is_none());
    s.insert(&chunks[0]);
    assert_eq!(s.received_mask(), 0b10001);
    s.insert(&chunks[5]);
    assert!(s.is_ready());
    let got = s.reconstruct().unwrap();
    assert_eq!(&got[..29], &data[..]);
    assert!(got[29..].iter().all(|b| *b == 0));
    assert_eq!(s.received_mask(), 0b111111);
}

#[test]
fn frame_is_put_together() {
    let mut f = FrameBuilder::new(2, true, 500);
    for c in sent(9, 1, 2, b"world") {
        assert!(f.insert_chunk(&c, 600).is_none());
    }
    let first = sent(9, 0, 2, b"hello ");
    let k = first[0].k as usize;
    for c in &first[..k - 1] {
        assert!(f.insert_chunk(c, 600).is_none());
    }
    assert!(!f.is_complete());
    let p = f.insert_chunk(&first[k], 700).unwrap();
    assert_eq!(p.payload, b"hello world");
    assert_eq!((p.frame_id, p.is_key), (9, true));
    let t = p.trace.unwrap();
    assert_eq!((t.capture_us, t.receive_us, t.reassembled_us), (1, 500, 700));
    assert!(f.is_complete());
}

#[test]
fn unreadable_slices_make_no_frame() {
    let mut f = FrameBuilder::new(1, false, 0);
    let chunks = FecEncoder::encode_slice(1, 0, 1, &[0x80], 10, 0);
    assert!(f.insert_chunk(&chunks[0], 0).is_none());
    assert!(f.is_complete());
}

#[test]
fn missing_frames_are_asked_for() {
    let mut a = FrameAssembler::new();
    let chunks = sent(3, 0, 1, b"abc");
    let (_, nack) = a.insert_at(&chunks[0], 1_000_000);
    match nack {
        Some(ControlPacket::Nack { frame_id, slice_idx, received_mask, .. }) => {
            assert_eq!((frame_id, slice_idx, received_mask), (0, 0, 0));
        }
        _ => panic!("nothing asked for"),
    }
    let (_, second) = a.insert_at(&chunks[0], 1_000_001);
    assert!(matches!(second, Some(ControlPacket::Nack { frame_id: 1, .. })));
    a.insert_at(&chunks[0], 1_000_002);
    let (_, fourth) = a.insert_at(&chunks[0], 1_000_003);
    assert!(fourth.is_none());
    let (_, again) = a.insert_at(&chunks[0], 1_010_000);
    assert!(matches!(again, Some(ControlPacket::Nack { frame_id: 0, .. })));
}

#[test]
fn short_slices_are_asked_for_with_what_has_come() {
    let mut a = FrameAssembler::new();
    let chunks = sent(0, 0, 1, b"some longer payload");
    a.insert_at(&chunks[1], 1_000_000);
    let next = sent(1, 0, 1, b"x");
    let (_, nack) = a.insert_at(&next[0], 1_000_000);
    match nack {
        Some(ControlPacket::Nack { frame_id, slice_idx, received_mask, .. }) => {
            assert_eq!((frame_id, slice_idx, received_mask), (0, 0, 2));
        }
        _ => panic!("nothing asked for"),
    }
}

#[test]
fn given_up_frames_are_not_asked_for() {
    let mut a = FrameAssembler::new();
    let old = sent(5, 0, 1, b"some longer payload");
    a.insert_at(&old[0], 1_000_000);
    let new = sent(6, 0, 1, b"x");
    let (_, nack) = a.insert_at(&new[0], 1_100_000);
    assert!(nack.is_none());
}

#[test]
fn frame_comes_out_of_the_assembler() {
    let mut a = FrameAssembler::new();
    let chunks = sent(0, 0, 1, b"payload");
    let k = chunks[0].k as usize;
    let mut out = None;
    for c in &chunks[..k] {
        let (p, nack) = a.insert(c);
        assert!(nack.is_none());
        out = p;
    }
    assert_eq!(out.unwrap().payload, b"payload");
}

#[test]
fn frame_comes_out_after_a_failed_recovery() {
    let mut chunks = sent(9, 0, 1, b"hello");
    let k = chunks[0].k as usize;
    chunks[k].data = bytes::Bytes::from(vec![7u8]);
    let mut f = FrameBuilder::new(1, true, 500);
    for c in &chunks[..k - 1] {
        assert!(f.insert_chunk(c, 600).is_none());
    }
    assert!(f.insert_chunk(&chunks[k], 600).is_none());
    assert!(f.is_complete());
    let p = f.insert_chunk(&chunks[k - 1], 700).unwrap();
    assert_eq!(p.payload, b"hello");
    assert!(f.insert_chunk(&chunks[0], 800).is_none());
}

#[test]
fn slice_is_read_from_its_bytes() {
    let raw = [0xac, 0x02, 0, 1, 1, 0, 2, 9, 8, 0, 6, 40, 77];
    let v = read_slice(&raw).unwrap();
    assert_eq!((v.frame_id, v.slice_idx, v.total_slices), (300, 0, 1));
    assert_eq!((v.is_key, v.is_last), (true, false));
    assert_eq!(v.payload, vec![9, 8]);
    assert!(v.trace.is_none());
    assert!(matches!(v.nal_type, NaluType::Other(40)));
    assert!(read_slice(&raw[..11]).is_none());
}
