use bytes::Bytes;
use stream_core::fec::encode::{FecEncoder, LinkQuality};
use stream_core::lazy_fec::frame::FrameBuilder;
use stream_core::lazy_fec::group::GroupBuilder;
use stream_core::lazy_fec::slice::SliceBuilder;
use stream_core::lazy_fec::GroupRecovery;
use stream_core::packet::{DatagramChunk, TYPE_VIDEO};

type Trace = (u64, u64, u64, u64, u64, u64, u64, u64, u64, u64, u64, u64, u64, u64);

fn sent(idx: u8, total: u8, payload: &[u8]) -> Vec<DatagramChunk> {
    let trace: Option<Trace> = Some((1, 0, 0, 0, 0, 0, 0, 0, 0, 0, 0, 0, 0, 0));
    let fields = (7u64, idx, total, false, idx + 1 == total, payload.to_vec(), trace, 5u32);
    let data = postcard::to_allocvec(&fields).unwrap();
    let (enc, groups) = FecEncoder::encode(7, idx, total, &data, 10, 2, LinkQuality::Excellent);
    let size = data.len().min(10);
    enc.chunks_meta
        .iter()
        .map(|m| DatagramChunk {
            frame_id: 7,
            slice_idx: idx,
            total_slices: total,
            shard_idx: m.shard_idx,
            k: m.k,
            m: m.m,
            payload_len: m.payload_len,
            packet_type: TYPE_VIDEO,
            flags: 2,
            group_idx: m.group_idx,
            total_groups: groups,
            data: enc.all_shards_data.slice(m.offset..m.offset + size),
        })
        .collect()
}

#[test]
fn short_group_is_stalled_at_once() {
    let mut g = GroupBuilder::new(2, 1);
    assert_eq!(g.insert(0, Bytes::from(vec![1, 2]), 2, 50), (false, true));
    assert!(!g.is_ready());
    assert_eq!(g.insert(0, Bytes::from(vec![1, 2]), 2, 60), (false, false));
    assert_eq!(g.received_mask(), 1);
    assert_eq!(g.insert(1, Bytes::from(vec![3, 4]), 1, 70), (false, false));
    assert!(g.is_ready());
    assert_eq!(g.data_received_count(), 2);
    assert_eq!(g.get_data(), Some(vec![1, 2, 3]));
    assert_eq!(g.insert(9, Bytes::from(vec![3, 4]), 1, 70), (false, false));
    g.refresh_state(80);
    assert_eq!(g.data_received_count(), 2);
}

#[test]
fn slice_tells_how_it_was_recovered() {
    let chunks = sent(0, 1, b"a payload");
    let k = chunks[0].k as usize;
    let mut s = SliceBuilder::new(0);
    for c in &chunks[..k - 1] {
        assert_eq!(s.insert(c, 5).0, None);
    }
    assert!(s.snapshot_for_fec().is_some());
    let (recovery, awaited, _) = s.insert(&chunks[k], 6);
    assert_eq!(recovery, Some(GroupRecovery::Fec { missing_data_shards: 1 }));
    assert!(!awaited);
    assert!(s.is_ready());
    assert_eq!(s.group_received_mask(0), (1 << (k - 1)) - 1 | (1 << k));
    assert_eq!(s.group_received_mask(3), 0);
}

#[test]
fn slices_leave_in_order() {
    let mut f = FrameBuilder::new(2, false, 100);
    for c in sent(1, 2, b"second") {
        f.insert_chunk(&c, 200);
    }
    assert!(f.take_packets().is_none());
    let first = sent(0, 2, b"first");
    let k = first[0].k as usize;
    for c in &first[..k] {
        f.insert_chunk(c, 300);
    }
    assert!(f.is_complete());
    let packets = f.take_packets().unwrap();
    assert_eq!(packets.len(), 2);
    assert_eq!(packets[0].payload, b"first");
    assert_eq!(packets[1].payload, b"second");
    let t = packets[0].trace.unwrap();
    assert_eq!((t.receive_us, t.reassembled_us), (100, 300));
}

#[test]
fn reconstruction_is_handed_out() {
    let mut f = FrameBuilder::new(1, false, 0);
    let chunks = sent(0, 1, b"some payload");
    let k = chunks[0].k as usize;
    let mut task = None;
    for c in chunks[1..k + 1].iter() {
        let (_, t, _, _) = f.insert_chunk(c, 0);
        task = t;
    }
    let task = task.unwrap();
    assert_eq!((task.frame_id, task.slice_idx, task.k as usize), (7, 0, k));
    let mut whole = task;
    whole.payload_lens[0] = 10;
    let data = whole.run().data.unwrap();
    assert!(f.apply_decode_result(0, &data, 9));
    assert_eq!(f.take_packets().unwrap()[0].payload, b"some payload");
}

#[test]
fn stalled_group_is_found() {
    let mut f = FrameBuilder::new(1, false, 1_000);
    let chunks = sent(0, 1, b"some payload");
    let (_, _, _, stalled) = f.insert_chunk(&chunks[0], 1_000);
    assert_eq!(stalled, Some((0, 0)));
    assert_eq!(f.find_nack_candidate(5_999), None);
    assert_eq!(f.find_nack_candidate(6_000), Some((0, 0, 1)));
    assert_eq!(f.find_nack_candidate(13_999), None);
    let (_, _, awaited, _) = f.insert_chunk(&chunks[1], 13_999);
    assert!(awaited);
    assert_eq!(f.find_nack_candidate(14_000), Some((0, 0, 3)));
}

#[test]
fn waste_is_counted() {
    let mut f = FrameBuilder::new(1, false, 0);
    let chunks = sent(0, 1, b"some payload");
    f.insert_chunk(&chunks[0], 0);
    let (groups, bytes, lost) = f.count_wasted();
    assert_eq!((groups, bytes), (1, 10));
    assert_eq!(lost, chunks[0].k as u64 + chunks[0].m as u64 - 1);
    let (none, _, _, _) = f.insert_chunk(&DatagramChunk { slice_idx: 3, ..DatagramChunk::default() }, 0);
    assert!(none.is_empty());
}
