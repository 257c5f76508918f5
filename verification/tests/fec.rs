use bytes::Bytes;
use stream_core::fec::decode::FecDecoder;
use stream_core::fec::decode_task::{ComputePool, DecodeTask};
use stream_core::fec::encode::{interleave, ChunkMeta, FecEncoder, LinkQuality};
use stream_core::fec::group_builder::{GroupBuilder, GroupState};
use stream_core::fec::slice_builder::{SliceBuilder, SliceState};
use stream_core::fec::slice_wire::read_slice;
use stream_core::fec::GroupRecovery;
use stream_core::packet::{DatagramChunk, NaluType, TYPE_VIDEO};

fn data(n: usize) -> Vec<u8> {
    (0..n).map(|i| (i * 7 + 3) as u8).collect()
}

fn chunks(payload: &[u8], max: usize, flags: u8, quality: LinkQuality) -> Vec<DatagramChunk> {
    let (enc, groups) = FecEncoder::encode(1, 0, 1, payload, max, flags, quality);
    enc.chunks_meta
        .iter()
        .map(|m| {
            let size = if m.shard_idx < m.k {
                m.payload_len as usize
            } else {
                m.payload_len as usize
            };
            DatagramChunk {
                frame_id: 1,
                slice_idx: 0,
                total_slices: 1,
                shard_idx: m.shard_idx,
                k: m.k,
                m: m.m,
                payload_len: m.payload_len,
                packet_type: TYPE_VIDEO,
                flags,
                group_idx: m.group_idx,
                total_groups: groups,
                data: enc.all_shards_data.slice(m.offset..m.offset + size),
            }
        })
        .collect()
}

#[test]
fn link_quality_is_judged() {
    assert_eq!(LinkQuality::evaluate(4, true, false, 0), LinkQuality::Excellent);
    assert_eq!(LinkQuality::evaluate(5, true, false, 0), LinkQuality::Normal);
    assert_eq!(LinkQuality::evaluate(51, true, false, 0), LinkQuality::Degraded);
    assert_eq!(LinkQuality::evaluate(1, false, true, 0), LinkQuality::Degraded);
    assert_eq!(LinkQuality::evaluate(1, true, false, 2), LinkQuality::Degraded);
    assert_eq!(LinkQuality::evaluate(1, true, false, 1), LinkQuality::Normal);
}

#[test]
fn parity_follows_the_data() {
    assert_eq!(FecEncoder::calculate_m(16, true, false, LinkQuality::Normal), 4);
    assert_eq!(FecEncoder::calculate_m(16, false, true, LinkQuality::Normal), 2);
    assert_eq!(FecEncoder::calculate_m(16, false, false, LinkQuality::Normal), 2);
    assert_eq!(FecEncoder::calculate_m(16, false, false, LinkQuality::Excellent), 1);
    assert_eq!(FecEncoder::calculate_m(1, true, true, LinkQuality::Normal), 2);
    assert_eq!(FecEncoder::calculate_m(1, false, false, LinkQuality::Excellent), 1);
    assert_eq!(FecEncoder::calculate_m(255, false, false, LinkQuality::Normal), 0);
    assert_eq!(FecEncoder::calculate_m(10, false, false, LinkQuality::Normal), 1);
    assert_eq!(FecEncoder::calculate_m(10, false, false, LinkQuality::Degraded), 2);
    assert_eq!(FecEncoder::calculate_m(16, true, false, LinkQuality::Degraded), 7);
    assert_eq!(FecEncoder::calculate_m(16, false, true, LinkQuality::Degraded), 4);
    assert_eq!(FecEncoder::calculate_m(1, false, false, LinkQuality::Degraded), 1);
}

#[test]
fn nothing_is_cut_out_of_nothing() {
    let (enc, groups) = FecEncoder::encode(4, 0, 1, &[], 100, 0, LinkQuality::Normal);
    assert_eq!(groups, 0);
    assert!(enc.chunks_meta.is_empty() && enc.all_shards_data.is_empty());
    let (none, _) = FecEncoder::encode(4, 0, 1, b"x", 0, 0, LinkQuality::Normal);
    assert!(none.chunks_meta.is_empty());
    assert_eq!(none.frame_id, 4);
}

#[test]
fn slice_is_cut_into_groups() {
    let payload = data(20 * 10 - 3);
    let (enc, groups) = FecEncoder::encode(1, 1, 2, &payload, 10, 0, LinkQuality::Excellent);
    assert_eq!(groups, 2);
    let first: Vec<&ChunkMeta> = enc.chunks_meta.iter().filter(|m| m.group_idx == 0).collect();
    let second: Vec<&ChunkMeta> = enc.chunks_meta.iter().filter(|m| m.group_idx == 1).collect();
    assert_eq!((first[0].k, first[0].m), (16, 1));
    assert_eq!((second[0].k, second[0].m), (4, 1));
    assert_eq!(first.len(), 17);
    assert_eq!(second.len(), 5);
    assert_eq!(second[3].payload_len, 7);
    assert_eq!(second[4].payload_len, 10);
    assert_eq!(&enc.all_shards_data[..160], &payload[..160]);
}

#[test]
fn interleaving_changes_the_order_alone() {
    let payload = data(330);
    let (flat, _) = FecEncoder::encode(1, 1, 2, &payload, 10, 0, LinkQuality::Excellent);
    let n = 3u8;
    let mixed = interleave(&flat.chunks_meta, n);
    assert_eq!(mixed.len(), flat.chunks_meta.len());
    let mut seen: Vec<(u8, u8)> = mixed.iter().map(|m| (m.group_idx, m.shard_idx)).collect();
    assert_eq!(&seen[..4], &[(0, 0), (1, 0), (2, 0), (0, 16)]);
    seen.sort();
    let wanted: Vec<(u8, u8)> =
        flat.chunks_meta.iter().map(|m| (m.group_idx, m.shard_idx)).collect();
    assert_eq!(seen, wanted);
}

#[test]
fn lost_data_shards_are_recovered() {
    let payload = data(95);
    let sent = chunks(&payload, 10, 2, LinkQuality::Normal);
    let (k, m) = (sent[0].k, sent[0].m);
    assert_eq!((k, m), (10, 2));
    let mut shards: Vec<Option<Bytes>> = vec![None; 12];
    let mut lens = vec![0u16; 10];
    for c in &sent {
        let mut full = c.data.to_vec();
        full.resize(10, 0);
        shards[c.shard_idx as usize] = Some(Bytes::from(full));
        if c.shard_idx < k {
            lens[c.shard_idx as usize] = c.payload_len;
        }
    }
    assert_eq!(FecDecoder::decode(k, m, &shards, &lens), Some(payload.clone()));
    shards[2] = None;
    shards[9] = None;
    assert_eq!(FecDecoder::decode(k, m, &shards, &lens), Some(payload));
    shards[0] = None;
    assert_eq!(FecDecoder::decode(k, m, &shards, &lens), None);
}

#[test]
fn uneven_shards_are_not_recovered() {
    let shards = vec![Some(Bytes::from(vec![1, 2])), None, Some(Bytes::from(vec![3]))];
    assert_eq!(FecDecoder::decode(2, 1, &shards, &[2, 2]), None);
    assert_eq!(FecDecoder::decode(2, 2, &shards, &[2, 2]), None);
    assert_eq!(FecDecoder::decode(2, 1, &shards, &[2]), None);
}

#[test]
fn group_stalls_and_wakes() {
    let mut g = GroupBuilder::new(2, 1);
    assert_eq!(g.insert(0, Bytes::from(vec![1]), 1, 100, 10), (false, false));
    assert_eq!(g.state(), GroupState::Collecting);
    assert_eq!(g.insert(0, Bytes::from(vec![1]), 1, 200, 51), (false, true));
    assert_eq!(g.state(), GroupState::Stalled { since_us: 200 });
    assert!(!g.state().needs_nack(5_199));
    assert!(g.state().needs_nack(5_200));
    assert_eq!(g.received_mask(), 1);
    assert_eq!(g.is_ready(), (false, false));
    assert_eq!(g.insert(2, Bytes::from(vec![1]), 1, 300, 52), (false, false));
    assert_eq!(g.state(), GroupState::Collecting);
    assert_eq!(g.is_ready(), (true, true));
    assert_eq!(g.data_received_count(), 1);
    assert!(!g.is_direct());
    assert_eq!(g.insert(1, Bytes::from(vec![9]), 1, 300, 52), (false, false));
    assert!(g.is_direct());
    assert_eq!(g.get_data(), Some(vec![1, 9]));
    assert_eq!(g.as_rs_shards().len(), 3);
    assert_eq!(g.insert(7, Bytes::from(vec![9]), 1, 300, 52), (false, false));
}

#[test]
fn requests_for_a_group_lie_apart() {
    let s = GroupState::Requested { sent_at_us: 1_000 };
    assert!(!s.needs_nack(8_999));
    assert!(s.needs_nack(9_000));
    assert!(!GroupState::Ready.needs_nack(1_000_000));
    assert!(GroupState::Ready.is_terminal() && !s.is_terminal());
}

#[test]
fn slice_becomes_ready() {
    let payload = data(25);
    let sent = chunks(&payload, 10, 0, LinkQuality::Normal);
    let mut s = SliceBuilder::new(sent[0].total_groups);
    let mut last = None;
    for c in sent.iter().filter(|c| c.shard_idx < c.k) {
        let (recovery, awaited, _, _) = s.insert(c, 1, 5);
        assert!(!awaited);
        last = recovery;
    }
    assert_eq!(last, Some(GroupRecovery::Direct));
    assert!(s.is_ready());
    assert_eq!(s.get_data_sync(), Some(payload));
    assert!(s.state() != SliceState::Abandoned);
}

#[test]
fn parity_makes_a_slice_ready() {
    let payload = data(20);
    let sent = chunks(&payload, 10, 0, LinkQuality::Normal);
    assert_eq!((sent[0].k, sent[0].m), (2, 1));
    let mut s = SliceBuilder::new(1);
    s.insert(&sent[1], 1, 5);
    let (recovery, _, _, _) = s.insert(&sent[2], 1, 6);
    assert_eq!(recovery, Some(GroupRecovery::Fec { missing_data_shards: 1, via_parity: true }));
}

#[test]
fn tasks_and_results_pass_through_the_pool() {
    let mut pool = ComputePool::new();
    pool.submit(DecodeTask {
        frame_id: 3,
        slice_idx: 1,
        group_idx: 0,
        k: 1,
        m: 0,
        shards: vec![Some(Bytes::from(vec![5, 6]))],
        payload_lens: vec![2],
    });
    let tasks = pool.take_tasks();
    assert_eq!(tasks.len(), 1);
    assert!(pool.take_tasks().is_empty());
    pool.complete(tasks[0].run());
    let results = pool.drain_results();
    assert_eq!((results[0].frame_id, results[0].slice_idx), (3, 1));
    assert_eq!(results[0].data, Some(vec![5, 6]));
    assert!(pool.drain_results().is_empty());
}

type Trace = (u64, u64, u64, u64, u64, u64, u64, u64, u64, u64, u64, u64, u64, u64);

#[test]
fn slices_are_read() {
    let trace: Option<Trace> = Some((1, 2, 3, 4, 5, 6, 7, 8, 9, 10, 11, 12, 13, 14));
    let fields = (77u64, 1u8, 2u8, true, false, vec![9u8, 8], trace, 4u32);
    let mut bytes = postcard::to_allocvec(&fields).unwrap();
    bytes.extend_from_slice(&[0, 0, 0]);
    let v = read_slice(&bytes).unwrap();
    assert_eq!((v.frame_id, v.slice_idx, v.total_slices), (77, 1, 2));
    assert_eq!((v.is_key, v.is_last), (true, false));
    assert_eq!(v.payload, vec![9, 8]);
    assert_eq!(v.nal_type, NaluType::SliceIdr);
    assert_eq!(v.trace.unwrap().fec_done_us, 14);
    let none: Option<Trace> = None;
    let mut other = postcard::to_allocvec(&(1u64, 0u8, 1u8, false, true, vec![1u8], none, 6u32)).unwrap();
    assert!(read_slice(&other).is_none());
    other.push(41);
    assert_eq!(read_slice(&other).unwrap().nal_type, NaluType::Other(41));
    let bad = postcard::to_allocvec(&(1u64, 0u8, 1u8, false, true, vec![1u8], none, 7u32)).unwrap();
    assert!(read_slice(&bad).is_none());
    assert!(read_slice(&[1]).is_none());
}

#[test]
fn all_unit_types_are_read() {
    let none: Option<Trace> = None;
    let types = [
        NaluType::VideoParamSet,
        NaluType::SeqParamSet,
        NaluType::PicParamSet,
        NaluType::Sei,
        NaluType::SliceIdr,
        NaluType::SliceTrailing,
    ];
    for (i, t) in types.iter().enumerate() {
        let fields = (1u64, 0u8, 1u8, false, true, vec![1u8], none, i as u32);
        let bytes = postcard::to_allocvec(&fields).unwrap();
        assert_eq!(read_slice(&bytes).unwrap().nal_type, *t);
    }
}
