use bytes::Bytes;
use stream_core::control::{ControlPacket, NackEntry};
use stream_core::fec::assembler::FrameAssembler;
use stream_core::fec::assembly_log::{
    frame_state_label, group_state_label, slice_state_label, snap_group, AssemblyDiag, FrameSnap,
    GroupSnap, SliceSnap,
};
use stream_core::fec::encode::{FecEncoder, LinkQuality};
use stream_core::fec::frame_builder::{FrameBuilder, FrameState};
use stream_core::fec::group_builder::GroupState;
use stream_core::fec::slice_builder::SliceState;
use stream_core::fec::stats::RecoveryStats;
use stream_core::fec::GroupRecovery;
use stream_core::packet::{DatagramChunk, TYPE_VIDEO};

type Trace = (u64, u64, u64, u64, u64, u64, u64, u64, u64, u64, u64, u64, u64, u64);

fn sent(frame_id: u64, idx: u8, total: u8, payload: &[u8]) -> Vec<DatagramChunk> {
    let trace: Option<Trace> = Some((1, 0, 0, 0, 0, 0, 0, 0, 0, 0, 0, 0, 0, 0));
    let fields = (frame_id, idx, total, true, idx + 1 == total, payload.to_vec(), trace, 4u32);
    let data = postcard::to_allocvec(&fields).unwrap();
    let (enc, groups) = FecEncoder::encode(frame_id, idx, total, &data, 10, 2, LinkQuality::Excellent);
    let size = data.len().min(10);
    enc.chunks_meta
        .iter()
        .map(|m| DatagramChunk {
            frame_id,
            slice_idx: idx,
            total_slices: total,
            shard_idx: m.shard_idx,
            k: m.k,
            m: m.m,
            payload_len: m.payload_len,
            packet_type: TYPE_VIDEO,
            flags: 3,
            group_idx: m.group_idx,
            total_groups: groups,
            data: enc.all_shards_data.slice(m.offset..m.offset + size),
        })
        .collect()
}

fn data_of(chunks: &[DatagramChunk]) -> Vec<&DatagramChunk> {
    chunks.iter().filter(|c| c.shard_idx < c.k).collect()
}

#[test]
fn frames_leave_in_order() {
    let mut a = FrameAssembler::new();
    let first = sent(10, 0, 1, b"first");
    let second = sent(11, 0, 1, b"second");
    let mut out = vec![];
    let d1 = data_of(&first);
    out.extend(a.insert_at(d1[0], 100, 100).0);
    for c in data_of(&second) {
        out.extend(a.insert_at(c, 110, 110).0);
    }
    assert!(out.is_empty());
    for c in &d1[1..] {
        out.extend(a.insert_at(c, 120, 120).0);
    }
    let ids: Vec<u64> = out.iter().map(|p| p.frame_id).collect();
    assert_eq!(ids, vec![10, 11]);
    assert_eq!(out[0].payload, b"first");
    let t = out[0].trace.unwrap();
    assert_eq!((t.receive_us, t.hol_released_us), (100, 120));
    assert_eq!(a.head(), 12);
    assert_eq!(a.stats().frames_emitted, 2);
}

#[test]
fn late_chunks_only_count() {
    let mut a = FrameAssembler::new();
    let chunks = sent(10, 0, 1, b"first");
    for c in data_of(&chunks) {
        a.insert_at(c, 100, 100);
    }
    let (packets, nacks, report) = a.insert_at(&chunks[0], 200, 200);
    assert!(packets.is_empty() && nacks.is_empty() && report.is_none());
    assert_eq!(a.stats().zombie_chunks, 1);
}

#[test]
fn stuck_frame_is_passed_over() {
    let mut a = FrameAssembler::new();
    let first = sent(10, 0, 1, b"first");
    a.insert_at(&first[0], 100, 100);
    let second = sent(11, 0, 1, b"second");
    for c in data_of(&second) {
        a.insert_at(c, 200, 200);
    }
    assert!(a.poll_at(150_000).0.is_empty());
    let (packets, _) = a.poll_at(200_000);
    let ids: Vec<u64> = packets.iter().map(|p| p.frame_id).collect();
    assert_eq!(ids, vec![11]);
    assert_eq!(a.head(), 12);
    assert_eq!(a.stats().frames_lost_timeout, 1);
    assert!(a.poll_at(400_000).0.is_empty());
    assert_eq!(a.stats().frames_lost_timeout, 2);
    assert_eq!(a.head(), 13);
}

#[test]
fn room_is_told() {
    let a = FrameAssembler::new();
    assert!(a.has_room(5));
    assert!(!a.has_room(u64::MAX));
    assert!(a.window_dump_due());
}

#[test]
fn clocked_calls_work() {
    let mut a = FrameAssembler::new();
    let chunks = sent(1, 0, 1, b"x");
    let mut n = 0;
    for c in data_of(&chunks) {
        n += a.insert(c, 5).0.len();
    }
    assert_eq!(n, 1);
    assert!(a.poll().0.is_empty());
}

#[test]
fn reconstruction_goes_through_the_pool() {
    let mut a = FrameAssembler::new();
    let chunks = sent(1, 0, 1, b"some payload of a slice");
    let k = chunks[0].k as usize;
    for c in chunks[1..k + 1].iter() {
        a.insert_at(c, 100, 100);
    }
    let tasks = a.take_tasks();
    assert_eq!(tasks.len(), 1);
    assert_eq!((tasks[0].frame_id, tasks[0].slice_idx), (1, 0));
    a.complete(tasks[0].run());
    let (packets, _) = a.poll_at(200);
    assert_eq!(packets.len(), 1);
    assert_eq!(packets[0].payload, b"some payload of a slice");
    assert!(a.take_tasks().is_empty());
    assert_eq!(a.stats().fec_groups, 1);
}

#[test]
fn every_lost_shard_is_recovered() {
    let payload: Vec<u8> = (0..200u8).collect();
    let chunks = sent(7, 0, 1, &payload);
    let groups = chunks.iter().map(|c| c.group_idx).max().unwrap() + 1;
    assert!(groups > 1);
    for lost in 0..chunks.len() {
        let mut a = FrameAssembler::new();
        let mut out = vec![];
        for (i, c) in chunks.iter().enumerate() {
            if i != lost {
                out.extend(a.insert_at(c, 100, 100).0);
                for task in a.take_tasks() {
                    a.complete(task.run());
                }
            }
        }
        out.extend(a.poll_at(200).0);
        assert_eq!(out.len(), 1);
        assert_eq!(out[0].payload, payload);
    }
}

#[test]
fn snapshots_are_taken_on_request() {
    let mut a = FrameAssembler::new();
    a.set_debug(true);
    let chunks = sent(3, 0, 1, b"snapshots");
    a.insert_at(&chunks[0], 100, 150);
    let rows = a.dump_diagnostics(160);
    assert_eq!(rows.len(), 1);
    assert_eq!(rows[0].frame_id, 3);
    assert_eq!(a.diag().shard_count, 1);
}

#[test]
fn missing_shards_are_asked_for_in_batches() {
    let mut a = FrameAssembler::new();
    let target = sent(5, 0, 2, b"this slice stays incomplete");
    a.insert_at(&target[0], 1_000, 1_000);
    let other = sent(5, 1, 2, b"another slice with quite a few shards in it, to pass the time");
    for i in 0..60 {
        a.insert_at(&other[i % 2], 1_100, 1_100);
    }
    a.insert_at(&target[0], 1_200, 1_200);
    let (_, nacks, _) = a.insert_at(&target[0], 7_000, 7_000);
    let (_, again) = a.poll_at(7_100);
    let all: Vec<&ControlPacket> = nacks.iter().chain(again.iter()).collect();
    let mut entries: Vec<NackEntry> = vec![];
    for n in all {
        if let ControlPacket::NackBatch { frame_id, entries: e } = n {
            assert_eq!(*frame_id, 5);
            entries.extend(e.iter().copied());
        }
    }
    assert!(entries.iter().any(|e| e.slice_idx == 0 && e.group_idx == 0 && e.received_mask == 1));
    assert!(a.stats().nacks_sent >= 1);
}

#[test]
fn frame_builder_gives_partial_packets() {
    let mut f = FrameBuilder::new(2, true, 50);
    for c in data_of(&sent(4, 0, 2, b"only this")) {
        f.insert_chunk(c, 1, 60);
    }
    assert!(!f.is_complete());
    assert_eq!(f.state(), FrameState::Receiving);
    assert!(f.take_packets().is_none());
    assert_eq!(f.count_wasted(), (0, 0, 0));
    let part = f.take_partial_packets();
    assert!(part.len() >= 1);
    assert_eq!(part[0].payload, b"only this");
    assert_eq!(f.state(), FrameState::Abandoned);
}

#[test]
fn stats_are_counted() {
    let mut s = RecoveryStats::default();
    let data = DatagramChunk { shard_idx: 0, k: 1, m: 1, payload_len: 10, ..DatagramChunk::default() };
    let parity = DatagramChunk { shard_idx: 1, ..DatagramChunk { k: 1, m: 1, payload_len: 7, ..DatagramChunk::default() } };
    s.note_chunk(&data, true, false);
    s.note_chunk(&parity, false, false);
    s.note_chunk(&parity, false, true);
    assert_eq!((s.rx_bytes, s.rx_chunks, s.rx_data_chunks, s.rx_parity_chunks), (24, 2, 1, 1));
    assert_eq!((s.zombie_chunks, s.nack_recovered_chunks), (1, 1));
    s.note_frame_emitted(3);
    s.note_nack();
    s.note_frame_lost_evicted();
    s.note_frame_lost_timeout();
    s.note_frame_lost_out_of_window();
    s.note_partial_slicing();
    s.note_group_recovery(GroupRecovery::Direct);
    s.note_group_recovery(GroupRecovery::Fec { missing_data_shards: 2, via_parity: true });
    s.note_wasted(1, 100, 4);
    assert_eq!((s.frames_emitted, s.video_packets_emitted, s.hol_skips), (1, 3, 3));
    assert_eq!((s.direct_groups, s.fec_groups, s.fec_missing_data_shards), (1, 1, 2));
    assert_eq!((s.fec_failed_groups, s.wasted_payload_bytes, s.total_lost_chunks), (1, 100, 6));
    assert!(s.has_room(100));
    assert!(s.maybe_log(1_000, 500).is_none());
    assert_eq!(s.window_start_us, 1_000);
    assert!(s.maybe_log(1_499, 500).is_none());
    let r = s.maybe_log(1_500, 500).unwrap();
    assert_eq!((r.elapsed_us, r.rx_bytes, r.lost, r.hol), (500, 24, 9, 3));
    assert_eq!((r.nack_sent, r.direct, r.recovered, r.failed), (1, 1, 1, 1));
    assert_eq!((s.rx_chunks, s.window_start_us), (0, 1_500));
}

fn group(received: u8) -> GroupSnap {
    snap_group(0, 4, 2, received, received.min(4), 0b10011, "Collecting", 7)
}

#[test]
fn snapshots_tell_what_is_missing() {
    let g = group(3);
    assert_eq!((g.data_missing(), g.parity_received()), (1, 0));
    assert!(!g.can_recover() && group(4).can_recover());
    assert_eq!(g.shard_map(), "D:██░░  P:█░");
    let wide = snap_group(0, 6, 2, 4, 3, 0x53, "Collecting", 0);
    assert_eq!(wide.shard_map(), "D:██░░█░  P:█░");
    let s = SliceSnap { slice_idx: 0, total_groups: 2, ready_groups: 1, state_label: "x", groups: vec![g, group(4)] };
    assert_eq!((s.total_received(), s.total_expected()), (7, 12));
    assert!(s.has_unrecoverable_group());
}

fn frame(frame_id: u64) -> FrameSnap {
    FrameSnap {
        frame_id,
        total_slices: 1,
        emitted_slices: 0,
        next_emit_idx: 0,
        state_label: "Receiving",
        first_us: 100,
        age_us: 900,
        is_hol: false,
        slices: vec![SliceSnap { slice_idx: 0, total_groups: 1, ready_groups: 0, state_label: "x", groups: vec![group(3)] }],
        collecting_done_us: 300,
        fec_submitted_us: 400,
        fec_done_us: 600,
        network_ready_us: Some(700),
    }
}

#[test]
fn window_keeps_the_last_frames() {
    let mut d = AssemblyDiag::new();
    for id in 0..11u64 {
        d.upsert_frame(frame(100 - id));
    }
    let rows = d.dump_window(Some(95));
    let ids: Vec<u64> = rows.iter().map(|r| r.frame_id).collect();
    assert_eq!(ids, (90..100).collect::<Vec<u64>>());
    assert!(rows.iter().all(|r| r.is_hol == (r.frame_id == 95)));
    let t = rows[0].timings.unwrap();
    assert_eq!((t.collect_time, t.fec_submit_lag, t.fec_duration, t.ready_lag), (200, 100, 200, 100));
    d.get_mut(95).unwrap().age_us = 1;
    assert_eq!(d.window[&95].age_us, 1);
    assert!(d.get_mut(100).is_none());
    d.inc_shard_count();
    assert_eq!(d.shard_count, 1);
    assert_eq!((frame(1).total_received_shards(), frame(1).total_expected_shards()), (3, 6));
}

#[test]
fn stages_are_timed() {
    let d = AssemblyDiag::default();
    let t = d.on_frame_complete(100, 300, 400, 600, 700, 1_000);
    assert_eq!((t.total_age, t.collect_time, t.ready_lag), (900, 200, 100));
    let none = d.on_frame_complete(100, 300, 0, 0, 700, 1_000);
    assert_eq!(none.ready_lag, 400);
    assert_eq!(d.on_nack_sent(0b101, 2, 1), "█░█");
}

#[test]
fn states_have_labels() {
    assert_eq!(group_state_label(&GroupState::Collecting), "Collecting");
    assert_eq!(group_state_label(&GroupState::Abandoned), "Abandoned");
    assert_eq!(slice_state_label(&SliceState::Emitted), "Emitted");
    assert_eq!(frame_state_label(&FrameState::Complete), "Complete");
}

#[test]
fn parity_alone_does_not_complete_a_group() {
    let mut g = stream_core::fec::group_builder::GroupBuilder::new(1, 2);
    g.insert(1, Bytes::from(vec![4]), 1, 0, 0);
    g.insert(2, Bytes::from(vec![4]), 1, 0, 0);
    assert_eq!(g.is_ready(), (false, false));
    g.insert(0, Bytes::from(vec![4]), 1, 0, 0);
    assert_eq!(g.is_ready(), (true, false));
}
