use stream_core::jitter::audio::{AudioFrame, AudioJitterBuffer};
use stream_core::jitter::av::AvJitterBuffer;
use stream_core::jitter::video::JitterBuffer;
use stream_core::jitter::{INTER_PACKET_GAP_US, JITTER_MAX_FRAMES, JITTER_TARGET_MS};
use stream_core::packet::{FrameTrace, VideoPacket};

fn packet(frame_id: u64, slice_idx: u8, capture_us: Option<u64>) -> VideoPacket {
    VideoPacket {
        frame_id,
        slice_idx,
        trace: capture_us.map(|c| FrameTrace { capture_us: c, ..FrameTrace::default() }),
        ..VideoPacket::default()
    }
}

fn sound(capture_us: u64) -> AudioFrame {
    AudioFrame { capture_us, payload: vec![1] }
}

fn numbers(p: &[VideoPacket]) -> Vec<(u64, u8)> {
    p.iter().map(|x| (x.frame_id, x.slice_idx)).collect()
}

#[test]
fn limits_are_set() {
    assert_eq!((JITTER_TARGET_MS, JITTER_MAX_FRAMES, INTER_PACKET_GAP_US), (10, 64, 50));
}

#[test]
fn slices_leave_when_due_in_display_order() {
    let mut b = JitterBuffer::new(10);
    assert!(b.is_empty());
    b.push_with_release(packet(2, 0, None), 1_000);
    b.push_with_release(packet(1, 1, None), 1_000);
    b.push_with_release(packet(1, 0, None), 5_000);
    assert_eq!(b.next_release_us(), Some(1_000));
    assert!(b.drain_ready_with(999).is_empty());
    assert_eq!(numbers(&b.drain_ready_with(1_050)), vec![(1, 1), (2, 0)]);
    assert_eq!(b.time_to_next_at(4_000), Some(1_000));
    assert_eq!(b.time_to_next_at(6_000), Some(0));
    assert_eq!(numbers(&b.drain_ready_with(5_000)), vec![(1, 0)]);
    assert_eq!(b.time_to_next_at(6_000), None);
    assert!(b.is_empty());
}

#[test]
fn releases_lie_apart() {
    let mut b = JitterBuffer::new(10);
    b.push_with_release(packet(1, 0, None), 100);
    b.push_with_release(packet(1, 1, None), 100);
    assert_eq!(b.drain_ready_with(149).len(), 1);
    assert_eq!(b.drain_ready_with(150).len(), 1);
}

#[test]
fn full_buffer_drops_the_oldest() {
    let mut b = JitterBuffer::new(10);
    for i in 0..65u64 {
        b.push_with_release(packet(100 - i, 0, None), 0);
    }
    let out = b.drain_ready_with(u64::MAX);
    assert_eq!(out.len(), 64);
    assert_eq!(out[0].frame_id, 37);
}

#[test]
fn slice_leaves_once() {
    let mut b = JitterBuffer::new(10);
    b.push_with_release(packet(1, 0, None), 0);
    b.push_with_release(packet(1, 0, None), 0);
    assert_eq!(b.drain_ready().len(), 1);
    assert_eq!(b.drain_ready().len(), 0);
    assert_eq!(b.time_to_next(), None);
}

#[test]
fn sound_leaves_in_order() {
    let mut b = AudioJitterBuffer::new(10);
    b.push_with_release(sound(2), 200);
    b.push_with_release(sound(1), 100);
    b.push_with_release(sound(3), 200);
    assert_eq!(b.next_release_us(), Some(100));
    assert_eq!(b.time_to_next_at(40), Some(60));
    let out: Vec<u64> = b.drain_ready_with(200).iter().map(|f| f.capture_us).collect();
    assert_eq!(out, vec![1, 2, 3]);
    assert_eq!(b.time_to_next(), None);
    assert!(b.drain_ready().is_empty());
}

#[test]
fn picture_and_sound_share_a_timeline() {
    let mut b = AvJitterBuffer::new(10);
    b.push_video(packet(1, 0, Some(1_000)), 50_000);
    b.push_audio(sound(3_000), 50_500);
    assert_eq!(b.time_to_next_us(), Some(60_000));
    let (video, audio) = b.drain_ready_with(61_999);
    assert_eq!((video.len(), audio.len()), (1, 0));
    let (video, audio) = b.drain_ready_with(62_000);
    assert_eq!((video.len(), audio.len()), (0, 1));
    b.push_audio(sound(500), 70_000);
    assert_eq!(b.time_to_next_us(), Some(60_000));
    assert_eq!(b.time_to_next(), Some(0));
    assert_eq!(b.drain_ready().1.len(), 1);
}

#[test]
fn slice_without_trace_is_captured_now() {
    let mut b = AvJitterBuffer::new(1);
    b.push_video(packet(1, 0, None), 7_000);
    assert_eq!(b.time_to_next_us(), Some(8_000));
}

#[test]
fn empty_buffer_waits_for_nothing() {
    let mut b = JitterBuffer::new(10);
    assert!(b.is_empty() && b.time_to_next_at(5).is_none());
    b.push_with_release(packet(1, 0, None), 100);
    b.push_with_release(packet(2, 0, None), 400);
    assert!(!b.is_empty());
    assert_eq!(b.time_to_next_at(40), Some(60));
    assert_eq!(b.drain_ready_with(u64::MAX).len(), 2);
    assert!(b.is_empty() && b.time_to_next_at(5).is_none());
}
