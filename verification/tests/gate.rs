use stream_core::receiver::gate::{RecoveryState, SliceInfo, VideoState};

fn slice(frame_id: u64, slice_idx: u8, is_key: bool, is_last: bool) -> SliceInfo {
    SliceInfo { frame_id, slice_idx, is_key, is_last }
}

#[test]
fn nothing_passes_before_a_key_frame() {
    let mut s = VideoState::new(0);
    let a = s.pass(slice(5, 0, false, true), 10);
    assert!(!a.push && !a.report_loss && a.idr_needed.is_none());
    assert!(s.waiting_for_key);
    let b = s.pass(slice(6, 0, true, true), 20);
    assert!(b.push);
    assert_eq!(b.idr_needed, Some(false));
    assert!(!s.waiting_for_key);
    assert_eq!(s.recovery, RecoveryState::StabilizingAfterIdr { good_frames_left: 4 });
    assert_eq!(s.expected_frame_id, Some(7));
}

#[test]
fn stream_becomes_stable() {
    let mut s = VideoState::new(0);
    for i in 0..5u64 {
        assert!(s.pass(slice(i, 0, i == 0, true), 0).push);
    }
    assert_eq!(s.recovery, RecoveryState::Concealing);
}

#[test]
fn slices_go_in_order() {
    let mut s = VideoState::new(0);
    assert!(s.pass(slice(1, 0, true, false), 0).push);
    assert!(s.pass(slice(1, 2, true, false), 0).push);
    assert!(!s.pass(slice(1, 1, true, false), 0).push);
    assert!(s.pass(slice(1, 3, true, true), 0).push);
    assert!(!s.pass(slice(1, 4, true, true), 0).push);
    assert_eq!(s.expected_frame_id, Some(2));
}

#[test]
fn gap_while_stabilizing_asks_for_a_key_frame() {
    let mut s = VideoState::new(0);
    s.pass(slice(1, 0, true, true), 0);
    let a = s.pass(slice(3, 0, false, true), 60_000);
    assert!(a.report_loss && !a.push);
    assert_eq!(a.idr_needed, Some(true));
    assert!(s.waiting_for_key);
    assert_eq!(s.last_idr_us, 60_000);
}

#[test]
fn requests_are_spaced() {
    let mut s = VideoState::new(100);
    assert!(!s.request_idr(50_099));
    assert!(s.request_idr(50_100));
    assert!(!s.request_idr(60_000));
}

#[test]
fn few_losses_are_concealed_and_many_are_not() {
    let mut s = VideoState::new(0);
    for i in 0..5u64 {
        s.pass(slice(i, 0, i == 0, true), 0);
    }
    let mut next = 5u64;
    for n in 1..=4u32 {
        next += 1;
        let a = s.pass(slice(next, 0, false, true), 1_000_000);
        assert!(a.report_loss && a.clear_buffer && a.push);
        assert_eq!(s.loss_rate(), n);
        next += 1;
    }
    let a = s.pass(slice(next + 1, 0, false, true), 1_000_000);
    assert!(a.report_loss && a.clear_buffer && !a.push);
    assert_eq!(a.idr_needed, Some(true));
    assert_eq!(s.recovery, RecoveryState::WaitingForIdr);
}

#[test]
fn window_forgets() {
    let mut s = VideoState::new(0);
    s.record_loss();
    assert_eq!(s.loss_rate(), 1);
    for _ in 0..26 {
        s.record_success();
    }
    assert_eq!(s.loss_rate(), 0);
    assert_eq!(s.loss_window_pos, 1);
}
