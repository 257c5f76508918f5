use stream_core::clock::{Clock, FrameStep, Side, SyncStep};
use stream_core::packet::FrameTrace;
use stream_core::time::reading_us;

#[test]
fn first_measurement_is_taken_as_it_is() {
    let mut c = Clock::new();
    assert_eq!(c.get_offset(), 0);
    assert_eq!(c.sync(10_500, 1_000, 1_000), SyncStep::Taken);
    assert_eq!(c.get_offset(), 9_000);
}

#[test]
fn later_measurements_are_smoothed() {
    let mut c = Clock::new();
    c.sync(1_000, 0, 0);
    assert_eq!(
        c.sync(3_000, 0, 200),
        SyncStep::Smooth { raw_offset_us: 2_900, settled: false }
    );
    assert_eq!(c.get_offset(), 1_000);
    for _ in 0..48 {
        c.sync(3_000, 0, 0);
    }
    assert_eq!(
        c.sync(3_000, 0, 0),
        SyncStep::Smooth { raw_offset_us: 3_000, settled: true }
    );
}

#[test]
fn conversions_undo_each_other() {
    let mut c = Clock::new();
    c.set_offset(-250);
    assert_eq!(c.client_to_server(1_000), 750);
    assert_eq!(c.server_to_client(750), 1_000);
}

#[test]
fn symmetric_measurement_is_exact() {
    let mut c = Clock::new();
    let offset: u64 = 123_456;
    let sent: u64 = 5_000;
    let one_way: u64 = 40;
    c.sync(sent + one_way + offset, sent, 2 * one_way);
    assert_eq!(c.get_offset(), offset as i64);
}

#[test]
fn remote_time_is_local_time_with_the_offset() {
    let mut c = Clock::new();
    c.set_offset(100);
    assert_eq!(c.remote_at(5), 105);
    c.set_offset(-10);
    assert_eq!(c.remote_at(5), u64::MAX - 4);
}

#[test]
fn clock_runs_from_zero() {
    let start = std::time::Instant::now();
    let c = Clock::new();
    let a = c.local_now_us(&start);
    assert!(a < 10_000_000);
    assert!(c.local_now_us(&start) >= a);
    assert!(c.remote_now_us(&start) >= a);
}

#[test]
fn remote_offset_is_taken_over() {
    let mut c = Clock::default();
    c.apply_remote_offset(700);
    assert_eq!(c.get_offset(), 700);
    assert_eq!(
        c.sync(50, 0, 0),
        SyncStep::Smooth { raw_offset_us: 50, settled: false }
    );
}

#[test]
fn stamps_are_read_by_the_local_clock() {
    let mut c = Clock::new();
    c.set_offset(1_000);
    let t = FrameTrace {
        capture_us: 5_000,
        encode_us: 6_000,
        serialize_us: 7_000,
        receive_us: 8_000,
        decode_us: 9_000,
        ..FrameTrace::default()
    };
    let sent = t.get_local(FrameStep::Capture, &c, Side::Receiver);
    let got = t.get_local(FrameStep::Receive, &c, Side::Receiver);
    assert_eq!(sent, 4_000);
    assert_eq!(got, 8_000);
    let span = t.get_local(FrameStep::Serialize, &c, Side::Receiver) - sent;
    let other = t.get_local(FrameStep::Serialize, &c, Side::Sender)
        - t.get_local(FrameStep::Capture, &c, Side::Sender);
    assert_eq!(span, 2_000);
    assert_eq!(other, span);
}

#[test]
fn clock_readings_wrap() {
    assert_eq!(reading_us(Some(1_700_000_000_000_000)), 1_700_000_000_000_000);
    assert_eq!(reading_us(Some(u64::MAX as u128)), u64::MAX);
    assert_eq!(reading_us(Some(u64::MAX as u128 + 6)), 5);
    assert_eq!(reading_us(None), 0);
}

#[test]
fn clocks_share_a_time_line() {
    let start = std::time::Instant::now();
    let a = Clock::new();
    let first = a.local_now_us(&start);
    let b = Clock::new();
    let second = b.local_now_us(&start);
    let third = a.local_now_us(&start);
    assert!(first <= second && second <= third);
}
