use stream_core::hevc::state::HevcState;
use stream_core::packet::FrameTrace;
use stream_core::receiver::decoder::{
    drain_step, excess_samples, latency_us, plane_sizes, presented, show_decision,
    submit_decision, BackendError, Concealer, FrameRate, OutputSeen, PendingTraces, ShowDecision,
    SliceCollector, SubmitDecision,
};

fn received(us: u64) -> Option<FrameTrace> {
    Some(FrameTrace { receive_us: us, ..FrameTrace::default() })
}

#[test]
fn errors_have_words() {
    assert_eq!(BackendError::NotInitialized.message(), "Backend not initialized");
    assert_eq!(BackendError::DecodeError("x".to_string()).message(), "Decode error: x");
    assert_eq!(BackendError::ConfigError("y".to_string()).message(), "Config error: y");
    assert_eq!(
        BackendError::BufferFull.message(),
        "Decoder input buffer full — frame dropped"
    );
}

#[test]
fn planes_take_their_room() {
    assert_eq!(plane_sizes(64, 64, 11), (704, 352));
}

#[test]
fn slices_are_collected() {
    let mut c = SliceCollector::new();
    assert!(c.push_encoded(b"ab", received(1), false).is_none());
    assert!(c.push_encoded(b"c", None, false).is_none());
    let (bytes, trace) = c.push_encoded(b"de", None, true).unwrap();
    assert_eq!(bytes.as_ref(), b"abcde");
    assert_eq!(trace.unwrap().receive_us, 1);
    let (next, none) = c.push_encoded(b"f", None, true).unwrap();
    assert_eq!(next.as_ref(), b"f");
    assert!(none.is_none());
}

#[test]
fn collected_slices_can_be_thrown_away() {
    let mut c = SliceCollector::new();
    c.push_encoded(b"ab", received(1), false);
    c.clear_buffer();
    let (bytes, trace) = c.push_encoded(b"z", None, true).unwrap();
    assert_eq!(bytes.as_ref(), b"z");
    assert!(trace.is_none());
}

#[test]
fn traces_go_with_their_pictures() {
    let mut p = PendingTraces::new();
    p.submitted(10, 7, received(3));
    let (id, trace) = p.decoded(10, 99);
    assert_eq!(id, 7);
    assert_eq!((trace.receive_us, trace.decode_us), (3, 99));
    let (unknown, empty) = p.decoded(10, 100);
    assert_eq!(unknown, 0);
    assert_eq!((empty.receive_us, empty.decode_us), (0, 100));
}

#[test]
fn old_traces_are_forgotten() {
    let mut p = PendingTraces::new();
    p.submitted(1_000, 1, None);
    p.submitted(2_000, 2, None);
    p.submitted(2_002_000, 3, None);
    assert_eq!(p.decoded(1_000, 0).0, 0);
    assert_eq!(p.decoded(2_000, 0).0, 2);
    assert_eq!(p.decoded(2_002_000, 0).0, 3);
}

#[test]
fn old_frames_do_not_reach_the_decoder() {
    assert_eq!(submit_decision(false, received(0), 0), SubmitDecision::Wait);
    assert_eq!(submit_decision(true, None, 9_000_000), SubmitDecision::Submit);
    assert_eq!(submit_decision(true, received(0), 160_000), SubmitDecision::Submit);
    assert_eq!(
        submit_decision(true, received(0), 160_001),
        SubmitDecision::Drop { age_us: 160_001 }
    );
    assert_eq!(
        submit_decision(true, received(0), 500_001),
        SubmitDecision::Flush { age_us: 500_001 }
    );
    assert_eq!(submit_decision(true, received(9), 3), SubmitDecision::Submit);
}

#[test]
fn old_pictures_are_not_shown() {
    let t = FrameTrace { decode_us: 1_000, ..FrameTrace::default() };
    assert_eq!(show_decision(Some(t), 221_000), ShowDecision::Show);
    assert_eq!(show_decision(Some(t), 221_001), ShowDecision::Drop { age_us: Some(220_001) });
    assert_eq!(show_decision(None, 0), ShowDecision::Drop { age_us: None });
}

#[test]
fn frames_are_counted_over_a_second() {
    let mut r = FrameRate::new(0);
    assert_eq!(r.tick(500_000), None);
    assert_eq!(r.tick(1_250_000), Some((2, 1_250_000)));
    assert_eq!(r, FrameRate { count: 0, since_us: 1_250_000 });
}

#[test]
fn draining_stops() {
    assert_eq!(drain_step(0, OutputSeen::Pending), None);
    assert_eq!(drain_step(0, OutputSeen::Failed), None);
    assert_eq!(drain_step(4, OutputSeen::Passed), Some(4));
    assert_eq!(drain_step(4, OutputSeen::Picture { sent: true }), Some(5));
    assert_eq!(drain_step(4, OutputSeen::Picture { sent: false }), None);
    assert_eq!(drain_step(31, OutputSeen::Picture { sent: true }), None);
}

#[test]
fn sound_does_not_pile_up() {
    assert_eq!(excess_samples(19_200), 0);
    assert_eq!(excess_samples(20_000), 800);
}

#[test]
fn latency_is_by_the_local_clock() {
    assert_eq!(latency_us(50_000, 130_000, 100_000), 20_000);
    assert_eq!(latency_us(0, 0, i64::MIN + 1), -i64::MAX);
}

#[test]
fn shown_frames_are_stamped() {
    let t = FrameTrace { capture_us: 1, ..FrameTrace::default() };
    assert_eq!(presented(t, 44).unwrap().present_us, 44);
    assert!(presented(FrameTrace::default(), 44).is_none());
}

#[test]
fn made_up_frame_counts_as_shown() {
    let mut c = Concealer { poc_lsb: 255, state: HevcState::new(8), template: None };
    assert!(c.skip_frame().is_none());
    c.skip_frame_taken();
    assert_eq!(c.poc_lsb, 0);
    assert_eq!(c.state.dpb.len(), 1);
    assert!(c.state.dpb[0].is_reference && c.state.dpb[0].output_marked);
}
