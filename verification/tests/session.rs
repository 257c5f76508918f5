use bytes::Bytes;
use stream_core::control::ControlPacket;
use stream_core::packet::{DatagramChunk, FrameTrace, TYPE_AUDIO, TYPE_CONTROL, TYPE_VIDEO};
use stream_core::receiver::session::{
    classify, control_datagram, frame_message, make_client_identity, message_len, offset_update,
    ping_delay_ms, process_control_feedback, route, starts_streaming, MachineNames, Platform,
    PongSample, Route, TraceFeedback, Incoming,
};

fn names() -> MachineNames {
    MachineNames {
        client_model: None,
        android_model: None,
        client_name: None,
        android_device_name: None,
        computer_name: None,
        host_name: None,
        arch: "x86_64".to_string(),
    }
}

fn identity(platform: Platform, n: MachineNames) -> (String, String) {
    match make_client_identity(platform, n) {
        ControlPacket::Identify { model, os } => (model, os),
        _ => panic!("not an introduction"),
    }
}

#[test]
fn pings_slow_down() {
    assert_eq!(ping_delay_ms(0), 200);
    assert_eq!(ping_delay_ms(9), 200);
    assert_eq!(ping_delay_ms(10), 3_000);
}

#[test]
fn requests_for_shards_go_over_the_stream() {
    let nack = ControlPacket::Nack { frame_id: 1, slice_idx: 0, group_idx: 0, received_mask: 3 };
    assert_eq!(route(&nack), Route::Stream);
    assert_eq!(route(&ControlPacket::RequestKeyFrame), Route::Datagram);
}

#[test]
fn message_carries_its_length() {
    let framed = frame_message(&[7u8; 300]);
    assert_eq!(&framed[..4], &[0x2c, 0x01, 0, 0]);
    assert_eq!(message_len(&framed[..4]), 300);
    assert_eq!(&framed[4..], &[7u8; 300][..]);
}

#[test]
fn control_message_is_a_datagram() {
    let raw = control_datagram(b"hi");
    let chunk = DatagramChunk::decode(raw).unwrap();
    assert_eq!(chunk.packet_type, TYPE_CONTROL);
    assert_eq!((chunk.k, chunk.m, chunk.total_slices, chunk.total_groups), (1, 0, 1, 1));
    assert_eq!(chunk.payload_len, 2);
    assert_eq!(chunk.data.as_ref(), b"hi");
}

#[test]
fn pong_shows_offset_and_round_trip() {
    let pong = ControlPacket::Pong { client_time_us: 1_000, server_time_us: 50_100 };
    assert_eq!(
        process_control_feedback(&pong, 1_200, 0),
        Some(PongSample { raw_offset_us: 49_000, rtt_us: 200, first: true })
    );
    assert_eq!(
        process_control_feedback(&pong, 1_200, 5),
        Some(PongSample { raw_offset_us: 49_000, rtt_us: 200, first: false })
    );
    assert_eq!(process_control_feedback(&ControlPacket::StartStreaming, 1_200, 0), None);
}

#[test]
fn offset_is_told_to_the_sender() {
    match offset_update(-4, 9) {
        ControlPacket::OffsetUpdate { offset_us, rtt_us } => {
            assert_eq!((offset_us, rtt_us), (-4, 9));
        }
        _ => panic!("another message"),
    }
}

#[test]
fn stream_begins_with_the_right_answer() {
    assert!(starts_streaming(&ControlPacket::StartStreaming));
    assert!(!starts_streaming(&ControlPacket::LostFrame));
}

#[test]
fn each_frame_is_reported_once() {
    let mut feedback = TraceFeedback::new();
    let t = FrameTrace { present_us: 5, ..FrameTrace::default() };
    assert!(feedback.report(None).is_none());
    match feedback.report(Some((3, t))) {
        Some(ControlPacket::FrameFeedback { frame_id, trace }) => {
            assert_eq!(frame_id, 3);
            assert_eq!(trace.present_us, 5);
        }
        _ => panic!("no report"),
    }
    assert!(feedback.report(Some((3, t))).is_none());
    assert!(feedback.report(Some((4, t))).is_some());
}

#[test]
fn machines_introduce_themselves() {
    assert_eq!(
        identity(Platform::Linux, names()),
        ("Linux x86_64 (Linux-host)".to_string(), "Linux".to_string())
    );
    assert_eq!(
        identity(Platform::Windows, names()),
        ("x86_64 Windows (Windows-PC)".to_string(), "Windows".to_string())
    );
    assert_eq!(
        identity(Platform::MacOs, names()),
        ("Mac (Mac)".to_string(), "macOS".to_string())
    );
    assert_eq!(
        identity(Platform::Android, names()),
        ("Android device (Android)".to_string(), "Android".to_string())
    );
    assert_eq!(
        identity(Platform::Unknown, names()),
        ("Unknown device (Unknown)".to_string(), "Unknown".to_string())
    );
}

#[test]
fn set_names_come_first() {
    let mut n = names();
    n.client_model = Some("Box".to_string());
    n.host_name = Some("den".to_string());
    n.client_name = Some("other".to_string());
    assert_eq!(identity(Platform::Linux, n).0, "Box (den)");
    let mut m = names();
    m.client_name = Some(String::new());
    assert_eq!(identity(Platform::Unknown, m).0, "Unknown device");
}

fn datagram(packet_type: u8, content: &[u8]) -> Bytes {
    let mut raw = vec![0u8; 19];
    raw[15] = packet_type;
    raw.extend_from_slice(content);
    Bytes::from(raw)
}

#[test]
fn datagrams_are_told_apart() {
    match classify(datagram(TYPE_VIDEO, &[7])) {
        Incoming::Video(c) => assert_eq!(&c.data[..], &[7]),
        _ => panic!("not a shard"),
    }
    match classify(datagram(TYPE_CONTROL, &[])) {
        Incoming::Control(b) => assert!(b.is_empty()),
        _ => panic!("not a message"),
    }
    match classify(datagram(TYPE_AUDIO, &[1, 2])) {
        Incoming::Audio(b) => assert_eq!(&b[..], &[1, 2]),
        _ => panic!("not sound"),
    }
    assert!(matches!(classify(datagram(TYPE_AUDIO, &[])), Incoming::Ignored));
    assert!(matches!(classify(datagram(77, &[1])), Incoming::Ignored));
    assert!(matches!(classify(Bytes::from(vec![0u8; 18])), Incoming::Ignored));
}
