//! Talking with the sender: messages, clock measurements and who is there.
use crate::buffer::{bytes_slice, bytes_view, le16, le32, le64, read_le32};
use crate::clock::{fits_i64, signed64, ClockModel};
use crate::control::ControlPacket;
use crate::packet::{
    law_fields_have_their_places, ChunkModel, DatagramChunk, FrameTrace, TYPE_AUDIO, TYPE_CONTROL,
    TYPE_VIDEO,
};
use bytes::Bytes;
use vstd::prelude::*;

verus! {

/// How many pings are sent in quick succession at first.
pub const FAST_PINGS: u64 = 10;

/// How long it is until the next ping after `count` of them, in milliseconds.
pub fn ping_delay_ms(count: u64) -> (r: u64)
    ensures
        r == (if count < FAST_PINGS {
            200u64
        } else {
            3_000u64
        }),
{
    if count < FAST_PINGS {
        200
    } else {
        3_000
    }
}

/// How a message is sent.
#[derive(Debug, Clone, Copy, PartialEq, Eq, Structural)]
pub enum Route {
    /// In order and again if it is lost.
    Stream,
    /// At once and once.
    Datagram,
}

/// How a message is sent: requests for lost shards must not be lost themselves.
pub fn route(packet: &ControlPacket) -> (r: Route)
    ensures
        r == (if packet is Nack {
            Route::Stream
        } else {
            Route::Datagram
        }),
{
    match packet {
        ControlPacket::Nack { .. } => Route::Stream,
        _ => Route::Datagram,
    }
}

/// A message in a stream: its length in four bytes and the message.
pub open spec fn framed(message: Seq<u8>) -> Seq<u8> {
    le32(message.len() as u32) + message
}

/// Puts the length before a message.
pub fn frame_message(message: &[u8]) -> (r: Vec<u8>)
    ensures
        r@ == framed(message@),
{
    let len: u32 = #[verifier::truncate]
    (message.len() as u32);
    let mut out: Vec<u8> = Vec::new();
    out.push((len % 256) as u8);
    out.push((len / 256 % 256) as u8);
    out.push((len / 0x1_0000 % 256) as u8);
    out.push((len / 0x100_0000) as u8);
    proof {
        let lo = (len as int % 0x1_0000) as u16;
        let hi = (len as int / 0x1_0000) as u16;
        assert(len / 256 % 256 == (len % 0x1_0000) / 256);
        assert(out@ =~= le16(lo) + le16(hi));
    }
    let ghost head = out@;
    out.extend_from_slice(message);
    assert(out@ =~= head + message@);
    out
}

/// The length that stands before a message.
pub fn message_len(head: &[u8]) -> (r: u32)
    requires
        head@.len() == 4,
    ensures
        le32(r) == head@,
{
    let r: u32 = read_le32(head, 0);
    assert(head@.subrange(0, 4) =~= head@);
    r
}

/// The length that is read before a message is its own.
pub proof fn law_message_length_is_read(message: Seq<u8>, read: u32)
    requires
        message.len() <= u32::MAX,
        le32(read) == framed(message).take(4),
    ensures
        read == message.len(),
        framed(message).skip(4) == message,
{
    assert(framed(message).take(4) =~= le32(message.len() as u32));
    crate::buffer::law_le32_injective(read, message.len() as u32);
    assert(framed(message).skip(4) =~= message);
}

/// The header of a datagram that holds a message.
pub open spec fn control_chunk(message: Seq<u8>) -> ChunkModel {
    ChunkModel {
        frame_id: 0,
        slice_idx: 0,
        total_slices: 1,
        shard_idx: 0,
        k: 1,
        m: 0,
        payload_len: message.len() as u16,
        packet_type: TYPE_CONTROL,
        flags: 0,
        group_idx: 0,
        total_groups: 1,
        data: message,
    }
}

/// The datagram that holds a message.
pub fn control_datagram(message: &[u8]) -> (r: Bytes)
    requires
        message@.len() + DatagramChunk::HEADER_LEN <= isize::MAX,
    ensures
        bytes_view(r) == control_chunk(message@).wire(),
{
    DatagramChunk::encode(
        0,
        0,
        1,
        0,
        1,
        0,
        #[verifier::truncate]
        (message.len() as u16),
        TYPE_CONTROL,
        0,
        0,
        1,
        message,
    )
}

/// What a datagram brings.
#[derive(Debug)]
pub enum Incoming {
    /// A shard of a slice.
    Video(DatagramChunk),
    /// A message.
    Control(Bytes),
    /// A piece of sound.
    Audio(Bytes),
    /// Nothing that is known.
    Ignored,
}

/// What kind of thing a datagram brings, by the byte of its header that tells it. Sound
/// without content is nothing.
pub fn classify(raw: Bytes) -> (r: Incoming)
    ensures
        ({
            let w = bytes_view(raw);
            let header = DatagramChunk::HEADER_LEN as int;
            if w.len() >= header && w[15] == TYPE_VIDEO {
                r matches Incoming::Video(c) && c@.wire() == w
            } else if w.len() >= header && w[15] == TYPE_CONTROL {
                r matches Incoming::Control(b) && bytes_view(b) == w.skip(header)
            } else if w.len() > header && w[15] == TYPE_AUDIO {
                r matches Incoming::Audio(b) && bytes_view(b) == w.skip(header)
            } else {
                r is Ignored
            }
        }),
{
    let ghost w = bytes_view(raw);
    match DatagramChunk::decode(raw) {
        Some(c) => {
            proof {
                let head = le64(c@.frame_id) + seq![
                    c@.slice_idx,
                    c@.total_slices,
                    c@.shard_idx,
                    c@.k,
                    c@.m,
                ] + le16(c@.payload_len);
                assert(head.len() == 15);
                assert(c@.wire()[15] == c@.packet_type);
                assert(c@.wire().skip(19) =~= c@.data);
            }
            match c.packet_type {
                TYPE_VIDEO => Incoming::Video(c),
                TYPE_CONTROL => Incoming::Control(c.data),
                TYPE_AUDIO => if bytes_slice(&c.data).len() > 0 {
                    Incoming::Audio(c.data)
                } else {
                    Incoming::Ignored
                },
                _ => Incoming::Ignored,
            }
        },
        None => Incoming::Ignored,
    }
}

/// What the answer to a ping shows: the offset of the sender's clock and the time of the
/// round trip.
#[derive(Debug, Clone, Copy, PartialEq, Eq, Structural)]
pub struct PongSample {
    pub raw_offset_us: i64,
    pub rtt_us: u64,
    /// No offset was known, so this one is taken as it is; else the known one is to be
    /// moved towards it.
    pub first: bool,
}

/// How long the round trip took.
pub open spec fn round_trip(client_time_us: u64, now_us: u64) -> u64 {
    if now_us >= client_time_us {
        (now_us - client_time_us) as u64
    } else {
        0
    }
}

/// The offset that the answer shows.
pub open spec fn pong_offset(client_time_us: u64, server_time_us: u64, now_us: u64) -> int {
    ClockModel::measured(server_time_us, client_time_us, round_trip(client_time_us, now_us))
}

/// Reads the answer to a ping that came at `now_us`. Other messages show nothing.
pub fn process_control_feedback(ctrl: &ControlPacket, now_us: u64, current_offset_us: i64) -> (r:
    Option<PongSample>)
    requires
        *ctrl matches ControlPacket::Pong { client_time_us, server_time_us } ==> fits_i64(
            pong_offset(client_time_us, server_time_us, now_us),
        ),
    ensures
        match *ctrl {
            ControlPacket::Pong { client_time_us, server_time_us } => r == Some(
                PongSample {
                    raw_offset_us: pong_offset(client_time_us, server_time_us, now_us) as i64,
                    rtt_us: round_trip(client_time_us, now_us),
                    first: current_offset_us == 0,
                },
            ),
            _ => r is None,
        },
{
    match ctrl {
        ControlPacket::Pong { client_time_us, server_time_us } => {
            let rtt: u64 = now_us.saturating_sub(*client_time_us);
            assert(*client_time_us + rtt / 2 <= u64::MAX) by {
                if now_us >= *client_time_us {
                    assert(rtt / 2 <= rtt);
                }
            }
            let middle: u64 = *client_time_us + rtt / 2;
            let offset: i128 = signed_of(*server_time_us) - signed_of(middle);
            Some(
                PongSample {
                    raw_offset_us: offset as i64,
                    rtt_us: rtt,
                    first: current_offset_us == 0,
                },
            )
        },
        _ => None,
    }
}

pub(crate) fn signed_of(x: u64) -> (r: i128)
    ensures
        r == signed64(x),
{
    if x < 0x8000_0000_0000_0000 {
        x as i128
    } else {
        x as i128 - 0x1_0000_0000_0000_0000
    }
}

/// Tells the sender what is known of its clock.
pub fn offset_update(offset_us: i64, rtt_us: u64) -> (r: ControlPacket)
    ensures
        r == (ControlPacket::OffsetUpdate { offset_us, rtt_us }),
{
    ControlPacket::OffsetUpdate { offset_us, rtt_us }
}

/// Whether the answer to an introduction lets the stream begin.
pub fn starts_streaming(answer: &ControlPacket) -> (r: bool)
    ensures
        r == (*answer is StartStreaming),
{
    match answer {
        ControlPacket::StartStreaming => true,
        _ => false,
    }
}

/// Reports when frames were shown, each at most once.
#[derive(Debug, Clone, Copy, PartialEq, Eq, Structural)]
pub struct TraceFeedback {
    pub last_sent_id: u64,
}

impl TraceFeedback {
    /// Nothing has been reported.
    pub fn new() -> (r: TraceFeedback)
        ensures
            r.last_sent_id == 0,
    {
        TraceFeedback { last_sent_id: 0 }
    }

    /// After a look at the frame that was shown last, and the report on it if it is another
    /// one than before.
    pub open spec fn reported(self, latest: Option<(u64, FrameTrace)>) -> (
        TraceFeedback,
        Option<ControlPacket>,
    ) {
        match latest {
            Some(l) => if l.0 != self.last_sent_id {
                (
                    TraceFeedback { last_sent_id: l.0 },
                    Some(ControlPacket::FrameFeedback { frame_id: l.0, trace: l.1 }),
                )
            } else {
                (self, None)
            },
            None => (self, None),
        }
    }

    /// The report on the frame that was shown last, if it is another one than before.
    pub fn report(&mut self, latest: Option<(u64, FrameTrace)>) -> (r: Option<ControlPacket>)
        ensures
            (*final(self), r) == old(self).reported(latest),
    {
        match latest {
            Some((frame_id, trace)) => if frame_id != self.last_sent_id {
                self.last_sent_id = frame_id;
                Some(ControlPacket::FrameFeedback { frame_id, trace })
            } else {
                None
            },
            None => None,
        }
    }
}

/// The system that the receiver runs on.
#[derive(Debug, Clone, Copy, PartialEq, Eq, Structural)]
pub enum Platform {
    Android,
    Linux,
    Windows,
    MacOs,
    Unknown,
}

/// What the environment says of the machine. Each value is there only if it is set.
#[derive(Debug)]
pub struct MachineNames {
    pub client_model: Option<String>,
    pub android_model: Option<String>,
    pub client_name: Option<String>,
    pub android_device_name: Option<String>,
    pub computer_name: Option<String>,
    pub host_name: Option<String>,
    /// The architecture of the machine.
    pub arch: String,
}

pub open spec fn name_view(s: Option<String>) -> Option<Seq<char>> {
    match s {
        Some(s) => Some(s@),
        None => None,
    }
}

/// The first of two names that is there, else the third.
pub open spec fn first_name(a: Option<Seq<char>>, b: Option<Seq<char>>, other: Seq<char>) -> Seq<
    char,
> {
    match (a, b) {
        (Some(x), _) => x,
        (None, Some(y)) => y,
        (None, None) => other,
    }
}

fn pick_name(a: Option<String>, b: Option<String>, other: String) -> (r: String)
    ensures
        r@ == first_name(name_view(a), name_view(b), other@),
{
    match a {
        Some(x) => x,
        None => match b {
            Some(y) => y,
            None => other,
        },
    }
}

/// What kind of machine it is.
pub open spec fn machine_model(platform: Platform, names: MachineNames) -> Seq<char> {
    let set = name_view(names.client_model);
    match platform {
        Platform::Android => first_name(set, name_view(names.android_model), "Android device"@),
        Platform::Windows => first_name(set, None, names.arch@ + " Windows"@),
        Platform::MacOs => first_name(set, None, "Mac"@),
        Platform::Linux => first_name(set, None, "Linux "@ + names.arch@),
        Platform::Unknown => first_name(set, None, "Unknown device"@),
    }
}

/// What the machine is called.
pub open spec fn machine_name(platform: Platform, names: MachineNames) -> Seq<char> {
    let client = name_view(names.client_name);
    match platform {
        Platform::Android => first_name(client, name_view(names.android_device_name), "Android"@),
        Platform::Windows => first_name(name_view(names.computer_name), client, "Windows-PC"@),
        Platform::MacOs => first_name(name_view(names.host_name), client, "Mac"@),
        Platform::Linux => first_name(name_view(names.host_name), client, "Linux-host"@),
        Platform::Unknown => first_name(client, None, "Unknown"@),
    }
}

/// The name of a system.
pub open spec fn system_name(platform: Platform) -> Seq<char> {
    match platform {
        Platform::Android => "Android"@,
        Platform::Linux => "Linux"@,
        Platform::Windows => "Windows"@,
        Platform::MacOs => "macOS"@,
        Platform::Unknown => "Unknown"@,
    }
}

/// The kind of machine with its name in brackets, if it has one.
pub open spec fn introduced(model: Seq<char>, name: Seq<char>) -> Seq<char> {
    if name.len() == 0 {
        model
    } else {
        model + " ("@ + name + ")"@
    }
}

fn joined(a: &str, b: &str) -> (r: String)
    ensures
        r@ == a@ + b@,
{
    let mut s: String = String::new();
    s.push_str(a);
    s.push_str(b);
    assert(s@ =~= a@ + b@);
    s
}

/// Who the receiver is.
pub fn make_client_identity(platform: Platform, names: MachineNames) -> (r: ControlPacket)
    ensures
        match r {
            ControlPacket::Identify { model, os } => {
                &&& model@ == introduced(
                    machine_model(platform, names),
                    machine_name(platform, names),
                )
                &&& os@ == system_name(platform)
            },
            _ => false,
        },
{
    let ghost all = names;
    let model: String;
    let name: String;
    let os: &str;
    match platform {
        Platform::Android => {
            os = "Android";
            model = pick_name(names.client_model, names.android_model, "Android device".to_owned());
            name = pick_name(names.client_name, names.android_device_name, "Android".to_owned());
        },
        Platform::Windows => {
            os = "Windows";
            let kind: String = joined(names.arch.as_str(), " Windows");
            model = pick_name(names.client_model, None, kind);
            name = pick_name(names.computer_name, names.client_name, "Windows-PC".to_owned());
        },
        Platform::MacOs => {
            os = "macOS";
            model = pick_name(names.client_model, None, "Mac".to_owned());
            name = pick_name(names.host_name, names.client_name, "Mac".to_owned());
        },
        Platform::Linux => {
            os = "Linux";
            let kind: String = joined("Linux ", names.arch.as_str());
            model = pick_name(names.client_model, None, kind);
            name = pick_name(names.host_name, names.client_name, "Linux-host".to_owned());
        },
        Platform::Unknown => {
            os = "Unknown";
            model = pick_name(names.client_model, None, "Unknown device".to_owned());
            name = pick_name(names.client_name, None, "Unknown".to_owned());
        },
    }
    let full: String = if name.as_str().unicode_len() == 0 {
        model
    } else {
        let mut s: String = model;
        s.push_str(" (");
        s.push_str(name.as_str());
        s.push_str(")");
        s
    };
    ControlPacket::Identify { model: full, os: os.to_owned() }
}

/// A message that goes in a datagram is known by its kind and stands behind the header.
pub proof fn law_datagram_holds_the_message(message: Seq<u8>)
    requires
        message.len() <= 0xffff,
    ensures
        ({
            let w = control_chunk(message).wire();
            &&& w.len() == 19 + message.len()
            &&& w[15] == 2
            &&& w[13] + 0x100 * w[14] == message.len()
            &&& w.skip(19) == message
        }),
{
    law_fields_have_their_places(control_chunk(message));
}

/// The answer to a ping that took equally long both ways shows how far the sender's clock is
/// ahead, and the whole time of the round trip.
pub proof fn law_pong_shows_the_offset(d: int, sent_us: u64, half_trip: u64)
    requires
        sent_us + 2 * half_trip < 0x8000_0000_0000_0000,
        0 <= sent_us + half_trip + d < 0x8000_0000_0000_0000,
    ensures
        pong_offset(
            sent_us,
            (sent_us + half_trip + d) as u64,
            (sent_us + 2 * half_trip) as u64,
        ) == d,
        round_trip(sent_us, (sent_us + 2 * half_trip) as u64) == 2 * half_trip,
{
}

/// What is set comes first: a model that is set is the model on every system, and a name that
/// is set is the name, after the one of the machine itself where the system has one.
pub proof fn law_identity_is_what_is_set(platform: Platform, names: MachineNames)
    ensures
        names.client_model is Some ==> machine_model(platform, names) == names.client_model->0@,
        names.client_name is Some && names.computer_name is None && names.host_name is None
            ==> machine_name(platform, names) == names.client_name->0@,
        names.computer_name is Some && platform is Windows ==> machine_name(platform, names)
            == names.computer_name->0@,
        names.host_name is Some && (platform is Linux || platform is MacOs) ==> machine_name(
            platform,
            names,
        ) == names.host_name->0@,
        names.client_model is None && names.android_model is Some && platform is Android
            ==> machine_model(platform, names) == names.android_model->0@,
        names.client_name is None && names.android_device_name is Some && platform is Android
            ==> machine_name(platform, names) == names.android_device_name->0@,
{
}

/// A frame is reported when it is shown and not again while no other one is, and the report is
/// its own.
pub proof fn law_frames_are_reported_once(f: TraceFeedback, id: u64, trace: FrameTrace)
    requires
        id != f.last_sent_id,
    ensures
        f.reported(Some((id, trace))).1 == Some(
            ControlPacket::FrameFeedback { frame_id: id, trace },
        ),
        f.reported(Some((id, trace))).0.reported(Some((id, trace))).1 is None,
        f.reported(None) == (f, None::<ControlPacket>),
{
}

} // verus!
