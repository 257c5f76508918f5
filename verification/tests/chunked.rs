use bytes::Bytes;
use stream_core::chunked::packet::VideoPacket;
use stream_core::chunked::reassembly::{stamp_reassembled, ReassemblyBuf, Reassembler};
use stream_core::chunked::sender::{
    max_chunk_data, split_frame, ClientStream, FrameNumbers, LinuxPipeWireSender,
};
use stream_core::chunked::DatagramChunk;
use stream_core::packet::FrameTrace;

fn chunk(frame_id: u64, i: u16, total: u16, data: &[u8]) -> DatagramChunk {
    DatagramChunk { frame_id, chunk_idx: i, total_chunks: total, data: Bytes::copy_from_slice(data) }
}

#[test]
fn piece_has_the_fixed_layout() {
    let raw = DatagramChunk::encode(0x0102030405060708, 0x0a0b, 0x0c0d, b"x");
    assert_eq!(raw.as_ref(), &[8, 7, 6, 5, 4, 3, 2, 1, 0x0b, 0x0a, 0x0d, 0x0c, b'x'][..]);
    let back = DatagramChunk::decode(raw).unwrap();
    assert_eq!((back.frame_id, back.chunk_idx, back.total_chunks), (0x0102030405060708, 0x0a0b, 0x0c0d));
    assert_eq!(back.data.as_ref(), b"x");
    assert!(DatagramChunk::decode(Bytes::from(vec![0u8; 11])).is_none());
}

#[test]
fn packet_comes_back() {
    let p = VideoPacket { frame_id: 3, payload: vec![1, 2, 3], timestamp: 99, is_key: true };
    let bytes = p.to_bytes().unwrap();
    let back = VideoPacket::from_bytes(&bytes).unwrap();
    assert_eq!((back.frame_id, back.timestamp, back.is_key), (3, 99, true));
    assert_eq!(back.payload, vec![1, 2, 3]);
    assert!(VideoPacket::from_bytes(&[0x80]).is_none());
    let q = VideoPacket { frame_id: 300, payload: vec![7, 8], timestamp: 127, is_key: false };
    assert_eq!(q.to_bytes().unwrap(), vec![0xac, 0x02, 2, 7, 8, 127, 0]);
}

#[test]
fn frame_is_cut_and_put_together() {
    let data: Vec<u8> = (0..250u32).map(|i| i as u8).collect();
    let pieces = split_frame(4, &Bytes::from(data.clone()), 100);
    assert_eq!(pieces.len(), 3);
    let mut r = Reassembler::new();
    for i in [2usize, 0, 0] {
        let c = DatagramChunk::decode(pieces[i].clone()).unwrap();
        assert!(r.accept(c, 10 + i as u64).is_none());
    }
    let last = DatagramChunk::decode(pieces[1].clone()).unwrap();
    let (bytes, first_us) = r.accept(last, 50).unwrap();
    assert_eq!(bytes, data);
    assert_eq!(first_us, 12);
}

#[test]
fn pieces_that_do_not_fit_are_passed_over() {
    let mut r = Reassembler::new();
    assert!(r.accept(chunk(1, 0, 2, b"a"), 0).is_none());
    assert!(r.accept(chunk(1, 1, 3, b"b"), 0).is_none());
    assert!(r.accept(chunk(1, 2, 2, b"b"), 0).is_none());
    assert!(r.accept(chunk(1, 1, 2, b"b"), 0).is_some());
}

#[test]
fn old_frames_make_room() {
    let mut r = Reassembler::new();
    for id in 0..8u64 {
        assert!(r.accept(chunk(id, 0, 2, b"a"), 0).is_none());
    }
    assert!(r.accept(chunk(8, 0, 2, b"a"), 0).is_none());
    assert!(r.accept(chunk(8, 1, 2, b"b"), 0).is_some());
    assert!(r.accept(chunk(3, 1, 2, b"b"), 0).is_some());
    assert!(r.accept(chunk(0, 1, 2, b"b"), 0).is_none());
}

#[test]
fn marked_key_frame_clears_the_rest() {
    let mut r = Reassembler::new();
    assert!(r.accept_marked(chunk(1, 0, 2, b"a"), false, 0).is_none());
    assert!(r.accept_marked(chunk(2, 0, 2, b"k"), true, 7).is_none());
    assert!(r.accept_marked(chunk(1, 1, 2, b"b"), false, 8).is_none());
    let (bytes, first) = r.accept_marked(chunk(2, 1, 2, b"l"), true, 9).unwrap();
    assert_eq!((bytes.as_slice(), first), (&b"kl"[..], 7));
    assert!(r.accept_marked(chunk(5, 2, 2, b"b"), false, 8).is_none());
}

#[test]
fn buffer_fills_up() {
    let mut b = ReassemblyBuf::new(2, false, 5);
    assert!(!b.insert(1, Bytes::from_static(b"yz")));
    assert!(!b.insert(1, Bytes::from_static(b"other")));
    assert!(b.insert(0, Bytes::from_static(b"x")));
    assert_eq!(b.assemble(), b"xyz");
}

#[test]
fn whole_frames_are_stamped() {
    let t = stamp_reassembled(Some(FrameTrace::default()), 3, 4).unwrap();
    assert_eq!((t.receive_us, t.reassembled_us), (3, 4));
    assert!(stamp_reassembled(None, 3, 4).is_none());
}

#[test]
fn pieces_fit_in_datagrams() {
    assert_eq!(max_chunk_data(None), 1180);
    assert_eq!(max_chunk_data(Some(1000)), 980);
}

#[test]
fn client_waits_for_a_key_frame() {
    let mut c = ClientStream::new();
    assert!(!c.accept(false));
    assert!(c.accept(true));
    assert!(c.accept(false));
    c.lagged();
    assert!(!c.accept(false));
}

#[test]
fn frames_are_numbered() {
    let mut n = FrameNumbers::new();
    let (a, bytes) = n.next(vec![1], true, 5);
    let (b, _) = n.next(vec![2], false, 6);
    assert_eq!(b, a + 1);
    let p = VideoPacket::from_bytes(&bytes.unwrap()).unwrap();
    assert_eq!((p.frame_id, p.timestamp, p.is_key), (a, 5, true));
    assert_eq!(p.payload, vec![1]);
}

#[test]
fn capture_has_its_size() {
    let s = LinuxPipeWireSender::new(640, 480);
    assert_eq!((s.width, s.height), (640, 480));
}
