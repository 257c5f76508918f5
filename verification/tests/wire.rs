use bytes::Bytes;
use stream_core::buffer::{read_le16, read_le32, read_le64};
use stream_core::packet::{
    DatagramChunk, FrameTrace, VideoPacket, TYPE_AUDIO, TYPE_CONTROL, TYPE_VIDEO,
};

#[test]
fn little_endian_numbers_are_read() {
    let s = [0x01u8, 0x02, 0x03, 0x04, 0x05, 0x06, 0x07, 0x08, 0x09];
    assert_eq!(read_le16(&s, 0), 0x0201);
    assert_eq!(read_le16(&s, 7), 0x0908);
    assert_eq!(read_le32(&s, 1), 0x05040302);
    assert_eq!(read_le64(&s, 1), 0x0908070605040302);
}

#[test]
fn packet_types_have_their_numbers() {
    assert_eq!((TYPE_VIDEO, TYPE_AUDIO, TYPE_CONTROL), (0, 1, 2));
}

#[test]
fn datagram_has_the_fixed_layout() {
    let raw = DatagramChunk::encode(
        0x0102030405060708, 3, 4, 5, 16, 4, 0x0a0b, TYPE_VIDEO, 2, 6, 7, &[0xaa, 0xbb],
    );
    assert_eq!(
        raw.as_ref(),
        &[
            0x08, 0x07, 0x06, 0x05, 0x04, 0x03, 0x02, 0x01, 3, 4, 5, 16, 4, 0x0b, 0x0a, 0, 2, 6, 7,
            0xaa, 0xbb,
        ][..]
    );
}

#[test]
fn datagram_comes_back() {
    let raw = DatagramChunk::encode(9, 1, 2, 3, 4, 5, 600, TYPE_CONTROL, 7, 8, 9, b"payload");
    let chunk = DatagramChunk::decode(raw.clone()).unwrap();
    assert_eq!(chunk.frame_id, 9);
    assert_eq!(chunk.slice_idx, 1);
    assert_eq!(chunk.total_slices, 2);
    assert_eq!(chunk.shard_idx, 3);
    assert_eq!(chunk.k, 4);
    assert_eq!(chunk.m, 5);
    assert_eq!(chunk.payload_len, 600);
    assert_eq!(chunk.packet_type, TYPE_CONTROL);
    assert_eq!(chunk.flags, 7);
    assert_eq!(chunk.group_idx, 8);
    assert_eq!(chunk.total_groups, 9);
    assert_eq!(chunk.data.as_ref(), b"payload");
    assert_eq!(chunk.to_bytes(), raw);
}

#[test]
fn short_datagram_is_refused() {
    assert!(DatagramChunk::decode(Bytes::from(vec![0u8; 18])).is_none());
    let empty = DatagramChunk::decode(Bytes::from(vec![0u8; 19])).unwrap();
    assert!(empty.data.is_empty());
}

#[test]
fn defaults_are_zero() {
    let t = FrameTrace::default();
    assert_eq!(t.capture_us, 0);
    assert_eq!(t.fec_done_us, 0);
    let p = VideoPacket::default();
    assert_eq!(p.frame_id, 0);
    assert!(p.payload.is_empty() && !p.is_key && p.trace.is_none());
    assert!(DatagramChunk::default().data.is_empty());
}

#[test]
fn time_goes_on() {
    let a = FrameTrace::now_us();
    let b = FrameTrace::now_us();
    assert!(a > 1_600_000_000_000_000);
    assert!(b >= a);
}
