use tauri_wire::field_layout::{field_offsets, type_info, TypeInfo, TypeKind, UnsupportedType};
use tauri_wire::{
    encode_frame, encode_frame_into, encode_frame_with_seq, BufferFull, FrameHeader, FrameReader,
    StreamBuffer, WireMessage, FRAME_HEADER_SIZE,
};

struct Num(u32);
impl WireMessage for Num {
    const MSG_TYPE: u8 = 10;
    fn encode(&self, buf: &mut Vec<u8>) {
        buf.extend_from_slice(&self.0.to_le_bytes());
    }
    fn encoded_size(&self) -> usize {
        4
    }
    fn decode(data: &[u8]) -> Option<(Self, usize)> {
        let v = u32::from_le_bytes(data.get(..4)?.try_into().ok()?);
        Some((Self(v), 4))
    }
}

struct Wide;
impl WireMessage for Wide {
    const MSG_TYPE: u8 = 11;
    fn encode(&self, buf: &mut Vec<u8>) {
        buf.extend_from_slice(&[7u8; 16]);
    }
    fn encoded_size(&self) -> usize {
        16
    }
    fn decode(_: &[u8]) -> Option<(Self, usize)> {
        Some((Self, 16))
    }
}

#[test]
fn header_bytes_are_little_endian() {
    let h = FrameHeader { msg_type: 1, sequence: 0x0403_0201, payload_len: 0x0807_0605 };
    let mut buf = vec![0xAA];
    h.write(&mut buf);
    assert_eq!(buf, vec![0xAA, 1, 1, 2, 3, 4, 5, 6, 7, 8]);
    assert_eq!(FrameHeader::read(&buf[1..]), Some(h));
    assert_eq!(h.frame_size(), 9 + 0x0807_0605);
}

#[test]
fn header_needs_nine_bytes() {
    assert_eq!(FrameHeader::read(&[1, 2, 3, 4, 5, 6, 7, 8]), None);
    let h = FrameHeader::read(&[9, 0xFF, 0xFF, 0xFF, 0xFF, 0, 1, 0, 0, 42]).unwrap();
    assert_eq!(h, FrameHeader { msg_type: 9, sequence: u32::MAX, payload_len: 256 });
}

#[test]
fn frame_bytes_exact() {
    let frame = encode_frame(&[Num(0x0A0B0C0D)]);
    assert_eq!(frame, vec![10, 0, 0, 0, 0, 4, 0, 0, 0, 0x0D, 0x0C, 0x0B, 0x0A]);
    assert_eq!(frame, encode_frame_with_seq(0, &[Num(0x0A0B0C0D)]));
    let framed = encode_frame_with_seq(7, &[Num(1), Num(2)]);
    assert_eq!(framed.len(), FRAME_HEADER_SIZE + 8);
    assert_eq!(&framed[1..5], &[7, 0, 0, 0]);
}

#[test]
fn stream_of_frames_reads_back_in_order() {
    let mut buf = Vec::new();
    encode_frame_into(&mut buf, 3, &[Num(1), Num(2)]);
    encode_frame_into(&mut buf, 9, &[Wide]);
    encode_frame_into(&mut buf, 4, &[] as &[Num]);
    let frames = FrameReader::new(&buf).frames();
    assert_eq!(frames.len(), 3);
    assert_eq!((frames[0].header.msg_type, frames[0].header.sequence, frames[0].payload.len()), (10, 3, 8));
    assert_eq!((frames[1].header.msg_type, frames[1].header.sequence, frames[1].payload.len()), (11, 9, 16));
    assert_eq!((frames[2].header.msg_type, frames[2].header.sequence, frames[2].payload.len()), (10, 4, 0));
    let nums: Vec<u32> = frames[0].decode_all::<Num>().unwrap().iter().map(|n| n.0).collect();
    assert_eq!(nums, vec![1, 2]);
}

#[test]
fn reader_stops_at_incomplete_frame() {
    let mut buf = Vec::new();
    encode_frame_into(&mut buf, 0, &[Num(5)]);
    buf.extend_from_slice(&[10, 0, 0, 0]); // a header cut short
    let mut reader = FrameReader::new(&buf);
    assert_eq!(reader.remaining(), 17);
    assert!(reader.next_frame().is_some());
    assert_eq!(reader.remaining(), 4);
    assert!(!reader.is_exhausted());
    assert!(reader.next_frame().is_none());
    assert_eq!(reader.remaining(), 4);
    let rest = FrameReader::new(&buf[13..]).frames();
    assert!(rest.is_empty());
}

#[test]
fn decode_all_cases() {
    // Payload of six bytes: one Num, then two bytes that do not decode.
    let mut buf = vec![10, 0, 0, 0, 0, 6, 0, 0, 0, 1, 0, 0, 0, 2, 0];
    let mut reader = FrameReader::new(&buf);
    let frame = reader.next_frame().unwrap();
    assert!(frame.decode_all::<Num>().is_none());
    assert_eq!(frame.item_count(4), 1);
    assert_eq!(frame.item_count(0), 0);
    assert_eq!(frame.item_count(3), 2);
    // An item that consumes more than is left ends the payload.
    buf.truncate(13);
    buf[5] = 4;
    let mut reader = FrameReader::new(&buf);
    let frame = reader.next_frame().unwrap();
    assert_eq!(frame.decode_all::<Wide>().unwrap().len(), 1);
}

#[test]
fn push_of_nothing_changes_nothing() {
    let mut stream = StreamBuffer::default();
    stream.push::<Num>(&[]);
    assert!(stream.is_empty());
    assert_eq!(stream.sequence_of(Num::MSG_TYPE), 0);
    assert_eq!(stream.try_push::<Num>(&[]), Ok(()));
    assert_eq!(stream.buffered_bytes(), 0);
}

#[test]
fn stream_frames_carry_sequences() {
    let mut stream = StreamBuffer::with_capacity(16);
    stream.push(&[Num(1)]);
    stream.push_one(&Wide);
    stream.push_one(&Num(2));
    stream.push_raw(&[1, 2, 3]);
    assert_eq!(stream.buffered_bytes(), 13 + 25 + 13 + 3);
    let bytes = stream.drain();
    assert_eq!(&bytes[bytes.len() - 3..], &[1, 2, 3]);
    assert_eq!(stream.sequence_of(Num::MSG_TYPE), 2);
    assert_eq!(stream.sequence_of(Wide::MSG_TYPE), 1);
    assert_eq!(stream.sequence_of(0), 0);
    let frames = FrameReader::new(&bytes[..bytes.len() - 3]).frames();
    let seqs: Vec<(u8, u32)> = frames.iter().map(|f| (f.header.msg_type, f.header.sequence)).collect();
    assert_eq!(seqs, vec![(10, 0), (11, 0), (10, 1)]);
}

#[test]
fn bounded_limit_is_inclusive_and_failure_keeps_state() {
    let mut stream = StreamBuffer::bounded(64, 17);
    assert!(stream.has_room_for(8));
    assert!(!stream.has_room_for(9));
    assert_eq!(stream.try_push(&[Wide]), Err(BufferFull));
    assert_eq!(stream.sequence_of(Wide::MSG_TYPE), 0);
    assert!(stream.is_empty());
    assert_eq!(stream.try_push(&[Num(1), Num(2)]), Ok(()));
    assert_eq!(stream.buffered_bytes(), 17);
    assert_eq!(stream.try_push_one(&Num(3)), Err(BufferFull));
    assert_eq!(stream.sequence_of(Num::MSG_TYPE), 1);
    // push ignores the bound
    stream.push_one(&Num(4));
    assert_eq!(stream.buffered_bytes(), 30);
    assert_eq!(stream.sequence_of(Num::MSG_TYPE), 2);
}

#[test]
fn field_type_layouts() {
    assert_eq!(type_info("u8"), Ok(TypeInfo { size: 1, kind: TypeKind::U8 }));
    assert_eq!(type_info("bool"), Ok(TypeInfo { size: 1, kind: TypeKind::Bool }));
    assert_eq!(type_info("i8"), Ok(TypeInfo { size: 1, kind: TypeKind::LeNum { size: 1 } }));
    assert_eq!(type_info("u16"), Ok(TypeInfo { size: 2, kind: TypeKind::LeNum { size: 2 } }));
    assert_eq!(type_info("f32"), Ok(TypeInfo { size: 4, kind: TypeKind::LeNum { size: 4 } }));
    assert_eq!(type_info("i64"), Ok(TypeInfo { size: 8, kind: TypeKind::LeNum { size: 8 } }));
    assert_eq!(type_info("String"), Err(UnsupportedType));
    assert_eq!(type_info("u128"), Err(UnsupportedType));
}

#[test]
fn field_offsets_of_record() {
    let fields: Vec<TypeInfo> = ["i64", "f64", "f64", "u8"].iter().map(|n| type_info(n).unwrap()).collect();
    let (offsets, total) = field_offsets(&fields);
    assert_eq!(offsets, vec![0, 8, 16, 24]);
    assert_eq!(total, 25);
    let (offsets, total) = field_offsets(&[]);
    assert!(offsets.is_empty());
    assert_eq!(total, 0);
}

#[test]
fn reader_exhausted_after_last_frame() {
    let mut buf = Vec::new();
    encode_frame_into(&mut buf, 1, &[Num(1)]);
    encode_frame_into(&mut buf, 2, &[Wide]);
    encode_frame_into(&mut buf, 3, &[Num(2), Num(3)]);
    let mut reader = FrameReader::new(&buf);
    let expected = [(10u8, 1u32, 4usize), (11, 2, 16), (10, 3, 8)];
    for (t, s, n) in expected {
        assert!(!reader.is_exhausted());
        let f = reader.next_frame().unwrap();
        assert_eq!((f.header.msg_type, f.header.sequence, f.payload.len()), (t, s, n));
    }
    assert!(reader.is_exhausted());
    assert_eq!(reader.remaining(), 0);
    assert!(reader.next_frame().is_none());
}

#[test]
fn bounded_buffer_stays_within_limit() {
    let mut stream = StreamBuffer::bounded(0, 40);
    for i in 0..10 {
        let _ = stream.try_push_one(&Num(i));
        let _ = stream.try_push(&[Num(i), Num(i)]);
        assert!(stream.buffered_bytes() <= 40);
    }
    assert_eq!(stream.buffered_bytes(), 13 + 17);
    let _ = stream.drain();
    assert!(stream.try_push(&[Num(1), Num(2), Num(3), Num(4), Num(5), Num(6), Num(7)]).is_ok());
    assert_eq!(stream.buffered_bytes(), 37);
}
