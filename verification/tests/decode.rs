use tauri_wire::{encode_frame, encode_frame_into, FrameReader, WireMessage, FRAME_HEADER_SIZE};

struct Num(u32);
impl WireMessage for Num {
    const MSG_TYPE: u8 = 10;
    fn encode(&self, buf: &mut Vec<u8>) {
        buf.extend_from_slice(&self.0.to_le_bytes());
    }
    fn encoded_size(&self) -> usize {
        4
    }
    fn decode(data: &[u8]) -> Option<(Self, usize)> {
        let v = u32::from_le_bytes(data.get(..4)?.try_into().ok()?);
        Some((Self(v), 4))
    }
}

struct Unknown;
impl WireMessage for Unknown {
    const MSG_TYPE: u8 = 99;
    fn encode(&self, buf: &mut Vec<u8>) {
        buf.extend_from_slice(&[0u8; 16]);
    }
    fn encoded_size(&self) -> usize {
        16
    }
    fn decode(_: &[u8]) -> Option<(Self, usize)> {
        Some((Self, 16))
    }
}

struct Bad;
impl WireMessage for Bad {
    const MSG_TYPE: u8 = 77;
    fn encode(&self, buf: &mut Vec<u8>) {
        buf.push(0);
    }
    fn encoded_size(&self) -> usize {
        1
    }
    fn decode(_data: &[u8]) -> Option<(Self, usize)> {
        Some((Self, 0)) // consumes nothing
    }
}

#[test]
fn read_single_frame() {
    let mut buf = Vec::new();
    encode_frame_into(&mut buf, 0, &[Num(42)]);

    let mut reader = FrameReader::new(&buf);
    let frame = reader.next_frame().unwrap();
    assert_eq!(frame.header.msg_type, 10);
    assert_eq!(frame.payload.len(), 4);

    let items = frame.decode_all::<Num>().unwrap();
    assert_eq!(items.len(), 1);
    assert_eq!(items[0].0, 42);

    assert!(reader.next_frame().is_none());
    assert!(reader.is_exhausted());
}

#[test]
fn read_multiple_frames() {
    let mut buf = Vec::new();
    encode_frame_into(&mut buf, 0, &[Num(1), Num(2)]);
    encode_frame_into(&mut buf, 1, &[Num(3)]);

    let mut reader = FrameReader::new(&buf);

    let f1 = reader.next_frame().unwrap();
    assert_eq!(f1.header.sequence, 0);
    assert_eq!(f1.item_count(4), 2);

    let f2 = reader.next_frame().unwrap();
    assert_eq!(f2.header.sequence, 1);
    let items = f2.decode_all::<Num>().unwrap();
    assert_eq!(items[0].0, 3);

    assert!(reader.next_frame().is_none());
}

#[test]
fn skip_unknown_frame_types() {
    let mut buf = Vec::new();
    encode_frame_into(&mut buf, 0, &[Num(1)]);
    encode_frame_into(&mut buf, 0, &[Unknown]);
    encode_frame_into(&mut buf, 1, &[Num(2)]);

    let mut reader = FrameReader::new(&buf);
    let mut nums = vec![];

    while let Some(frame) = reader.next_frame() {
        if frame.header.msg_type == Num::MSG_TYPE {
            for item in frame.decode_all::<Num>().unwrap() {
                nums.push(item.0);
            }
        }
        // unknown types are silently skipped
    }

    assert_eq!(nums, vec![1, 2]);
}

#[test]
fn handles_truncated_buffer() {
    let mut buf = Vec::new();
    encode_frame_into(&mut buf, 0, &[Num(42)]);
    buf.truncate(buf.len() - 2); // corrupt: payload cut short

    let mut reader = FrameReader::new(&buf);
    assert!(reader.next_frame().is_none()); // safely returns None
}

#[test]
fn decode_all_guards_zero_consumed() {
    let mut buf = Vec::new();
    encode_frame_into(&mut buf, 0, &[Bad]);

    let mut reader = FrameReader::new(&buf);
    let frame = reader.next_frame().unwrap();
    // Should return None (abort) instead of looping forever
    assert!(frame.decode_all::<Bad>().is_none());
}

#[test]
fn iterator_trait_works() {
    let mut buf = Vec::new();
    encode_frame_into(&mut buf, 0, &[Num(1)]);
    encode_frame_into(&mut buf, 1, &[Num(2)]);
    encode_frame_into(&mut buf, 2, &[Num(3)]);

    let reader = FrameReader::new(&buf);
    let seqs: Vec<u32> = reader.frames().into_iter().map(|f| f.header.sequence).collect();
    assert_eq!(seqs, vec![0, 1, 2]);
}

#[test]
fn empty_frame_is_valid() {
    // A frame with zero items has payload_len=0 and is valid
    let frame = encode_frame::<Num>(&[]);
    assert_eq!(frame.len(), FRAME_HEADER_SIZE);

    let mut reader = FrameReader::new(&frame);
    let view = reader.next_frame().unwrap();
    assert_eq!(view.header.payload_len, 0);
    assert_eq!(view.payload.len(), 0);

    let items = view.decode_all::<Num>().unwrap();
    assert!(items.is_empty());
}
