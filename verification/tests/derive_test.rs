//! Message types laid out as the `WireMessage` derive lays them out:
//! fields in order, packed, little-endian; `bool` as one byte.
use tauri_wire::{encode_frame, FrameReader, WireMessage};

#[derive(Debug, PartialEq)]
struct Tick {
    ts_ms: i64,
    price: f64,
    volume: f64,
    side: u8,
}

impl WireMessage for Tick {
    const MSG_TYPE: u8 = 1;

    fn encode(&self, buf: &mut Vec<u8>) {
        buf.extend_from_slice(&self.ts_ms.to_le_bytes());
        buf.extend_from_slice(&self.price.to_le_bytes());
        buf.extend_from_slice(&self.volume.to_le_bytes());
        buf.push(self.side);
    }

    fn encoded_size(&self) -> usize {
        25
    }

    fn decode(data: &[u8]) -> Option<(Self, usize)> {
        if data.len() < 25 {
            return None;
        }
        let ts_ms = i64::from_le_bytes(data[0..8].try_into().ok()?);
        let price = f64::from_le_bytes(data[8..16].try_into().ok()?);
        let volume = f64::from_le_bytes(data[16..24].try_into().ok()?);
        let side = data[24];
        Some((Self { ts_ms, price, volume, side }, 25))
    }
}

#[derive(Debug, PartialEq)]
struct Sensor {
    id: u32,
    value: f32,
    flags: u16,
    active: bool,
}

impl WireMessage for Sensor {
    const MSG_TYPE: u8 = 2;

    fn encode(&self, buf: &mut Vec<u8>) {
        buf.extend_from_slice(&self.id.to_le_bytes());
        buf.extend_from_slice(&self.value.to_le_bytes());
        buf.extend_from_slice(&self.flags.to_le_bytes());
        buf.push(if self.active { 1 } else { 0 });
    }

    fn encoded_size(&self) -> usize {
        11
    }

    fn decode(data: &[u8]) -> Option<(Self, usize)> {
        if data.len() < 11 {
            return None;
        }
        let id = u32::from_le_bytes(data[0..4].try_into().ok()?);
        let value = f32::from_le_bytes(data[4..8].try_into().ok()?);
        let flags = u16::from_le_bytes(data[8..10].try_into().ok()?);
        let active = data[10] != 0;
        Some((Self { id, value, flags, active }, 11))
    }
}

#[test]
fn derive_roundtrip() {
    let tick = Tick {
        ts_ms: 1_700_000_000_000,
        price: 42_000.50,
        volume: 1.25,
        side: 1,
    };

    assert_eq!(tick.encoded_size(), 8 + 8 + 8 + 1);
    assert_eq!(Tick::MSG_TYPE, 1);

    let frame = encode_frame(&[tick]);
    let mut reader = FrameReader::new(&frame);
    let view = reader.next_frame().unwrap();
    let items = view.decode_all::<Tick>().unwrap();

    assert_eq!(items.len(), 1);
    assert_eq!(items[0].ts_ms, 1_700_000_000_000);
    assert_eq!(items[0].price, 42_000.50);
    assert_eq!(items[0].volume, 1.25);
    assert_eq!(items[0].side, 1);
}

#[test]
fn derive_sensor_roundtrip() {
    let sensor = Sensor {
        id: 42,
        value: 3.14,
        flags: 0xFF00,
        active: true,
    };

    assert_eq!(sensor.encoded_size(), 4 + 4 + 2 + 1);
    assert_eq!(Sensor::MSG_TYPE, 2);

    let mut buf = Vec::new();
    sensor.encode(&mut buf);
    let (decoded, consumed) = Sensor::decode(&buf).unwrap();
    assert_eq!(consumed, 11);
    assert_eq!(decoded.id, 42);
    assert!((decoded.value - 3.14).abs() < 0.001);
    assert_eq!(decoded.flags, 0xFF00);
    assert!(decoded.active);
}

#[test]
fn derive_bool_false() {
    let sensor = Sensor {
        id: 0,
        value: 0.0,
        flags: 0,
        active: false,
    };

    let mut buf = Vec::new();
    sensor.encode(&mut buf);
    let (decoded, _) = Sensor::decode(&buf).unwrap();
    assert!(!decoded.active);
}

#[test]
fn derive_batch_encode_decode() {
    let ticks = vec![
        Tick { ts_ms: 1, price: 1.0, volume: 1.0, side: 0 },
        Tick { ts_ms: 2, price: 2.0, volume: 2.0, side: 1 },
        Tick { ts_ms: 3, price: 3.0, volume: 3.0, side: 0 },
    ];

    let frame = encode_frame(&ticks);
    let mut reader = FrameReader::new(&frame);
    let view = reader.next_frame().unwrap();
    let items = view.decode_all::<Tick>().unwrap();

    assert_eq!(items.len(), 3);
    assert_eq!(items[0].ts_ms, 1);
    assert_eq!(items[2].ts_ms, 3);
}
