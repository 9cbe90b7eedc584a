//! Wire protocol: frame format, the `WireMessage` trait, and frame encoding.
//!
//! Frame layout (all integers little-endian):
//!
//! ```text
//! [u8  msg_type]      // user-defined tag (0-255)
//! [u32 sequence]      // monotonic per msg_type
//! [u32 payload_len]   // bytes of payload after this header
//! [payload ...]       // exactly payload_len bytes
//! ```
use vstd::prelude::*;

verus! {

/// Frame header size in bytes.
pub const FRAME_HEADER_SIZE: usize = 9;

/// Trait for user-defined binary message types.
///
/// An implementation describes its wire form by two spec functions:
/// `encoding` (the bytes one message is written as) and `decoding`
/// (what `decode` makes of the front of a byte sequence). The executable
/// methods are held to those descriptions. The two have default bodies only
/// so that an implementation outside verified code need not name them; code
/// that is generic over the trait never sees those defaults, and a verified
/// implementation defines both.
pub trait WireMessage: Sized {
    /// Unique message type tag (0-255).
    const MSG_TYPE: u8;

    /// The bytes this message is encoded as.
    closed spec fn encoding(&self) -> Seq<u8> {
        Seq::empty()
    }

    /// The result of decoding one message from the front of `data`:
    /// the message and the number of bytes consumed, or `None`.
    closed spec fn decoding(data: Seq<u8>) -> Option<(Self, usize)> {
        None
    }

    /// Encode this message into the buffer: appends exactly `encoding()`.
    fn encode(&self, buf: &mut Vec<u8>)
        ensures
            final(buf)@ == old(buf)@ + self.encoding(),
    ;

    /// Number of bytes this instance encodes to.
    fn encoded_size(&self) -> (n: usize)
        ensures
            n == self.encoding().len(),
    ;

    /// Decode one message from the front of `data`.
    fn decode(data: &[u8]) -> (r: Option<(Self, usize)>)
        ensures
            r == Self::decoding(data@),
    ;
}

/// Parsed frame header.
#[derive(Debug, Clone, Copy, PartialEq, Eq, Structural)]
pub struct FrameHeader {
    pub msg_type: u8,
    pub sequence: u32,
    pub payload_len: u32,
}

/// The four little-endian bytes of `x`.
pub open spec fn le_bytes_u32(x: u32) -> Seq<u8> {
    seq![
        (x % 256) as u8,
        ((x / 256) % 256) as u8,
        ((x / 65536) % 256) as u8,
        ((x / 16777216) % 256) as u8,
    ]
}

/// The number that the first four bytes of `b` stand for, read little-endian.
pub open spec fn le_value_u32(b: Seq<u8>) -> u32
    recommends
        b.len() >= 4,
{
    (b[0] + 256 * b[1] + 65536 * b[2] + 16777216 * b[3]) as u32
}

/// The nine bytes a header is written as.
pub open spec fn header_bytes(h: FrameHeader) -> Seq<u8> {
    seq![h.msg_type] + le_bytes_u32(h.sequence) + le_bytes_u32(h.payload_len)
}

/// The header at the front of `data`, if `data` holds at least nine bytes.
pub open spec fn parse_header(data: Seq<u8>) -> Option<FrameHeader> {
    if data.len() < FRAME_HEADER_SIZE {
        None
    } else {
        Some(
            FrameHeader {
                msg_type: data[0],
                sequence: le_value_u32(data.subrange(1, 5)),
                payload_len: le_value_u32(data.subrange(5, 9)),
            },
        )
    }
}

/// The concatenated encodings of `items`, in order.
pub open spec fn payload_of<M: WireMessage>(items: Seq<M>) -> Seq<u8>
    decreases items.len(),
{
    if items.len() == 0 {
        Seq::empty()
    } else {
        payload_of(items.drop_last()) + items.last().encoding()
    }
}

/// The header of the frame that holds `items` under sequence number `sequence`.
pub open spec fn frame_header_of<M: WireMessage>(sequence: u32, items: Seq<M>) -> FrameHeader {
    FrameHeader {
        msg_type: M::MSG_TYPE,
        sequence: sequence,
        payload_len: payload_of(items).len() as u32,
    }
}

/// The bytes of the frame that holds `items` under sequence number `sequence`.
pub open spec fn frame_of<M: WireMessage>(sequence: u32, items: Seq<M>) -> Seq<u8> {
    header_bytes(frame_header_of(sequence, items)) + payload_of(items)
}

proof fn lemma_le_byte_bits(x: u32)
    ensures
        (x & 0xff) == x % 256,
        ((x >> 8u32) & 0xff) == (x / 256) % 256,
        ((x >> 16u32) & 0xff) == (x / 65536) % 256,
        (x >> 24u32) == (x / 16777216) % 256,
{
    assert((x & 0xff) == x % 256) by (bit_vector);
    assert(((x >> 8u32) & 0xff) == (x / 256) % 256) by (bit_vector);
    assert(((x >> 16u32) & 0xff) == (x / 65536) % 256) by (bit_vector);
    assert((x >> 24u32) == (x / 16777216) % 256) by (bit_vector);
}

/// Writing a number's four little-endian bytes and reading them back gives the number.
pub proof fn lemma_le_u32_roundtrip(x: u32)
    ensures
        le_bytes_u32(x).len() == 4,
        le_value_u32(le_bytes_u32(x)) == x,
{
    let b = le_bytes_u32(x);
    assert(x % 256 + 256 * ((x / 256) % 256) + 65536 * ((x / 65536) % 256) + 16777216 * ((x
        / 16777216) % 256) == x) by (bit_vector);
}

/// Reading four bytes and writing the number back gives the same four bytes.
pub proof fn lemma_le_u32_bytes(b: Seq<u8>)
    requires
        b.len() == 4,
    ensures
        le_bytes_u32(le_value_u32(b)) == b,
{
    let b0 = b[0];
    let b1 = b[1];
    let b2 = b[2];
    let b3 = b[3];
    let v: u32 = (b0 + 256 * b1 + 65536 * b2 + 16777216 * b3) as u32;
    assert(b0 + 256 * b1 + 65536 * b2 + 16777216 * b3 <= u32::MAX) by (bit_vector);
    assert(v == b0 + 256 * b1 + 65536 * b2 + 16777216 * b3);
    assert(v % 256 == b0 && (v / 256) % 256 == b1 && (v / 65536) % 256 == b2 && (v / 16777216)
        % 256 == b3) by (bit_vector)
        requires
            v == b0 + 256 * b1 + 65536 * b2 + 16777216 * b3,
    ;
    assert(le_bytes_u32(v) =~= b);
}

fn push_u32_le(buf: &mut Vec<u8>, x: u32)
    ensures
        final(buf)@ == old(buf)@ + le_bytes_u32(x),
{
    proof {
        lemma_le_byte_bits(x);
    }
    buf.push((x & 0xff) as u8);
    buf.push(((x >> 8u32) & 0xff) as u8);
    buf.push(((x >> 16u32) & 0xff) as u8);
    buf.push((x >> 24u32) as u8);
    assert(buf@ =~= old(buf)@ + le_bytes_u32(x));
}

fn read_u32_le(data: &[u8], at: usize) -> (v: u32)
    requires
        at + 4 <= data@.len(),
    ensures
        v == le_value_u32(data@.subrange(at as int, at + 4)),
{
    let b0 = data[at] as u32;
    let b1 = data[at + 1] as u32;
    let b2 = data[at + 2] as u32;
    let b3 = data[at + 3] as u32;
    let v = b0 | (b1 << 8u32) | (b2 << 16u32) | (b3 << 24u32);
    assert(v == b0 + 256 * b1 + 65536 * b2 + 16777216 * b3) by (bit_vector)
        requires
            b0 < 256 && b1 < 256 && b2 < 256 && b3 < 256,
            v == b0 | (b1 << 8u32) | (b2 << 16u32) | (b3 << 24u32),
    ;
    v
}

impl FrameHeader {
    /// Decode a frame header from the front of a byte slice.
    pub fn read(data: &[u8]) -> (r: Option<Self>)
        ensures
            r == parse_header(data@),
    {
        if data.len() < FRAME_HEADER_SIZE {
            return None;
        }
        let sequence = read_u32_le(data, 1);
        let payload_len = read_u32_le(data, 5);
        Some(Self { msg_type: data[0], sequence, payload_len })
    }

    /// Write this header into the buffer (9 bytes).
    pub fn write(&self, buf: &mut Vec<u8>)
        ensures
            final(buf)@ == old(buf)@ + header_bytes(*self),
    {
        buf.push(self.msg_type);
        push_u32_le(buf, self.sequence);
        push_u32_le(buf, self.payload_len);
        assert(buf@ =~= old(buf)@ + header_bytes(*self));
    }

    /// Total frame size (header + payload).
    pub fn frame_size(&self) -> (n: usize)
        requires
            FRAME_HEADER_SIZE + self.payload_len <= usize::MAX,
        ensures
            n == FRAME_HEADER_SIZE + self.payload_len,
    {
        FRAME_HEADER_SIZE + self.payload_len as usize
    }
}

/// The payload of a prefix grows by the next item's encoding.
proof fn lemma_payload_take_step<M: WireMessage>(items: Seq<M>, i: int)
    requires
        0 <= i < items.len(),
    ensures
        payload_of(items.take(i + 1)) == payload_of(items.take(i)) + items[i].encoding(),
{
    assert(items.take(i + 1).drop_last() =~= items.take(i));
}

/// The payload of a prefix is no longer than the payload of the whole.
proof fn lemma_payload_take_len<M: WireMessage>(items: Seq<M>, i: int)
    requires
        0 <= i <= items.len(),
    ensures
        payload_of(items.take(i)).len() <= payload_of(items).len(),
    decreases items.len() - i,
{
    if i < items.len() {
        lemma_payload_take_step(items, i);
        lemma_payload_take_len(items, i + 1);
    } else {
        assert(items.take(i) =~= items);
    }
}

/// Sum of the encoded sizes of `items`.
pub(crate) fn payload_size<M: WireMessage>(items: &[M]) -> (n: usize)
    requires
        payload_of(items@).len() <= usize::MAX,
    ensures
        n == payload_of(items@).len(),
{
    let mut total: usize = 0;
    let mut i: usize = 0;
    while i < items.len()
        invariant
            i <= items@.len(),
            payload_of(items@).len() <= usize::MAX,
            total == payload_of(items@.take(i as int)).len(),
        decreases items@.len() - i,
    {
        proof {
            lemma_payload_take_step(items@, i as int);
            lemma_payload_take_len(items@, i as int + 1);
        }
        let n = items[i].encoded_size();
        total = total + n;
        i = i + 1;
    }
    assert(items@.take(i as int) =~= items@);
    total
}

/// Append the encodings of all `items`, in order.
pub(crate) fn encode_items<M: WireMessage>(buf: &mut Vec<u8>, items: &[M])
    ensures
        final(buf)@ == old(buf)@ + payload_of(items@),
{
    let mut i: usize = 0;
    while i < items.len()
        invariant
            i <= items@.len(),
            buf@ == old(buf)@ + payload_of(items@.take(i as int)),
        decreases items@.len() - i,
    {
        proof {
            lemma_payload_take_step(items@, i as int);
        }
        items[i].encode(buf);
        assert(buf@ =~= old(buf)@ + payload_of(items@.take(i + 1)));
        i = i + 1;
    }
    assert(items@.take(i as int) =~= items@);
}

/// Encode a slice of messages into a single frame with sequence number 0.
///
/// The total payload must fit in a `u32` (about 4 GB).
pub fn encode_frame<M: WireMessage>(items: &[M]) -> (frame: Vec<u8>)
    requires
        payload_of(items@).len() <= u32::MAX,
        FRAME_HEADER_SIZE + payload_of(items@).len() <= usize::MAX,
    ensures
        frame@ == frame_of(0, items@),
{
    let payload_len = payload_size(items);
    let mut buf = Vec::with_capacity(FRAME_HEADER_SIZE + payload_len);
    encode_frame_into(&mut buf, 0, items);
    assert(buf@ =~= frame_of(0, items@));
    buf
}

/// Encode a slice of messages into a single frame with a specific sequence number.
///
/// The total payload must fit in a `u32` (about 4 GB).
pub fn encode_frame_with_seq<M: WireMessage>(sequence: u32, items: &[M]) -> (frame: Vec<u8>)
    requires
        payload_of(items@).len() <= u32::MAX,
        FRAME_HEADER_SIZE + payload_of(items@).len() <= usize::MAX,
    ensures
        frame@ == frame_of(sequence, items@),
{
    let payload_len = payload_size(items);
    let mut buf = Vec::with_capacity(FRAME_HEADER_SIZE + payload_len);
    encode_frame_into(&mut buf, sequence, items);
    assert(buf@ =~= frame_of(sequence, items@));
    buf
}

/// Encode a frame with a specific sequence number, appending to an existing
/// buffer and leaving its earlier bytes as they were.
///
/// The total payload must fit in a `u32` (about 4 GB).
pub fn encode_frame_into<M: WireMessage>(buf: &mut Vec<u8>, sequence: u32, items: &[M])
    requires
        payload_of(items@).len() <= u32::MAX,
    ensures
        final(buf)@ == old(buf)@ + frame_of(sequence, items@),
{
    let payload_len = payload_size(items);
    let header = FrameHeader { msg_type: M::MSG_TYPE, sequence, payload_len: payload_len as u32 };
    header.write(buf);
    encode_items(buf, items);
    assert(buf@ =~= old(buf)@ + frame_of(sequence, items@));
}

} // verus!
