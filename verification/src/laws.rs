//! Properties of the wire format that span encoder and decoder.
use vstd::prelude::*;

use crate::decode::{decode_items, parse_frame, parse_frames};
use crate::protocol::{
    frame_header_of, frame_of, header_bytes, lemma_le_u32_bytes, lemma_le_u32_roundtrip,
    le_bytes_u32, parse_header, payload_of, FrameHeader, WireMessage, FRAME_HEADER_SIZE,
};

verus! {

/// A header and payload that agree: the payload is as long as the header says.
pub open spec fn frame_consistent(f: (FrameHeader, Seq<u8>)) -> bool {
    f.1.len() == f.0.payload_len
}

/// The bytes of one frame: its header, then its payload.
pub open spec fn frame_bytes(f: (FrameHeader, Seq<u8>)) -> Seq<u8> {
    header_bytes(f.0) + f.1
}

/// The bytes of a stream of frames: each frame's bytes, in order.
pub open spec fn stream_bytes(fs: Seq<(FrameHeader, Seq<u8>)>) -> Seq<u8>
    decreases fs.len(),
{
    if fs.len() == 0 {
        Seq::empty()
    } else {
        frame_bytes(fs[0]) + stream_bytes(fs.drop_first())
    }
}

/// A message whose encoding is not empty and decodes back to the message,
/// consuming exactly the encoding, whatever bytes follow it.
pub open spec fn decodes_back<M: WireMessage>(m: M) -> bool {
    &&& m.encoding().len() > 0
    &&& forall|t: Seq<u8>|
        #[trigger] M::decoding(m.encoding() + t) == Some((m, m.encoding().len() as usize))
}

/// A header is nine bytes long, and reading the front of its bytes, whatever
/// follows them, gives the header back.
pub proof fn lemma_header_roundtrip(h: FrameHeader, rest: Seq<u8>)
    ensures
        header_bytes(h).len() == FRAME_HEADER_SIZE,
        parse_header(header_bytes(h) + rest) == Some(h),
{
    lemma_le_u32_roundtrip(h.sequence);
    lemma_le_u32_roundtrip(h.payload_len);
    let s = header_bytes(h) + rest;
    assert(s.subrange(1, 5) =~= le_bytes_u32(h.sequence));
    assert(s.subrange(5, 9) =~= le_bytes_u32(h.payload_len));
}

/// Reading a header and writing it back gives the nine bytes it was read from.
pub proof fn lemma_header_rewrite(data: Seq<u8>)
    requires
        parse_header(data) is Some,
    ensures
        header_bytes(parse_header(data).unwrap()) == data.take(FRAME_HEADER_SIZE as int),
{
    lemma_le_u32_bytes(data.subrange(1, 5));
    lemma_le_u32_bytes(data.subrange(5, 9));
    assert(header_bytes(parse_header(data).unwrap()) =~= data.take(FRAME_HEADER_SIZE as int));
}

/// A frame is as long as its header's frame size: nine bytes plus the payload.
pub proof fn lemma_frame_len<M: WireMessage>(sequence: u32, items: Seq<M>)
    requires
        payload_of(items).len() <= u32::MAX,
    ensures
        frame_of(sequence, items).len() == FRAME_HEADER_SIZE + frame_header_of(
            sequence,
            items,
        ).payload_len,
{
}

/// A complete frame at the front of a buffer is read back as written,
/// whatever bytes follow it.
pub proof fn lemma_frame_roundtrip(f: (FrameHeader, Seq<u8>), rest: Seq<u8>)
    requires
        frame_consistent(f),
    ensures
        parse_frame(frame_bytes(f) + rest) == Some(f),
{
    let (h, p) = f;
    let s = frame_bytes(f) + rest;
    assert(s =~= header_bytes(h) + (p + rest));
    lemma_header_roundtrip(h, p + rest);
    assert(s.subrange(FRAME_HEADER_SIZE as int, FRAME_HEADER_SIZE + h.payload_len) =~= p);
}

/// A frame cut short anywhere before its end is not read at all.
pub proof fn lemma_truncated_frame(f: (FrameHeader, Seq<u8>), k: int)
    requires
        frame_consistent(f),
        0 <= k < frame_bytes(f).len(),
    ensures
        parse_frame(frame_bytes(f).take(k)) is None,
        parse_frames(frame_bytes(f).take(k)) == Seq::<(FrameHeader, Seq<u8>)>::empty(),
{
    let (h, p) = f;
    let s = frame_bytes(f).take(k);
    lemma_header_roundtrip(h, p);
    if k >= FRAME_HEADER_SIZE {
        assert(frame_bytes(f).take(k) =~= header_bytes(h) + p.take(k - FRAME_HEADER_SIZE));
        lemma_header_roundtrip(h, p.take(k - FRAME_HEADER_SIZE));
    }
}

/// Concatenated consistent frames are read back one by one, in order,
/// whatever their message types: a stream is the sequence of its frames.
pub proof fn lemma_stream_roundtrip(fs: Seq<(FrameHeader, Seq<u8>)>)
    requires
        forall|i: int| 0 <= i < fs.len() ==> frame_consistent(#[trigger] fs[i]),
    ensures
        parse_frames(stream_bytes(fs)) == fs,
    decreases fs.len(),
{
    if fs.len() == 0 {
        assert(parse_frames(Seq::<u8>::empty()) =~= fs);
    } else {
        let f = fs[0];
        let rest = stream_bytes(fs.drop_first());
        let s = stream_bytes(fs);
        assert(frame_consistent(fs[0]));
        lemma_frame_roundtrip(f, rest);
        lemma_header_roundtrip(f.0, f.1 + rest);
        assert(s =~= header_bytes(f.0) + (f.1 + rest));
        assert(s.skip(FRAME_HEADER_SIZE + f.0.payload_len) =~= rest);
        assert forall|i: int| 0 <= i < fs.drop_first().len() implies frame_consistent(
            #[trigger] fs.drop_first()[i],
        ) by {
            assert(fs.drop_first()[i] == fs[i + 1]);
        }
        lemma_stream_roundtrip(fs.drop_first());
        assert(s.subrange(FRAME_HEADER_SIZE as int, FRAME_HEADER_SIZE + f.0.payload_len) =~= f.1);
        assert(seq![f] + fs.drop_first() =~= fs);
    }
}

/// Number of bytes that the frames `fs` take: each frame's header and payload.
pub open spec fn stream_len(fs: Seq<(FrameHeader, Seq<u8>)>) -> nat
    decreases fs.len(),
{
    if fs.len() == 0 {
        0
    } else {
        (FRAME_HEADER_SIZE + fs[0].0.payload_len + stream_len(fs.drop_first())) as nat
    }
}

/// Walking a stream of consistent frames with a reader: once the first `k`
/// frames are read, the cursor has moved past exactly their bytes and the
/// unread bytes are the stream of the remaining frames, so the next frame
/// read is `fs[k]`; once every frame is read, every byte is consumed
/// (the reader is exhausted) and no further frame is read.
pub proof fn lemma_stream_walk(fs: Seq<(FrameHeader, Seq<u8>)>, k: int)
    requires
        forall|i: int| 0 <= i < fs.len() ==> frame_consistent(#[trigger] fs[i]),
        0 <= k <= fs.len(),
    ensures
        stream_bytes(fs).len() == stream_len(fs),
        stream_len(fs.take(k)) <= stream_len(fs),
        stream_bytes(fs).skip(stream_len(fs.take(k)) as int) == stream_bytes(fs.skip(k)),
        k < fs.len() ==> parse_frame(stream_bytes(fs).skip(stream_len(fs.take(k)) as int))
            == Some(fs[k]),
        k == fs.len() ==> stream_len(fs.take(k)) == stream_bytes(fs).len() && parse_frame(
            stream_bytes(fs).skip(stream_len(fs.take(k)) as int),
        ) is None,
    decreases fs.len(),
{
    if fs.len() == 0 {
        assert(fs.take(k) =~= fs);
        assert(fs.skip(k) =~= fs);
        assert(stream_bytes(fs).skip(0) =~= stream_bytes(fs));
    } else {
        let f = fs[0];
        let tail = fs.drop_first();
        assert(frame_consistent(f));
        lemma_header_roundtrip(f.0, f.1);
        assert forall|i: int| 0 <= i < tail.len() implies frame_consistent(#[trigger] tail[i]) by {
            assert(tail[i] == fs[i + 1]);
        }
        let fb = frame_bytes(f);
        assert(fb.len() == FRAME_HEADER_SIZE + f.0.payload_len);
        if k == 0 {
            lemma_stream_walk(tail, 0);
            assert(fs.take(0) =~= Seq::<(FrameHeader, Seq<u8>)>::empty());
            assert(fs.skip(0) =~= fs);
            assert(stream_bytes(fs).skip(0) =~= stream_bytes(fs));
            assert(stream_bytes(fs) =~= fb + stream_bytes(tail));
            lemma_frame_roundtrip(f, stream_bytes(tail));
        } else {
            lemma_stream_walk(tail, k - 1);
            assert(fs.take(k).drop_first() =~= tail.take(k - 1));
            assert(fs.take(k)[0] == f);
            assert(tail.skip(k - 1) =~= fs.skip(k));
            let x = stream_len(tail.take(k - 1));
            assert(stream_len(fs.take(k)) == FRAME_HEADER_SIZE + f.0.payload_len + x);
            assert(stream_bytes(fs).skip(stream_len(fs.take(k)) as int) =~= stream_bytes(
                tail,
            ).skip(x as int));
            if k < fs.len() {
                assert(fs[k] == tail[k - 1]);
            }
        }
    }
}

/// Appending one frame to a stream appends it to the frames the stream reads as.
pub proof fn lemma_stream_push(fs: Seq<(FrameHeader, Seq<u8>)>, f: (FrameHeader, Seq<u8>))
    ensures
        stream_bytes(fs.push(f)) == stream_bytes(fs) + frame_bytes(f),
    decreases fs.len(),
{
    if fs.len() == 0 {
        assert(fs.push(f).drop_first() =~= Seq::<(FrameHeader, Seq<u8>)>::empty());
        assert(stream_bytes(Seq::<(FrameHeader, Seq<u8>)>::empty()) =~= Seq::<u8>::empty());
        assert(stream_bytes(fs.push(f)) =~= stream_bytes(fs) + frame_bytes(f));
    } else {
        lemma_stream_push(fs.drop_first(), f);
        assert(fs.push(f).drop_first() =~= fs.drop_first().push(f));
        assert(stream_bytes(fs.push(f)) =~= stream_bytes(fs) + frame_bytes(f));
    }
}

/// The frame that `encode_frame_into` writes is read back as exactly one
/// frame: the header it was given, and the items' encodings as payload.
pub proof fn lemma_encoded_frame_reads_back<M: WireMessage>(sequence: u32, items: Seq<M>)
    requires
        payload_of(items).len() <= u32::MAX,
    ensures
        parse_frames(frame_of(sequence, items)) == seq![
            (frame_header_of(sequence, items), payload_of(items)),
        ],
{
    let f = (frame_header_of(sequence, items), payload_of(items));
    assert(frame_of(sequence, items) =~= stream_bytes(seq![f])) by {
        assert(seq![f].drop_first() =~= Seq::<(FrameHeader, Seq<u8>)>::empty());
        assert(stream_bytes(Seq::<(FrameHeader, Seq<u8>)>::empty()) =~= Seq::<u8>::empty());
    }
    lemma_stream_roundtrip(seq![f]);
}

/// Appending an encoded frame to a stream of consistent frames appends that
/// frame to what the stream reads as: bytes accumulated by pushes read back
/// as the pushed frames, in push order.
pub proof fn lemma_stream_append_frame<M: WireMessage>(
    fs: Seq<(FrameHeader, Seq<u8>)>,
    sequence: u32,
    items: Seq<M>,
)
    requires
        forall|i: int| 0 <= i < fs.len() ==> frame_consistent(#[trigger] fs[i]),
        payload_of(items).len() <= u32::MAX,
    ensures
        parse_frames(stream_bytes(fs) + frame_of(sequence, items)) == fs.push(
            (frame_header_of(sequence, items), payload_of(items)),
        ),
{
    let f = (frame_header_of(sequence, items), payload_of(items));
    lemma_stream_push(fs, f);
    assert(frame_bytes(f) == frame_of(sequence, items));
    assert forall|i: int| 0 <= i < fs.push(f).len() implies frame_consistent(
        #[trigger] fs.push(f)[i],
    ) by {
        if i < fs.len() {
            assert(fs.push(f)[i] == fs[i]);
        }
    }
    lemma_stream_roundtrip(fs.push(f));
}

/// The payload of a message followed by more messages is the message's
/// encoding followed by their payload.
pub proof fn lemma_payload_prepend<M: WireMessage>(m: M, rest: Seq<M>)
    ensures
        payload_of(seq![m] + rest) == m.encoding() + payload_of(rest),
    decreases rest.len(),
{
    if rest.len() == 0 {
        assert(seq![m] + rest =~= seq![m]);
        assert(seq![m].drop_last() =~= Seq::<M>::empty());
        assert(payload_of(Seq::<M>::empty()) =~= Seq::<u8>::empty());
        assert(payload_of(rest) =~= Seq::<u8>::empty());
        assert(payload_of(seq![m] + rest) =~= m.encoding() + payload_of(rest));
    } else {
        lemma_payload_prepend(m, rest.drop_last());
        assert((seq![m] + rest).drop_last() =~= seq![m] + rest.drop_last());
        assert(payload_of(seq![m] + rest) =~= m.encoding() + payload_of(rest));
    }
}

/// When every item decodes back from its encoding, decoding the payload of
/// a frame gives back exactly the items that were encoded into it.
pub proof fn lemma_decode_all_roundtrip<M: WireMessage>(items: Seq<M>)
    requires
        forall|i: int| 0 <= i < items.len() ==> decodes_back(#[trigger] items[i]),
        payload_of(items).len() <= usize::MAX,
    ensures
        decode_items::<M>(payload_of(items)) == Some(items),
    decreases items.len(),
{
    if items.len() == 0 {
        assert(payload_of(items) =~= Seq::<u8>::empty());
    } else {
        let m = items[0];
        let rest = items.drop_first();
        assert(items =~= seq![m] + rest);
        lemma_payload_prepend(m, rest);
        let data = payload_of(items);
        assert(decodes_back(m));
        assert(data == m.encoding() + payload_of(rest));
        let n = m.encoding().len() as usize;
        assert(n == m.encoding().len());
        assert(M::decoding(m.encoding() + payload_of(rest)) == Some(
            (m, m.encoding().len() as usize),
        ));
        if rest.len() == 0 {
            assert(payload_of(rest) =~= Seq::<u8>::empty());
            assert(seq![m] =~= items);
        } else {
            assert(decodes_back(rest.last())) by {
                assert(rest.last() == items[items.len() - 1]);
            }
            assert forall|i: int| 0 <= i < rest.len() implies decodes_back(#[trigger] rest[i]) by {
                assert(rest[i] == items[i + 1]);
            }
            lemma_decode_all_roundtrip(rest);
            assert(data.skip(m.encoding().len() as int) =~= payload_of(rest));
        }
    }
}

/// Frames are read one after another: whenever a complete frame stands at
/// the front of `s`, the frames read from `s` are that frame followed by the
/// frames read from the bytes behind it; where none stands there, none is read.
pub proof fn lemma_frames_step(s: Seq<u8>)
    ensures
        parse_frame(s) is None ==> parse_frames(s) == Seq::<(FrameHeader, Seq<u8>)>::empty(),
        parse_frame(s) matches Some(f) ==> parse_frames(s) == seq![f] + parse_frames(
            s.skip(FRAME_HEADER_SIZE + f.0.payload_len),
        ),
{
}

/// A consistent frame in front of any bytes is read first, and then the
/// frames of those bytes.
pub proof fn lemma_frame_then_frames(f: (FrameHeader, Seq<u8>), rest: Seq<u8>)
    requires
        frame_consistent(f),
    ensures
        parse_frames(frame_bytes(f) + rest) == seq![f] + parse_frames(rest),
{
    let s = frame_bytes(f) + rest;
    lemma_frame_roundtrip(f, rest);
    lemma_header_roundtrip(f.0, f.1);
    assert(s.skip(FRAME_HEADER_SIZE + f.0.payload_len) =~= rest);
    lemma_frames_step(s);
}

/// The frames behind the first of consistent frames are consistent too.
proof fn lemma_consistent_tail(fs: Seq<(FrameHeader, Seq<u8>)>)
    requires
        fs.len() > 0,
        forall|i: int| 0 <= i < fs.len() ==> frame_consistent(#[trigger] fs[i]),
    ensures
        frame_consistent(fs[0]),
        forall|i: int|
            0 <= i < fs.drop_first().len() ==> frame_consistent(#[trigger] fs.drop_first()[i]),
{
    assert forall|i: int| 0 <= i < fs.drop_first().len() implies frame_consistent(
        #[trigger] fs.drop_first()[i],
    ) by {
        assert(fs.drop_first()[i] == fs[i + 1]);
    }
}

/// The bytes of a non-empty stream followed by `tail`: its first frame, then
/// the rest of the stream followed by `tail`.
proof fn lemma_stream_bytes_front(fs: Seq<(FrameHeader, Seq<u8>)>, tail: Seq<u8>)
    requires
        fs.len() > 0,
    ensures
        stream_bytes(fs) + tail == frame_bytes(fs[0]) + (stream_bytes(fs.drop_first()) + tail),
{
    assert(stream_bytes(fs) + tail =~= frame_bytes(fs[0]) + (stream_bytes(fs.drop_first())
        + tail));
}

/// Complete frames followed by bytes that hold no complete frame read back as
/// exactly those complete frames: an incomplete tail costs none of the frames
/// before it.
#[verifier::spinoff_prover]
pub proof fn lemma_stream_with_incomplete_tail(fs: Seq<(FrameHeader, Seq<u8>)>, tail: Seq<u8>)
    requires
        forall|i: int| 0 <= i < fs.len() ==> frame_consistent(#[trigger] fs[i]),
        parse_frame(tail) is None,
    ensures
        parse_frames(stream_bytes(fs) + tail) == fs,
    decreases fs.len(),
{
    if fs.len() == 0 {
        assert(stream_bytes(fs) + tail =~= tail) by {
            assert(stream_bytes(fs) =~= Seq::<u8>::empty());
        }
        lemma_frames_step(tail);
        assert(fs =~= Seq::<(FrameHeader, Seq<u8>)>::empty());
    } else {
        let tl = fs.drop_first();
        lemma_consistent_tail(fs);
        lemma_stream_with_incomplete_tail(tl, tail);
        lemma_stream_bytes_front(fs, tail);
        lemma_frame_then_frames(fs[0], stream_bytes(tl) + tail);
        assert(seq![fs[0]] + tl =~= fs);
    }
}

/// Decoding a payload fails as a whole when a decode step fails or consumes
/// nothing; when it succeeds on a non-empty payload, the first item is the
/// one decoded at the front, and the rest are the items decoded behind the
/// bytes it consumed (or none, when it consumed all of them).
pub proof fn lemma_decode_items_steps<M: WireMessage>(data: Seq<u8>)
    ensures
        data.len() == 0 ==> decode_items::<M>(data) == Some(Seq::<M>::empty()),
        data.len() > 0 && M::decoding(data) is None ==> decode_items::<M>(data) is None,
        M::decoding(data) matches Some((m, n)) ==> (data.len() > 0 && n == 0
            ==> decode_items::<M>(data) is None),
        M::decoding(data) matches Some((m, n)) ==> (data.len() > 0 && n > 0 && n >= data.len()
            ==> decode_items::<M>(data) == Some(seq![m])),
        M::decoding(data) matches Some((m, n)) ==> (data.len() > 0 && 0 < n < data.len()
            ==> decode_items::<M>(data) == (match decode_items::<M>(data.skip(n as int)) {
            None => None,
            Some(rest) => Some(seq![m] + rest),
        })),
{
}

/// A successful decode of a non-empty payload yields at least one item, and
/// its first item is what a decode at the front of the payload gives.
pub proof fn lemma_decode_items_nonempty<M: WireMessage>(data: Seq<u8>)
    requires
        data.len() > 0,
        decode_items::<M>(data) is Some,
    ensures
        decode_items::<M>(data).unwrap().len() > 0,
        M::decoding(data) matches Some((m, n)) && n > 0 && decode_items::<M>(data).unwrap()[0]
            == m,
{
    lemma_decode_items_steps::<M>(data);
    let (m, n) = M::decoding(data).unwrap();
    if n < data.len() {
        let rest = decode_items::<M>(data.skip(n as int)).unwrap();
        assert((seq![m] + rest)[0] == m);
    }
}

/// The frame written for `items` of a message type reads back with a header
/// that carries the type's tag, the given sequence number and the payload's
/// length, and with the items' encodings as payload.
pub proof fn lemma_encoded_frame_header<M: WireMessage>(sequence: u32, items: Seq<M>)
    requires
        payload_of(items).len() <= u32::MAX,
    ensures
        parse_header(frame_of(sequence, items)) == Some(
            FrameHeader {
                msg_type: M::MSG_TYPE,
                sequence: sequence,
                payload_len: payload_of(items).len() as u32,
            },
        ),
        frame_of(sequence, items)[0] == M::MSG_TYPE,
        parse_frame(frame_of(sequence, items)) matches Some(f) && f.0.msg_type == M::MSG_TYPE
            && f.0.sequence == sequence && f.0.payload_len == payload_of(items).len() && f.1
            == payload_of(items),
{
    let h = frame_header_of(sequence, items);
    lemma_header_roundtrip(h, payload_of(items));
    let f = (h, payload_of(items));
    lemma_frame_roundtrip(f, Seq::empty());
    assert(frame_bytes(f) + Seq::<u8>::empty() =~= frame_of(sequence, items));
}

} // verus!
