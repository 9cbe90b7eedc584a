//! Zero-copy frame reader for decoding streams.
//!
//! [`FrameReader`] walks the frames of a byte buffer without copying.
//! Each [`FrameView`] gives the header and a slice of the payload.
use vstd::prelude::*;
use vstd::slice::slice_subrange;

use crate::protocol::{parse_header, FrameHeader, WireMessage, FRAME_HEADER_SIZE};

verus! {

/// The frame at the front of `s`: its header and its payload, if `s` holds
/// a whole header and the whole payload it announces.
pub open spec fn parse_frame(s: Seq<u8>) -> Option<(FrameHeader, Seq<u8>)> {
    match parse_header(s) {
        None => None,
        Some(h) => if s.len() < FRAME_HEADER_SIZE + h.payload_len {
            None
        } else {
            Some((h, s.subrange(FRAME_HEADER_SIZE as int, FRAME_HEADER_SIZE + h.payload_len)))
        },
    }
}

/// The frames that a reader yields from `s`, in order: frame after frame,
/// until the rest is empty or holds no complete frame.
pub open spec fn parse_frames(s: Seq<u8>) -> Seq<(FrameHeader, Seq<u8>)>
    decreases s.len(),
{
    match parse_header(s) {
        None => Seq::empty(),
        Some(h) => if s.len() < FRAME_HEADER_SIZE + h.payload_len {
            Seq::empty()
        } else {
            seq![(h, s.subrange(FRAME_HEADER_SIZE as int, FRAME_HEADER_SIZE + h.payload_len))]
                + parse_frames(s.skip(FRAME_HEADER_SIZE + h.payload_len))
        },
    }
}

/// The items that `decode_all` yields from a payload: decode at the front,
/// continue behind the consumed bytes, until the payload is used up.
/// A failed decode, or one that consumes nothing, makes the whole result `None`.
pub open spec fn decode_items<M: WireMessage>(data: Seq<u8>) -> Option<Seq<M>>
    decreases data.len(),
{
    if data.len() == 0 {
        Some(Seq::empty())
    } else {
        match M::decoding(data) {
            None => None,
            Some((m, n)) => if n == 0 {
                None
            } else if n >= data.len() {
                Some(seq![m])
            } else {
                match decode_items::<M>(data.skip(n as int)) {
                    None => None,
                    Some(rest) => Some(seq![m] + rest),
                }
            },
        }
    }
}

/// `rest` behind `prefix`, if there is a `rest`.
pub open spec fn prepend_items<M>(prefix: Seq<M>, rest: Option<Seq<M>>) -> Option<Seq<M>> {
    match rest {
        None => None,
        Some(r) => Some(prefix + r),
    }
}

/// Zero-copy view of a single frame within a buffer.
#[derive(Debug)]
pub struct FrameView<'a> {
    /// Parsed frame header.
    pub header: FrameHeader,
    /// Raw payload bytes (not including the header).
    pub payload: &'a [u8],
}

impl<'a> View for FrameView<'a> {
    type V = (FrameHeader, Seq<u8>);

    open spec fn view(&self) -> (FrameHeader, Seq<u8>) {
        (self.header, self.payload@)
    }
}

impl<'a> FrameView<'a> {
    /// Decode all items of type `M` from this frame's payload.
    ///
    /// Returns `None` if any item fails to decode, or consumes no bytes.
    pub fn decode_all<M: WireMessage>(&self) -> (r: Option<Vec<M>>)
        ensures
            match r {
                Some(v) => decode_items::<M>(self.payload@) == Some(v@),
                None => decode_items::<M>(self.payload@) is None,
            },
    {
        let mut items: Vec<M> = Vec::new();
        let mut offset: usize = 0;
        let len = self.payload.len();
        assert(self.payload@.skip(0) =~= self.payload@);
        while offset < len
            invariant
                len == self.payload@.len(),
                offset <= len,
                decode_items::<M>(self.payload@) == prepend_items(
                    items@,
                    decode_items::<M>(self.payload@.skip(offset as int)),
                ),
            decreases len - offset,
        {
            let rest = slice_subrange(self.payload, offset, len);
            assert(rest@ =~= self.payload@.skip(offset as int));
            match M::decode(rest) {
                None => {
                    return None;
                },
                Some((item, consumed)) => {
                    if consumed == 0 {
                        return None;
                    }
                    let ghost old_items = items@;
                    items.push(item);
                    if consumed >= len - offset {
                        offset = len;
                        assert(self.payload@.skip(offset as int) =~= Seq::<u8>::empty());
                        assert(old_items + seq![item] =~= items@ + Seq::<M>::empty());
                    } else {
                        assert(self.payload@.skip(offset as int).skip(consumed as int)
                            =~= self.payload@.skip(offset + consumed));
                        offset = offset + consumed;
                        assert forall|r: Seq<M>| #[trigger] (old_items + (seq![item] + r)) == items@
                            + r by {
                            assert(old_items + (seq![item] + r) =~= items@ + r);
                        }
                    }
                },
            }
        }
        assert(self.payload@.skip(offset as int) =~= Seq::<u8>::empty());
        assert(items@ + Seq::<M>::empty() =~= items@);
        Some(items)
    }

    /// Number of fixed-size items in the payload (payload length / item size),
    /// or 0 for an item size of 0.
    pub fn item_count(&self, item_size: usize) -> (n: usize)
        ensures
            n == if item_size == 0 {
                0
            } else {
                self.payload@.len() / (item_size as nat)
            },
    {
        if item_size == 0 {
            return 0;
        }
        self.payload.len() / item_size
    }
}

/// Reader over the frames in a byte buffer.
///
/// Yields [`FrameView`]s that borrow the payload without copying.
pub struct FrameReader<'a> {
    data: &'a [u8],
    offset: usize,
}

impl<'a> FrameReader<'a> {
    #[verifier::type_invariant]
    spec fn cursor_in_bounds(self) -> bool {
        self.offset <= self.data@.len()
    }

    /// The whole buffer the reader walks.
    pub closed spec fn buffer(&self) -> Seq<u8> {
        self.data@
    }

    /// How many bytes of the buffer the reader has consumed.
    pub closed spec fn cursor(&self) -> nat {
        self.offset as nat
    }

    /// The bytes not yet consumed.
    pub open spec fn unread(&self) -> Seq<u8> {
        self.buffer().skip(self.cursor() as int)
    }

    /// Create a reader over a byte buffer containing concatenated frames.
    pub fn new(data: &'a [u8]) -> (r: Self)
        ensures
            r.buffer() == data@,
            r.cursor() == 0,
    {
        Self { data, offset: 0 }
    }

    /// Read the next frame, advancing the cursor past it.
    ///
    /// Returns `None`, and leaves the cursor where it was, when the unread
    /// bytes are empty or hold an incomplete frame.
    pub fn next_frame(&mut self) -> (r: Option<FrameView<'a>>)
        ensures
            final(self).buffer() == old(self).buffer(),
            match parse_frame(old(self).unread()) {
                None => r is None && final(self).cursor() == old(self).cursor(),
                Some((h, p)) => {
                    &&& r matches Some(v) && v.header == h && v.payload@ == p
                    &&& final(self).cursor() == old(self).cursor() + FRAME_HEADER_SIZE
                        + h.payload_len
                },
            },
    {
        proof {
            use_type_invariant(&*self);
        }
        let remaining = slice_subrange(self.data, self.offset, self.data.len());
        assert(remaining@ =~= self.unread());
        let header = match FrameHeader::read(remaining) {
            None => {
                return None;
            },
            Some(h) => h,
        };
        let payload_len = header.payload_len as usize;
        if remaining.len() - FRAME_HEADER_SIZE < payload_len {
            return None;
        }
        let payload_end = FRAME_HEADER_SIZE + payload_len;
        let payload = slice_subrange(remaining, FRAME_HEADER_SIZE, payload_end);
        self.offset = self.offset + payload_end;
        Some(FrameView { header, payload })
    }

    /// Number of bytes remaining in the buffer.
    pub fn remaining(&self) -> (n: usize)
        ensures
            n == self.buffer().len() - self.cursor(),
    {
        proof {
            use_type_invariant(self);
        }
        self.data.len() - self.offset
    }

    /// Whether the reader has consumed all bytes.
    pub fn is_exhausted(&self) -> (b: bool)
        ensures
            b == (self.cursor() >= self.buffer().len()),
    {
        proof {
            use_type_invariant(self);
        }
        self.remaining() == 0
    }

    /// Read all remaining frames, in order, consuming the reader.
    pub fn frames(self) -> (v: Vec<FrameView<'a>>)
        ensures
            v@.map_values(|f: FrameView<'a>| f@) == parse_frames(self.unread()),
    {
        proof {
            use_type_invariant(&self);
        }
        let ghost all = parse_frames(self.unread());
        let mut reader = self;
        let mut out: Vec<FrameView<'a>> = Vec::new();
        assert(out@.map_values(|f: FrameView<'a>| f@) + all =~= all);
        loop
            invariant
                reader.buffer() == self.buffer(),
                reader.cursor() <= reader.buffer().len(),
                all == out@.map_values(|f: FrameView<'a>| f@) + parse_frames(reader.unread()),
            ensures
                all == out@.map_values(|f: FrameView<'a>| f@),
            decreases reader.buffer().len() - reader.cursor(),
        {
            let ghost before = reader.unread();
            let ghost before_cursor = reader.cursor();
            let ghost before_out = out@;
            match reader.next_frame() {
                None => {
                    assert(parse_frames(before) =~= Seq::<(FrameHeader, Seq<u8>)>::empty());
                    assert(out@.map_values(|f: FrameView<'a>| f@) + parse_frames(before)
                        =~= out@.map_values(|f: FrameView<'a>| f@));
                    break;
                },
                Some(f) => {
                    let ghost h = f.header;
                    assert(reader.unread() =~= before.skip(FRAME_HEADER_SIZE + h.payload_len));
                    out.push(f);
                    assert(out@.map_values(|f: FrameView<'a>| f@) =~= before_out.map_values(
                        |f: FrameView<'a>| f@,
                    ).push(f@));
                    assert(all =~= out@.map_values(|f: FrameView<'a>| f@) + parse_frames(
                        reader.unread(),
                    ));
                },
            }
        }
        out
    }
}

} // verus!
