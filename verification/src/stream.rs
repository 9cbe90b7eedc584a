//! Stream buffer for accumulate-and-drain patterns.
//!
//! Producers push wire messages; each push becomes one frame with an
//! auto-incremented per-type sequence number. The consumer calls
//! [`drain`](StreamBuffer::drain) to take every accumulated frame as one
//! buffer of concatenated frames.
use vstd::prelude::*;

use crate::laws::lemma_frame_len;
use crate::protocol::{
    encode_frame_into, frame_of, payload_of, payload_size, WireMessage, FRAME_HEADER_SIZE,
};

verus! {

/// Error returned by [`StreamBuffer::try_push`] and [`StreamBuffer::try_push_one`]
/// when the buffer would exceed the configured maximum size.
#[derive(Debug, Clone, Copy, PartialEq, Eq, Structural)]
pub struct BufferFull;

/// Number of message types, and so of sequence counters.
pub const MSG_TYPE_COUNT: usize = 256;

/// The counters of a fresh buffer: zero for every message type.
pub open spec fn zero_counters() -> Seq<u32> {
    Seq::new(MSG_TYPE_COUNT as nat, |i: int| 0u32)
}

/// The sequence number that follows `x`; it wraps around after `u32::MAX`.
pub open spec fn next_sequence(x: u32) -> u32 {
    if x == u32::MAX {
        0
    } else {
        (x + 1) as u32
    }
}

/// Calls `Vec::capacity`. Nothing is claimed of the result: it is whatever
/// the allocator gave, and serves only to size the next allocation.
/// Sequence numbers count up by one, and wrap around to 0 only after `u32::MAX`.
pub proof fn lemma_next_sequence(x: u32)
    ensures
        x < u32::MAX ==> next_sequence(x) == x + 1,
        x == u32::MAX ==> next_sequence(x) == 0,
{
}

#[verifier::external_body]
fn vec_capacity(v: &Vec<u8>) -> usize {
    v.capacity()
}

/// Accumulator for binary wire frames.
///
/// Methods that change the buffer take `&mut self`; to share one buffer
/// between producer threads, keep it behind a lock.
pub struct StreamBuffer {
    buf: Vec<u8>,
    sequences: [u32; 256],
    max_bytes: Option<usize>,
}

impl StreamBuffer {
    /// The bytes buffered so far: the concatenated frames pushed since the last drain.
    pub closed spec fn bytes(&self) -> Seq<u8> {
        self.buf@
    }

    /// The next sequence number of each message type, indexed by the type tag.
    pub closed spec fn counters(&self) -> Seq<u32> {
        self.sequences@
    }

    /// The maximum number of buffered bytes, if the buffer is bounded.
    pub closed spec fn limit(&self) -> Option<usize> {
        self.max_bytes
    }

    /// Whether `frame_len` more bytes stay within the limit.
    pub open spec fn has_room(&self, frame_len: int) -> bool {
        match self.limit() {
            None => true,
            Some(max) => self.bytes().len() + frame_len <= max,
        }
    }

    /// The counters after one frame of type `t` has been pushed.
    pub open spec fn counters_after_push(&self, t: u8) -> Seq<u32> {
        self.counters().update(t as int, next_sequence(self.counters()[t as int]))
    }

    /// Whether the buffered bytes are within the limit, if there is one.
    pub open spec fn within_limit(&self) -> bool {
        match self.limit() {
            None => true,
            Some(max) => self.bytes().len() <= max,
        }
    }

    /// There is one sequence counter for each of the 256 message types.
    pub proof fn lemma_counter_table(&self)
        ensures
            self.counters().len() == MSG_TYPE_COUNT,
    {
    }

    /// Pushing a frame of type `t` advances the counter of `t` by one (wrapping
    /// only after `u32::MAX`) and leaves the counter of every other type as it was.
    pub proof fn lemma_counters_after_push(&self, t: u8)
        ensures
            self.counters_after_push(t).len() == MSG_TYPE_COUNT,
            self.counters()[t as int] < u32::MAX ==> self.counters_after_push(t)[t as int]
                == self.counters()[t as int] + 1,
            self.counters()[t as int] == u32::MAX ==> self.counters_after_push(t)[t as int] == 0,
            forall|u: int|
                0 <= u < MSG_TYPE_COUNT && u != t ==> #[trigger] self.counters_after_push(t)[u]
                    == self.counters()[u],
    {
    }

    /// Create a new stream buffer with default 64KB pre-allocation.
    pub fn new() -> (s: Self)
        ensures
            s.within_limit(),
            s.bytes() == Seq::<u8>::empty(),
            s.counters() == zero_counters(),
            s.limit() == None::<usize>,
    {
        Self::with_capacity(65_536)
    }

    /// Create a new stream buffer with a specific byte capacity.
    pub fn with_capacity(capacity: usize) -> (s: Self)
        ensures
            s.within_limit(),
            s.bytes() == Seq::<u8>::empty(),
            s.counters() == zero_counters(),
            s.limit() == None::<usize>,
    {
        let sequences = [0u32; 256];
        assert(sequences@ =~= zero_counters());
        Self { buf: Vec::with_capacity(capacity), sequences, max_bytes: None }
    }

    /// Create a bounded stream buffer. Pushes beyond `max_bytes` fail
    /// (via `try_push` / `try_push_one`) or are accepted anyway (via `push` / `push_one`).
    pub fn bounded(capacity: usize, max_bytes: usize) -> (s: Self)
        ensures
            s.within_limit(),
            s.bytes() == Seq::<u8>::empty(),
            s.counters() == zero_counters(),
            s.limit() == Some(max_bytes),
    {
        let sequences = [0u32; 256];
        assert(sequences@ =~= zero_counters());
        Self { buf: Vec::with_capacity(capacity), sequences, max_bytes: Some(max_bytes) }
    }

    /// Hand out the next sequence number of type `t` and advance its counter.
    fn take_sequence(&mut self, t: u8) -> (s: u32)
        ensures
            s == old(self).counters()[t as int],
            final(self).counters() == old(self).counters_after_push(t),
            final(self).bytes() == old(self).bytes(),
            final(self).limit() == old(self).limit(),
    {
        let idx = t as usize;
        let current = self.sequences[idx];
        let next = if current == u32::MAX {
            0
        } else {
            current + 1
        };
        self.sequences[idx] = next;
        current
    }

    /// Push one or more messages of the same type into the buffer.
    ///
    /// Each call with at least one item appends one frame, whose sequence
    /// number is the counter of `M::MSG_TYPE`; that counter then advances.
    /// An empty slice changes nothing.
    pub fn push<M: WireMessage>(&mut self, items: &[M])
        requires
            payload_of(items@).len() <= u32::MAX,
        ensures
            final(self).limit() == old(self).limit(),
            items@.len() == 0 ==> final(self).bytes() == old(self).bytes() && final(self).counters() == old(self).counters(),
            items@.len() > 0 ==> final(self).bytes() == old(self).bytes() + frame_of(
                old(self).counters()[M::MSG_TYPE as int],
                items@,
            ) && final(self).counters() == old(self).counters_after_push(M::MSG_TYPE),
    {
        if items.len() == 0 {
            return;
        }
        let seq = self.take_sequence(M::MSG_TYPE);
        encode_frame_into(&mut self.buf, seq, items);
    }

    /// Append the frame of the single item `item` under sequence number `sequence`.
    fn append_one<M: WireMessage>(&mut self, sequence: u32, item: &M)
        requires
            item.encoding().len() <= u32::MAX,
        ensures
            final(self).bytes() == old(self).bytes() + frame_of(sequence, seq![*item]),
            final(self).counters() == old(self).counters(),
            final(self).limit() == old(self).limit(),
    {
        let ghost items = seq![*item];
        assert(items.drop_last() =~= Seq::<M>::empty());
        assert(payload_of(Seq::<M>::empty()) =~= Seq::<u8>::empty());
        assert(items.last() == *item);
        assert(payload_of(items) =~= item.encoding());
        let payload_len = item.encoded_size();
        let header = crate::protocol::FrameHeader {
            msg_type: M::MSG_TYPE,
            sequence,
            payload_len: payload_len as u32,
        };
        header.write(&mut self.buf);
        item.encode(&mut self.buf);
        assert(self.buf@ =~= old(self).bytes() + frame_of(sequence, items));
    }

    /// Push a single message: one frame with one item.
    pub fn push_one<M: WireMessage>(&mut self, item: &M)
        requires
            item.encoding().len() <= u32::MAX,
        ensures
            final(self).bytes() == old(self).bytes() + frame_of(
                old(self).counters()[M::MSG_TYPE as int],
                seq![*item],
            ),
            final(self).counters() == old(self).counters_after_push(M::MSG_TYPE),
            final(self).limit() == old(self).limit(),
    {
        let seq = self.take_sequence(M::MSG_TYPE);
        self.append_one(seq, item);
    }

    /// Push a pre-encoded frame (raw bytes, header included), unchecked.
    pub fn push_raw(&mut self, frame_bytes: &[u8])
        ensures
            final(self).bytes() == old(self).bytes() + frame_bytes@,
            final(self).counters() == old(self).counters(),
            final(self).limit() == old(self).limit(),
    {
        let mut i: usize = 0;
        while i < frame_bytes.len()
            invariant
                i <= frame_bytes@.len(),
                self.bytes() == old(self).bytes() + frame_bytes@.take(i as int),
                self.counters() == old(self).counters(),
                self.limit() == old(self).limit(),
            decreases frame_bytes@.len() - i,
        {
            self.buf.push(frame_bytes[i]);
            assert(frame_bytes@.take(i + 1) =~= frame_bytes@.take(i as int).push(frame_bytes@[i as int]));
            i = i + 1;
        }
        assert(frame_bytes@.take(i as int) =~= frame_bytes@);
    }

    /// Drain the buffer, returning all accumulated frame bytes.
    ///
    /// Returns an empty `Vec` if nothing was pushed since the last drain.
    /// The caller receives the old allocation; the buffer gets a fresh one
    /// of the same capacity. Sequence counters are kept.
    pub fn drain(&mut self) -> (out: Vec<u8>)
        ensures
            final(self).within_limit(),
            out@ == old(self).bytes(),
            final(self).bytes() == Seq::<u8>::empty(),
            final(self).counters() == old(self).counters(),
            final(self).limit() == old(self).limit(),
    {
        let mut out = Vec::with_capacity(vec_capacity(&self.buf));
        std::mem::swap(&mut self.buf, &mut out);
        out
    }

    /// Number of bytes currently buffered.
    pub fn buffered_bytes(&self) -> (n: usize)
        ensures
            n == self.bytes().len(),
    {
        self.buf.len()
    }

    /// Whether the buffer holds no bytes.
    pub fn is_empty(&self) -> (b: bool)
        ensures
            b == (self.bytes().len() == 0),
    {
        self.buf.len() == 0
    }

    /// Whether a frame with a payload of `payload_len` bytes fits under the limit.
    pub fn has_room_for(&self, payload_len: usize) -> (b: bool)
        ensures
            b == self.has_room(FRAME_HEADER_SIZE + payload_len),
    {
        match self.max_bytes {
            None => true,
            Some(max) => {
                let used = self.buf.len();
                !(used > max || max - used < FRAME_HEADER_SIZE || max - used - FRAME_HEADER_SIZE
                    < payload_len)
            },
        }
    }

    /// Try to push one or more messages, respecting the maximum size.
    ///
    /// An empty slice succeeds and changes nothing. Otherwise, if the frame
    /// would take the buffer over its limit, returns `Err(BufferFull)` and
    /// changes nothing (the sequence counter does not advance); else pushes
    /// as [`push`](Self::push) does.
    pub fn try_push<M: WireMessage>(&mut self, items: &[M]) -> (r: Result<(), BufferFull>)
        requires
            payload_of(items@).len() <= usize::MAX,
            items@.len() > 0 && old(self).has_room(FRAME_HEADER_SIZE + payload_of(items@).len())
                ==> payload_of(items@).len() <= u32::MAX,
        ensures
            final(self).limit() == old(self).limit(),
            old(self).within_limit() ==> final(self).within_limit(),
            items@.len() == 0 ==> r is Ok && final(self).bytes() == old(self).bytes() && final(self).counters() == old(self).counters(),
            items@.len() > 0 && !old(self).has_room(FRAME_HEADER_SIZE + payload_of(items@).len())
                ==> r == Err::<(), BufferFull>(BufferFull) && final(self).bytes() == old(self).bytes() && final(self).counters() == old(self).counters(),
            items@.len() > 0 && old(self).has_room(FRAME_HEADER_SIZE + payload_of(items@).len())
                ==> r is Ok && final(self).bytes() == old(self).bytes() + frame_of(
                old(self).counters()[M::MSG_TYPE as int],
                items@,
            ) && final(self).counters() == old(self).counters_after_push(M::MSG_TYPE),
    {
        if items.len() == 0 {
            return Ok(());
        }
        let payload_len = payload_size(items);
        if !self.has_room_for(payload_len) {
            return Err(BufferFull);
        }
        let seq = self.take_sequence(M::MSG_TYPE);
        encode_frame_into(&mut self.buf, seq, items);
        proof {
            lemma_frame_len(old(self).counters()[M::MSG_TYPE as int], items@);
        }
        Ok(())
    }

    /// Try to push a single message, respecting the maximum size.
    ///
    /// Returns `Err(BufferFull)`, changing nothing, if the frame would take
    /// the buffer over its limit.
    pub fn try_push_one<M: WireMessage>(&mut self, item: &M) -> (r: Result<(), BufferFull>)
        requires
            old(self).has_room(FRAME_HEADER_SIZE + item.encoding().len()) ==> item.encoding().len()
                <= u32::MAX,
        ensures
            final(self).limit() == old(self).limit(),
            old(self).within_limit() ==> final(self).within_limit(),
            !old(self).has_room(FRAME_HEADER_SIZE + item.encoding().len()) ==> r == Err::<
                (),
                BufferFull,
            >(BufferFull) && final(self).bytes() == old(self).bytes() && final(self).counters()
                == old(self).counters(),
            old(self).has_room(FRAME_HEADER_SIZE + item.encoding().len()) ==> r is Ok && final(self).bytes() == old(self).bytes() + frame_of(
                old(self).counters()[M::MSG_TYPE as int],
                seq![*item],
            ) && final(self).counters() == old(self).counters_after_push(M::MSG_TYPE),
    {
        let payload_len = item.encoded_size();
        if !self.has_room_for(payload_len) {
            return Err(BufferFull);
        }
        let seq = self.take_sequence(M::MSG_TYPE);
        self.append_one(seq, item);
        proof {
            assert(seq![*item].drop_last() =~= Seq::<M>::empty());
            assert(payload_of(Seq::<M>::empty()) =~= Seq::<u8>::empty());
            assert(payload_of(seq![*item]) =~= item.encoding());
            lemma_frame_len(old(self).counters()[M::MSG_TYPE as int], seq![*item]);
        }
        Ok(())
    }

    /// Current sequence counter of a given message type.
    pub fn sequence_of(&self, msg_type: u8) -> (s: u32)
        ensures
            s == self.counters()[msg_type as int],
    {
        self.sequences[msg_type as usize]
    }
}

impl Default for StreamBuffer {
    fn default() -> (s: Self)
        ensures
            s.within_limit(),
            s.bytes() == Seq::<u8>::empty(),
            s.counters() == zero_counters(),
            s.limit() == None::<usize>,
    {
        Self::new()
    }
}

} // verus!
