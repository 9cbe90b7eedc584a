//! Binary wire protocol: self-contained frames with a type tag, a sequence
//! number and a length-prefixed payload, plus a reader and a stream buffer.
pub mod decode;
pub mod field_layout;
pub mod laws;
pub mod protocol;
pub mod stream;

pub use decode::{FrameReader, FrameView};
pub use protocol::{
    encode_frame, encode_frame_into, encode_frame_with_seq, FrameHeader, WireMessage,
    FRAME_HEADER_SIZE,
};
pub use stream::{BufferFull, StreamBuffer};
