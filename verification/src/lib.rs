//! Fixed-capacity UTF-8 strings with a length-prefixed wire codec, a tagged
//! message envelope, and a bounds-checked shared-memory bridge.

pub mod bounded;
pub mod bridge;
pub mod codec;
pub mod message;
pub mod sender;
pub mod text;

pub use bounded::{is_utf8_char_boundary, BoundedString, CHAR_LIMIT};
pub use bridge::{checked_offset, BoundsError, MemoryRegion, ReadMessageError, ReadTextError};
pub use codec::CodecError;
pub use message::Message;
pub use sender::Sender;
