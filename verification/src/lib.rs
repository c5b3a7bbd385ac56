//! Ancillary control messages of Unix-domain sockets: a decoder that walks a
//! control-message area and an encoder that appends messages to a byte sink.
//!
//! The area is laid out as Linux lays it out: each message is a header of one
//! machine word and two 32-bit integers, followed by its payload, and every
//! header starts on a word boundary. All integers stand in the byte order of
//! the running machine.

pub mod decode;
pub mod encode;
pub mod error;
pub mod kinds;
pub mod laws;
pub mod message;
pub mod native;
pub mod sink;
pub mod wire;

pub use decode::{iterator, ControlMsgIter};
pub use encode::{builder, ControlMsgBuilder};
pub use error::Error;
pub use kinds::Kinds;
pub use message::{CMsg, ControlMsg, Ucred};
pub use sink::{Cursor, Sink};
