//! Framing for a child's standard output, standard error and exit status
//! over a single ordered byte stream.
//!
//! A frame on the wire is one kind byte, four big-endian bytes that hold
//! either a payload length or a signed exit code, and then the payload.
//! `codec` turns frames into bytes and back, one frame at a time and
//! resumably; `session` holds the decisions of the two ends of a session.

pub mod buffer;
pub mod codec;
pub mod frame;
pub mod session;
pub mod wire;

pub use frame::{Frame, FrameKind, FrameModel, MAX};
