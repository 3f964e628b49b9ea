//! Agent-side core of a line-delimited message protocol for a turn-based
//! falling-block puzzle engine: the message schema, the wire framing, and the
//! session state machine that drives turn dispatch.
//!
//! The transport carries one self-contained message per line.  Incoming lines
//! are decoded by [`codec::decode_incoming`]; the session applies each message
//! in arrival order through [`session::Session::step`], which yields at most
//! one outgoing response per message; responses are encoded by
//! [`codec::encode_outgoing`].

pub mod codec;
pub mod data;
pub mod protocol;
pub mod elem;
pub mod session;
pub mod tags;
pub mod wire;
