//! Erlang external term format codec and node distribution session logic.
//!
//! The codec turns [`term::Term`] values into their tagged binary form and back.
//! The session modules hold the decisions of the distribution handshake and of
//! the framed message exchange as pure functions from state and event to state
//! and action; the byte stream itself is driven by the caller.

pub mod encoding;
pub mod wire;
pub mod number;
pub mod term;
pub mod encode;
pub mod decode;
pub mod laws;
pub mod digest;
pub mod session;
pub mod frame;
pub mod buffer;
pub mod node;
