//! A Bolt v5.x wire protocol library: the PackStream value codec, chunked
//! message framing, version negotiation, the per-connection state machine and
//! the decisions of a Bolt server.
pub mod backend;
pub mod chunk;
pub mod connection;
pub mod decode;
pub mod error;
pub mod handshake;
pub mod message;
pub mod packstream;
pub mod session_manager;
pub mod state_machine;
pub mod value;
pub mod version;
