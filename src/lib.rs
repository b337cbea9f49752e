//! A peer registry and broadcast layer for nodes that talk over a secure,
//! multiplexed stream transport: the envelope and its wire format, one
//! envelope per stream, the registry of joined peers, fan-out to every peer
//! but the sender, the life of a connection from handshake to close, and
//! heartbeats.
pub mod message;
pub mod text;
pub mod codec;
pub mod registry;
pub mod broadcast;
pub mod frame;
pub mod lifecycle;
pub mod heartbeat;
