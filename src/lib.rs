//! Peer-overlay membership protocol: wire format, message model, protocol
//! negotiation, per-connection handler, peer store and mesh maintenance.
pub mod varint;
pub mod message;
pub mod wire;
pub mod codec;
pub mod store;
pub mod mesh;
pub mod protocol;
pub mod handler;
