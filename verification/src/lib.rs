//! Core of a peer-to-peer overlay networking endpoint: a datagram-based,
//! encrypted, multiplexed transport that carries multiple logical byte
//! streams over a single UDP socket, mediated by a broker that matches
//! peers and relays connection requests.
//!
//! This crate holds the verified control plane: the wire packet codec, the
//! path discovery and migration policy, the broker-mediated connect state
//! machines, the stream message framing, and the subscriber dispatch rules.
//! Socket I/O, the reliable channel engine, the Noise handshake and the
//! protobuf serialisation are external collaborators driven by a thin
//! unverified loop around this crate.

pub mod endpoint;
pub mod error;
pub mod paths;
pub mod packet;
pub mod identity;
pub mod proto;
pub mod subscriber;
pub mod wire;

pub use error::Error;
pub use identity::Identity;
pub use identity::Secret;
