//! A verified rendezvous service engine for a peer-to-peer network.
//!
//! Peers register their reachable network addresses under a namespace at a
//! rendezvous point, and other peers discover registered peers by namespace.
//! This crate holds the protocol engine: the registration table with its
//! namespace index ([`store`], [`index`]), TTL-driven expiry ([`expiry`]),
//! paginated discovery, per-stream protocol dispatch ([`session`]), the
//! lifecycle event stream ([`events`]), and the decision logic of the secure
//! transport composition ([`transport`]). Every operation carries a contract
//! that pins down its effect on the service state, and [`laws`] states and
//! proves the properties that hold across operations: idempotence,
//! at-most-one registration per pair, the TTL bound on discovery,
//! completeness of pagination, and convergence of interleaved operations.

pub mod events;
pub mod expiry;
pub mod index;
pub mod laws;
pub mod session;
pub mod store;
pub mod transport;
pub mod types;

pub use events::Event;
pub use session::{LogicalStream, ProtocolError, Request, Response, Session};
pub use store::Store;
pub use transport::{HandshakeError, Multiplexer, SecureConnection};
pub use types::{
    Addresses, Config, Cursor, Multiaddr, Namespace, PeerId, RegisterError, Registration,
};
