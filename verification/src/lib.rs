//! Core of a display-server protocol host: client admission and teardown,
//! per-client protocol object tables, shared-memory pool bookkeeping,
//! message framing and routing, and outbound backpressure. All state is
//! plain in-memory data mutated from a single thread; the socket I/O that
//! feeds it lives outside this crate.

pub mod errors;
pub mod objects;
pub mod outbound;
pub mod reactor;
pub mod registry;
pub mod server;
pub mod shm;
pub mod wire;
