//! Synchronization core for collaborative text editing: the server-side room
//! authority and peer registry, the client-side replicated document wrapper,
//! the delta bridge and the binary message envelope.

pub mod arena;
pub mod client;
pub mod crdt;
pub mod delta;
pub mod document;
pub mod ids;
pub mod room;
pub mod text;
pub mod wire;
pub mod session;
