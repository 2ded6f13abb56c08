//! Verified core of a Minecraft Bedrock LAN relay: the rendezvous protocol,
//! the relay's bridge bookkeeping, the pong rewriting used by both ends of a
//! room, and a bounded byte ring.
pub mod ring_buffer;
pub mod decimal;
pub mod mcpe;
pub mod protocol;
pub mod server;
pub mod pipes;
