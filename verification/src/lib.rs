//! Verified core of a small voxel game server.
//!
//! The crate holds the pieces of the server that are pure state and logic:
//! the slot-based allocator that hands out stable integer identities
//! ([`slotmap`]), the binary wire codec ([`wire`]), the per-connection
//! protocol state machine ([`client`], [`new_connections`], [`request`],
//! [`response`]), and the world model with its chunk storage and tick
//! maintenance ([`chunk`], [`world`]) — every item of it verified.
//!
//! Sockets, readiness polling and logging live outside the library; callers
//! feed received bytes in and carry produced bytes out.

pub mod chunk;
pub mod client;
pub mod fixed;
pub mod nbt;
pub mod new_connections;
pub mod request;
pub mod response;
pub mod slotmap;
pub mod types;
pub mod world;
pub mod wire;
