//! Shared-world object replication: a framed wire codec, the relay server's
//! room / ownership / spawn-cache bookkeeping, and the client-side
//! reconciliation that mirrors replicated objects into a scene graph.

pub mod behavior;
pub mod codec;
pub mod collada;
pub mod config;
pub mod error;
pub mod message;
pub mod network;
pub mod pump;
pub mod render;
pub mod scene;
pub mod server;
pub mod smap;
pub mod tracer;
