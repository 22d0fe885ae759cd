//! Peer-discovery and presence-tracking over IPv4 multicast.
//!
//! The crate holds the discovery core of a fleet of screen-broadcasting
//! nodes: a length-limited datagram frame codec with fragmentation and
//! reassembly, a node roster driven by a command model, and a persistent
//! JSON-backed configuration store.  The surrounding daemon (sockets,
//! timers, the command channel) lives outside the library and feeds it
//! plain values.


pub mod cleaner;
pub mod command;
pub mod config;
pub mod config_json;
pub mod frame;
pub mod frame_cache;
pub mod node;
pub mod node_codec;
pub mod node_holder;
pub mod platform;
pub mod snowflake;
pub mod storage;
pub mod strutil;
pub mod transport;
