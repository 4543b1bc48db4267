//! Peer discovery and duplex messaging over a connectionless, broadcast-capable
//! link: a bounded peer registry with admission rules, and the decisions that the
//! listening, broadcasting and probing tasks take on each event.
pub mod address;
pub mod peer_table;
pub mod tasks;
