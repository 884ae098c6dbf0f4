//! Peer discovery over a local network: each node announces itself on a
//! multicast group, listens for announcements from peers, keeps a registry of
//! currently known peers, and evicts peers that stop announcing.
//!
//! This crate holds the verified core: the announcement wire codec, the peer
//! registry with its liveness and alias rules, the listener and sweeper
//! decision logic, and the bounded notification queue. The surrounding
//! process (sockets, timers, terminal) drives these functions from outside.

pub mod addr;
pub mod cli;
pub mod codec;
pub mod identity;
pub mod notify;
pub mod listener;
pub mod registry;
pub mod roundtrip;
pub mod text;

pub use addr::Ipv4;
