//! Peer discovery, connection admission and ban enforcement for a
//! peer-to-peer network node: which remote peers the node knows of, which
//! it dials, which it accepts and which it refuses.
//!
//! The [`addrman`] module holds the address store, [`banman`] the ban
//! table, [`connman`] the connection scheduler and [`relay`] the queues of
//! outbound messages; [`service`] puts them behind one set of operations,
//! and [`codec`] gives the tables their stored form. Every operation takes
//! the current time and its seeds as plain values, so that what it does is
//! a function of the state it is called on.

pub mod addrman;
pub mod banman;
pub mod codec;
pub mod connman;
pub mod endpoint;
pub mod error;
pub mod hashing;
pub mod netaddr;
pub mod relay;
pub mod service;

pub use crate::endpoint::{Address, Service, ServiceFlags};
pub use crate::netaddr::{BanAddr, BanReason, NetAddr, Node, RawNetMessage, SubNet, Unknown};
pub use crate::service::{NetworkService, NetworkServiceImpl, RelayService, SyncService};
