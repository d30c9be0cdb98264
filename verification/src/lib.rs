//! A DNS-driven split-tunnel router library.
//!
//! The crate holds the verified core of the router: IPv4 prefix arithmetic,
//! the CIDR-aggregating route table, the DNS response cache, the zone
//! matcher, the upstream failover discipline, the TCP message framing, and
//! configuration validation. I/O (sockets, netlink, files) lives outside.

use vstd::prelude::*;

pub mod aggregator;
pub mod cache;
pub mod config;
pub mod error;
pub mod failover;
pub mod framing;
pub mod manager;
pub mod matcher;
pub mod net;
pub mod pattern;
pub mod reload;
pub mod service;
pub mod text;
pub mod ttl;

verus! {

} // verus!
