//! A multicast-DNS (mDNS) service-discovery library.
//!
//! The crate contains the pure core of an mDNS client: encoding query
//! packets, decoding response packets, and a registry of discovered
//! services with time-based expiry. Sockets, threads and clocks live in
//! the surrounding application; the core works on plain bytes and
//! millisecond timestamps, and every function here is verified.

pub mod laws;
pub mod packet;
pub mod query;
pub mod registry;
