//! Core of a Kademlia-style distributed hash table node: a routing table of
//! k-buckets keyed by XOR distance, a bounded local key-value store whose
//! entry lifetimes shrink with distance, and a reception pipeline that turns
//! the node's broadcast channel of inbound events into a filterable,
//! deadline-bounded sequence of observed RPCs.

pub mod hash;
pub mod routing;
pub mod clock;
pub mod storage;
pub mod receptions;
