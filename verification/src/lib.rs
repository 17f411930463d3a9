//! One node of a gossip network: a crash-durable deduplicating store of
//! broadcast values, an additively-merged neighbor table, and the request
//! router that disseminates every received value to the known peers.

pub mod db;
pub mod neighbors;
pub mod node;
