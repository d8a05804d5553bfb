//! A consistent-hashing ring with virtual nodes, the transactions that move
//! key ranges between nodes when the ring changes, and the small pieces of
//! text handling that the ring's server uses.

pub mod decimal;
pub mod transaction;
pub mod consistent_hashing;
pub mod ring_laws;
pub mod count_laws;
pub mod vector_consistent_hashing;
pub mod identity_hasher;
pub mod server_transaction;
pub mod exclusives;
pub mod text;
pub mod ip;
pub mod ecs;
pub mod routes;
pub mod lookup;
