//! A consistent-hashing ring with virtual nodes.
//!
//! Keys and nodes are placed on a circle of 64-bit positions by a hash
//! oracle. Every node stands at several positions, its virtual nodes, and a
//! key belongs to the node at the first position at or after the key's
//! digest. When a node joins or leaves, or the number of virtual nodes
//! changes, the ring says which ranges of the circle pass from which node to
//! which: it computes these transfers and moves no data itself.
pub mod consistent_hashing;
pub mod consistent_hashing_faster;
pub mod hash_oracle;
pub mod identity_hasher;
pub mod invariants;
pub mod label;
pub mod laws;
pub mod movement;
pub mod placement;
pub mod ring;
pub mod transaction;
