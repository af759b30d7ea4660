//! Inclusion engine of a sharded-chain relay layer.
//!
//! The engine decides when a proposed shard block (a candidate) becomes
//! backed, tracks its availability through validator attestations, and
//! enacts it onto the shard's head once a supermajority of the validator
//! set has certified that the block's data is retrievable.

pub mod bits;
pub mod bridge;
pub mod engine;
pub mod paras;
pub mod store;
pub mod types;
