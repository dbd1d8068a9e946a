//! Search for near-perfect hash functions over a fixed set of byte strings.
//!
//! The generated functions are built on the keyed primitive in [`hash::SipHasher`]:
//! [`gen::search`] finds a local key and a power-of-two table size for which the
//! collision density of the items stays within a threshold, and [`gen::gen_hash_fn`]
//! also places the items in their buckets.
pub mod gen;
pub mod hash;
