//! Content-addressed blob storage with sealed, indexed packs, and
//! hierarchical-deterministic key derivation for wallet addresses.

pub mod hash;
pub mod index;
pub mod pack;
pub mod store;
pub mod hd;
