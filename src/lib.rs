//! A digital-asset ledger: a registry of unique games with a small
//! marketplace, and a multi-class balance ledger grouped by collection.

pub mod collections;
pub mod games;
pub mod hashing;
