//! Content identifiers (CIDs) and the DRISL deterministic CBOR encoding.
pub mod base32;
pub mod cid;
pub mod drisl;
