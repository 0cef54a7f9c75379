//! DRISL serialization: the deterministic subset of CBOR.
pub mod cbor;
pub mod error;
pub mod ser;
pub mod value;
