//! Conversions of stored keys and values to and from bytes.
pub mod into_bytes;
pub mod try_from_bytes;
