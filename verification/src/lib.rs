//! NeutronDB: a log-structured merge-tree key-value store, with its
//! byte formats, bloom filters and store bookkeeping verified.
use vstd::prelude::*;

pub mod astro;
pub mod bloom;
pub mod bloom_filter;
pub mod bytes;
pub mod entries;
pub mod error;
pub mod linked_list;
pub mod list;
pub mod list_store;
pub mod neutron;
pub mod query;
pub mod store;
pub mod text_store;
pub mod types;
pub mod hashes;

verus! {
} // verus!
