//! Queries on a store kept in linked-list files.
use vstd::prelude::*;

pub mod get_all;

verus! {
} // verus!
