//! Mapping a function over the store's entries.
use vstd::prelude::*;
use crate::error::NeutronError;
use crate::store::Store;

verus! {

impl<K, V> Store<K, V> {
    /// Maps a function over the store's entries. The function is not
    /// called: the result is always an empty list.
    pub fn map<T, F>(&self, _f: F) -> (r: Result<Vec<T>, NeutronError>)
        where
            F: Fn(K, V) -> T,
        ensures
            r is Ok && r->Ok_0@.len() == 0,
    {
        Ok(Vec::new())
    }
}

} // verus!
