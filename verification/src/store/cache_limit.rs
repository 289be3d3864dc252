//! Setting the cache limit.
use vstd::prelude::*;
use crate::store::Store;

verus! {

impl<K, V> Store<K, V> {
    /// Sets the cache limit, when it is at least 1,000,000 (the default and
    /// the minimum); a smaller limit leaves the limit as it was.
    pub fn cache_limit(&mut self, cache_limit: u64)
        ensures
            final(self).cache_limit == if cache_limit >= 1_000_000 {
                cache_limit
            } else {
                old(self).cache_limit
            },
            final(self).keys == old(self).keys,
            final(self).values == old(self).values,
            final(self).graves == old(self).graves,
            final(self).tables == old(self).tables,
            final(self).cache_size == old(self).cache_size,
            final(self).log_len == old(self).log_len,
            final(self).directory == old(self).directory,
    {
        if cache_limit >= 1_000_000 {
            self.cache_limit = cache_limit;
        }
    }
}

} // verus!
