use vstd::prelude::*;
use vstd::string::{StrSliceExecFns, StringExecFns};

verus! {

/// Holds a cache backend and builds the keys under which tokens are stored.
/// The backend's storage operations live with the surrounding program; this
/// type only carries the backend and the key discipline.
#[derive(Debug, Clone)]
pub struct CacheManager<C> {
    cache: C,
}

impl<C> CacheManager<C> {
    /// A manager over the given backend.
    pub fn new(cache: C) -> (r: Self) {
        CacheManager { cache }
    }

    /// The cache key under which a token for `key` is stored.
    pub fn token_cache_key(key: &str) -> (r: String)
        ensures
            r@ == "token:"@ + key@,
    {
        let mut out = String::new();
        out.append("token:");
        out.append(key);
        out
    }

    /// The backend the manager was built over.
    pub fn backend(&self) -> (r: &C) {
        &self.cache
    }
}

} // verus!
