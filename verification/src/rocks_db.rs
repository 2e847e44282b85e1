//! The settings of the indexer's RocksDB storage.
use vstd::prelude::*;
use vstd::string::StringExecFns;

verus! {

/// Where the indexer keeps its data, and how it uses the store.
pub struct RocksDbConfig {
    /// The storage path.
    pub storage: String,
    /// The largest number of stream queries at once.
    pub max_stream_queries: usize,
    /// The size of the cache.
    pub cache_size: usize,
}

impl Default for RocksDbConfig {
    /// The settings when none is given: `./indexer.db`, 10 stream queries
    /// and a cache of 1000.
    fn default() -> (r: Self)
        ensures
            r.storage@ == "./indexer.db"@,
            r.max_stream_queries == 10,
            r.cache_size == 1000,
    {
        RocksDbConfig { storage: String::from_str("./indexer.db"), max_stream_queries: 10, cache_size: 1000 }
    }
}

} // verus!
