use linera_lite::rocks_db::RocksDbConfig;

#[test]
fn default_storage_settings() {
    let config = RocksDbConfig::default();
    assert_eq!(config.storage, "./indexer.db");
    assert_eq!(config.max_stream_queries, 10);
    assert_eq!(config.cache_size, 1000);
}
