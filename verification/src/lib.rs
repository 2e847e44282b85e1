//! Verified core logic of the Linera key-value view, indexer, chain manager,
//! explorer routing and contract conversions.
pub mod byte_map;
pub mod bytes;
pub mod chain;
pub mod contract;
pub mod crypto;
pub mod explorer;
pub mod external;
pub mod framing;
pub mod indexer;
pub mod indexer_queries;
pub mod json;
pub mod key_value_store_view;
pub mod memory;
pub mod operation_key;
pub mod operations;
pub mod rocks_db;
pub mod service;
pub mod single;
