# linera_lite

Verified core logic of a Linera node's key-value view, indexer, chain
manager, block explorer and contract interface conversions, written in Verus.

Layout:

- `src/bytes.rs`, `src/byte_map.rs`: byte strings in lexicographic order and a
  sorted map keyed by them.
- `src/memory.rs`, `src/key_value_store_view.rs`: a store held in memory, write
  batches, and the key-value view over it (pending changes, clearing,
  flushing, iteration in key order, prefix queries, hashing).
- `src/crypto.rs`, `src/framing.rs`, `src/external.rs`: hashes and their byte
  layout, the BCS layout of sequences, and the calls into `sha2`, `sha3`,
  `hex` and `bcs`.
- `src/chain.rs`, `src/single.rs`: blocks and certified values, and the
  voting rules of a chain with a single owner.
- `src/operation_key.rs`, `src/operations.rs`, `src/indexer.rs`,
  `src/indexer_queries.rs`, `src/rocks_db.rs`: the indexer: which blocks are
  processed, the record of each chain's last block, and the operations
  plugin with its linked list of operations per chain.
- `src/service.rs`: the node service's answers turned into chain values.
- `src/explorer.rs`, `src/json.rs`: the block explorer's routing, and the
  filling of GraphQL introspection types for an application page.
- `src/contract.rs`: a contract's results in the runtime's interface types.
- `app/lib.rs`: conversions to and from `serde_json`, `log` and polled
  futures, and the loop that brings the indexer up to a new block.
- `tests/`: tests of the library on concrete values.
