# rw_core

Verified pieces of a streaming database engine, written in Verus.

- `src/value_reader.rs`: reading big-endian integers, UTF-8 strings and
  decimals out of byte buffers through a cursor.
- `src/key_order.rs`, `src/hummock_utils.rs`: lexicographic key order, whether
  a search range can meet an SST's key range, SST pruning, epoch and metadata
  validation.  Proved: pruning never drops an SST that holds a key of the range.
- `src/shared_buffer.rs`: the batches waiting for upload, by epoch and table,
  what a sync takes of them, and the steps of a sync request.
- `src/bitset.rs`, `src/order.rs`, `src/col_index_mapping.rs`,
  `src/logical_topn.rs`: column sets, sort orders, column renumbering and the
  logical Top-N plan node (with its schema, context and distribution), its
  column pruning and its batch and streaming plans.
- `src/catalog.rs`: column types, fields and schemas.
- `src/generate_series.rs`: binding of `generate_series` and registering its
  table in the binder's context.

`app/` holds what the verifier does not see: floating-point readers, text
forms, conversion from `std::ops::RangeBounds`, and the asynchronous uploader
loop over tokio channels.
