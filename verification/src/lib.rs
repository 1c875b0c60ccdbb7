//! Verified core of a streaming database: value decoding from byte buffers,
//! key-range checks and SST pruning for the storage layer, the batching state
//! of the shared-buffer uploader, the logical Top-N plan node and the binder
//! of `generate_series`.
pub mod catalog;
pub mod value_reader;
pub mod key_order;
pub mod hummock_utils;
pub mod bitset;
pub mod order;
pub mod col_index_mapping;
pub mod logical_topn;
pub mod generate_series;
pub mod shared_buffer;
