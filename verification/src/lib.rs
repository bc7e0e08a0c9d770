//! A key-value store: the write-ahead log, the in-memory table, the sorted
//! string tables that it is flushed to, and the request protocol.

pub mod codec;
pub mod hex;
pub mod order;
pub mod storage_engine;
pub mod tcp;
