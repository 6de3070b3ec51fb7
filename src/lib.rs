//! An in-memory write buffer for time-series data: line-protocol points are
//! grouped into hourly partitions of dictionary-encoded columnar tables, every
//! write is framed for a write-ahead log, and the state can be rebuilt by
//! replaying those frames.
pub mod text;
pub mod dictionary;
pub mod column;
pub mod table;
pub mod wal;
pub mod codec;
pub mod partition;
pub mod database;
pub mod line;
pub mod batch;
pub mod object_store;
