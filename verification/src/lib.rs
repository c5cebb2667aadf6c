//! Storage and replication core of a local-first sync engine: a sparse page
//! map, an append-only journal of committed page sets, a write-ahead-log
//! codec, and the virtual-file adapter that layers pending writes over the
//! journal.

pub mod page;
pub mod lsn;
pub mod codec;
pub mod wal;
pub mod journal;
pub mod storage;
pub mod replication;
