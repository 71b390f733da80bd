//! Write path and crash recovery of a log-structured key-value store: a
//! sorted in-memory table of records and the binary format of the
//! append-only durability log that rebuilds it after a restart.

pub mod key_order;
pub mod record;
pub mod codec;
pub mod wal;
pub mod wal_iterator;
pub mod mem_table;
