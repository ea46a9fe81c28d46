pub mod byte_map;
pub mod compact;
pub mod errors;
pub mod lsm_storage;
pub mod keys;
pub mod laws;
pub mod mem_table;
pub mod sstable;
pub mod wal;
