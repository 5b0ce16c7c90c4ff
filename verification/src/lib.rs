//! Transactional core of an embedded analytical database: a versioned
//! catalog, the transaction manager that drives it, and block storage with a
//! write-ahead log.

pub mod alter_table_info;
pub mod block;
pub mod block_manager;
pub mod buffered_file_writer;
pub mod catalog;
pub mod catalog_entry;
pub mod catalog_set;
pub mod catalog_type;
pub mod connection;
pub mod connection_manager;
pub mod database;
pub mod dependency_manager;
pub mod file_buffer;
pub mod file_system;
pub mod free_list;
pub mod serializer;
pub mod storage_info;
pub mod storage_manager;
pub mod transaction;
pub mod transaction_manager;
pub mod wal;
