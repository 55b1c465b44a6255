//! A log-structured key-value store in the Bitcask style: every change is
//! appended to a segment file, an in-memory index maps each key to the
//! position of its latest record, and the index is rebuilt by replaying the
//! segments when the store is opened.
pub mod errors;
pub mod log_record;
pub mod options;
pub mod index;
pub mod fio;
pub mod data_file;
pub mod db;
