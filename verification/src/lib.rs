pub mod btree;
pub mod data_file;
pub mod errors;
pub mod fio;
pub mod index;
pub mod log_record;
pub mod options;
pub mod varint;
