pub mod data_file;
pub mod log_record;
