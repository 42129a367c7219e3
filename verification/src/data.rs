//! Records, their on-disk frame format, and data files.

pub mod data_file;
pub mod log_record;
