//! A log-structured key/value storage engine of the Bitcask family.
//!
//! Keys and values are arbitrary byte sequences. Every write is appended to
//! the active data file as a self-delimiting, checksummed record; an
//! in-memory index maps each live key to the file position of its most
//! recent record. Opening a directory replays every data file in file-id
//! order to rebuild the index.

pub mod data;
pub mod db;
pub mod errors;
pub mod fio;
pub mod index;
pub mod options;
