//! Rules behind a small text-file service: which directory entries count as
//! text files, how a listing is built and ordered, and the order of the steps
//! that write a file. The functions here work on plain values; reading and
//! writing the file system is left to the caller.

pub mod extension;
pub mod file_info;
pub mod greeting;
pub mod listing;
pub mod modified;
pub mod sort;
pub mod write;
