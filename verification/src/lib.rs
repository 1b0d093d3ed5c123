//! Verified core of a CRC32 file-integrity checker.
//!
//! The library computes a file's CRC32 checksum (through `crc32fast`),
//! extracts a checksum token embedded in the file's name, formats one
//! report line per file, and restores the input order of concurrently
//! produced results. Everything that touches the file system, standard
//! input or a worker pool lives outside the library and hands it plain
//! byte buffers.

pub mod checksum;
pub mod dispatch;
pub mod extract;
pub mod hex;
pub mod report;
