//! Forensic tooling for FAT32 disk images.
//!
//! The library reads a raw disk image as bytes: it parses and validates the
//! Master Boot Record, decodes the BIOS Parameter Block of each FAT32
//! partition, walks cluster chains and directories, resolves 8.3 paths, and
//! writes bytes into the unused (slack) space of a volume or of a file.
pub mod commands;
pub mod filesystem;
pub mod partition;
pub mod traits;
pub mod utils;

pub use crate::filesystem::fat::FATVol;
pub use crate::partition::disk::Disk;
