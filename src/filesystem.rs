//! The FAT file system: boot sector, directory entries and volumes.
pub mod bpb;
pub mod dir_entry;
pub mod fat;
pub mod fat_error;
pub mod fat_type;
