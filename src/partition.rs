//! The Master Boot Record partition table and the disk that holds it.
pub mod disk;
pub mod disk_error;
pub mod mbr;
