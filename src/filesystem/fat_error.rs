//! Errors of boot-sector validation and of volume operations.
use vstd::prelude::*;

use super::fat_type::FATType;
use crate::utils::IoError;

verus! {

/// Errors of boot-sector validation and of volume operations. Each
/// validation error carries the offending raw value(s).
#[derive(Clone, Copy, Debug, PartialEq, Eq, Structural)]
pub enum FATError {
    /// The jump instruction is neither `EB ?? 90` nor `E9 ?? ??`; the three
    /// bytes, the first one most significant.
    InvalidJmp(u32),
    /// Bytes per sector is not 512, 1024, 2048 or 4096.
    InvalidBytesPerSec(u16),
    /// Sectors per cluster is not a power of two up to 128.
    InvalidSecPerClus(u8),
    /// A cluster of more than 32 KiB.
    InvalidClusSz(u32),
    /// No reserved sector.
    InvalidRsvdSecCnt(u16),
    /// No FAT.
    InvalidNumFat(u8),
    /// A FAT32 volume has a nonzero root entry count.
    InvalidRootEntCnt(u16),
    /// A FAT32 volume has a nonzero 16-bit total or a zero total.
    InvalidTotSec { tot_sec_16: u16, tot_sec_32: u32 },
    /// A FAT32 volume has a nonzero 16-bit FAT size or a zero 32-bit one.
    InvalidFatSz { fat_sz_16: u16, fat_sz_32: u32 },
    /// The root directory starts below cluster 2.
    InvalidRootClus(u32),
    /// The trailing signature is not `55 AA`; the two bytes, the first one
    /// most significant.
    InvalidSignature(u16),
    /// An access beyond the end of the disk image.
    IOError(IoError),
    /// The operation needs a FAT32 volume.
    UnsupportedFATType(FATType),
    /// No file at the given path.
    FileNotFound,
    /// The data does not fit in the slack space.
    InsufficientSlackSpace { free: u64, needed: u64 },
    /// No run of that many free clusters.
    NoFreeClusterChain(u32),
    /// The data would span more than one cluster of file slack.
    UnsupportedFeature,
    /// Cluster 0 or 1 where a data cluster is expected.
    InvalidClusterError(u32),
    /// The chain starting at that cluster holds more clusters than the
    /// volume has.
    CorruptChain(u32),
}

} // verus!
