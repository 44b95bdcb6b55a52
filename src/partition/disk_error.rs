//! Errors of partition-table parsing.
use vstd::prelude::*;

use crate::utils::IoError;

verus! {

/// Errors of partition-table parsing and validation.
#[derive(Clone, Copy, Debug, PartialEq, Eq, Structural)]
pub enum DiskError {
    /// The first sector lies beyond the end of the image.
    Io(IoError),
    /// The non-empty entries are not in ascending order of first sector.
    PartitionTableNotSorted,
    /// Two adjacent non-empty entries overlap.
    OverlappingPartitions,
    /// The boot signature is not 0xAA55; the value found.
    InvalidSignature(u16),
}

} // verus!
