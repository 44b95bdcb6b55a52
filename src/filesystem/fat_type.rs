//! The three kinds of FAT, told apart by the number of data clusters.
use vstd::prelude::*;

verus! {

/// The width of the entries of a File Allocation Table.
#[derive(Clone, Copy, Debug, PartialEq, Eq, Structural)]
pub enum FATType {
    FAT12,
    FAT16,
    FAT32,
}

/// The FAT type of a volume with `cluster_count` data clusters.
pub open spec fn fat_type_of(cluster_count: nat) -> FATType {
    if cluster_count < 4085 {
        FATType::FAT12
    } else if cluster_count < 65525 {
        FATType::FAT16
    } else {
        FATType::FAT32
    }
}

impl FATType {
    /// The name of the FAT type.
    pub fn name(&self) -> (r: &'static str)
        ensures
            *self == FATType::FAT12 ==> r@ == "FAT12"@,
            *self == FATType::FAT16 ==> r@ == "FAT16"@,
            *self == FATType::FAT32 ==> r@ == "FAT32"@,
    {
        match self {
            FATType::FAT12 => "FAT12",
            FATType::FAT16 => "FAT16",
            FATType::FAT32 => "FAT32",
        }
    }
}

} // verus!
