//! The layout of a structure (disk, partition table, volume) as a list of
//! sector regions.
use vstd::prelude::*;

use crate::partition::mbr::PTType;

verus! {

/// What a region of sectors holds.
#[derive(Clone, Copy, Debug, PartialEq, Eq, Structural)]
pub enum RegionKind {
    /// Boot sector and reserved sectors of a volume.
    Reserved,
    /// FAT copy number `0`, counted from 0.
    Fat(u8),
    /// The FAT12/16 root directory.
    RootDir,
    /// The cluster data region.
    Data,
    /// Sectors of a partition after its data region.
    VolumeSlack,
    /// Partition number `0`, counted from 1, of the given type.
    Partition(u64, PTType),
    /// Sectors of a disk that no partition holds.
    Unallocated,
}

/// The sectors `[start, end)` and what they hold.
#[derive(Clone, Copy, Debug, PartialEq, Eq, Structural)]
pub struct Region {
    pub kind: RegionKind,
    pub start: u64,
    pub end: u64,
}

/// A structure whose layout is a list of sector regions.
pub trait LayoutDisplay {
    /// The regions, in order.
    spec fn spec_layout(&self) -> Seq<Region>;

    /// The regions, in order.
    fn display_layout(&self) -> (r: Vec<Region>)
        ensures
            r@ == self.spec_layout(),
    ;
}

} // verus!
