//! A disk image: its partition table and the FAT32 volumes found on it.
use vstd::prelude::*;

use super::disk_error::DiskError;
use super::mbr::{table_error, table_of, Mbr, PTEntry, PTType, MBR_LEN, PART_CNT};
use crate::filesystem::bpb::{decoded_from, Bpb, BPB_LEN};
use crate::filesystem::fat::FATVol;
use crate::filesystem::fat_error::FATError;
use crate::utils::{in_image, IoError};

verus! {

/// The entries of `s` of type FAT32 (LBA), in order.
pub open spec fn fat32_entries(s: Seq<PTEntry>) -> Seq<PTEntry>
    decreases s.len(),
{
    if s.len() == 0 {
        Seq::empty()
    } else if s.last().pt_type == PTType::LBAFat32 {
        fat32_entries(s.drop_last()).push(s.last())
    } else {
        fat32_entries(s.drop_last())
    }
}

/// Whether `v` is the volume of the partition `e` of the image `disk`.
pub open spec fn volume_of(v: FATVol, e: PTEntry, disk: Seq<u8>, sector_size: nat) -> bool {
    &&& v.start == e.lba_start
    &&& v.sector_cnt == e.sector_cnt
    &&& decoded_from(
        v.bpb,
        disk.subrange(e.lba_start * sector_size, e.lba_start * sector_size + BPB_LEN),
    )
}

/// Whether `err` is why the boot sector of partition `e` could not be
/// used: it lies beyond the image, the sector is too short, or, with
/// validation, the first rule that it breaks.
pub open spec fn boot_sector_failure(
    disk: Seq<u8>,
    e: PTEntry,
    sector_size: nat,
    validation: bool,
    err: FATError,
) -> bool {
    let off = e.lba_start * sector_size;
    if !in_image(disk.len() as int, off, sector_size as int) {
        err == FATError::IOError(IoError { offset: off as u64, len: sector_size as u64 })
    } else if sector_size < BPB_LEN {
        err == FATError::IOError(IoError { offset: off as u64, len: BPB_LEN as u64 })
    } else {
        validation && exists|b: Bpb|
            decoded_from(b, disk.subrange(off, off + BPB_LEN)) && b.spec_validation_error()
                == Some(err)
    }
}

impl FATVol {
    /// The partition-table entry of type FAT32 that the volume spans.
    pub open spec fn entry(&self) -> PTEntry {
        PTEntry { pt_type: PTType::LBAFat32, lba_start: self.start, sector_cnt: self.sector_cnt }
    }
}

/// A disk image with its partition table and its FAT32 volumes.
#[derive(Debug)]
pub struct Disk {
    /// The partition table.
    pub part_table: Mbr,
    /// The FAT32 volumes whose boot sector was read, in table order.
    pub volumes: Vec<FATVol>,
    /// The FAT32 partitions whose boot sector could not be read or was not
    /// valid: the partition's number, counted from 0 among the non-empty
    /// entries, and the error.
    pub skipped: Vec<(u64, FATError)>,
    /// The size in bytes of a sector.
    pub sector_size: usize,
}

impl Disk {
    /// Parses the partition table of the image, then the boot sector of
    /// each FAT32 partition, validating it if asked. A partition whose boot
    /// sector fails is recorded in `skipped` and the others are kept.
    pub fn from_image(disk: &[u8], sector_size: usize, validation: bool) -> (r: Result<
        Disk,
        DiskError,
    >)
        requires
            0 < sector_size <= u32::MAX,
        ensures
            disk@.len() >= sector_size >= MBR_LEN ==> (r is Ok <==> table_error(disk@) is None),
            r matches Ok(d) ==> d.part_table.pt_entries@ == table_of(disk@) && d.sector_size
                == sector_size,
            r matches Ok(d) ==> d.volumes@.len() + d.skipped@.len() == fat32_entries(
                d.part_table.spec_pt_entries(),
            ).len(),
            r matches Ok(d) ==> forall|j: int|
                0 <= j < d.volumes@.len() ==> #[trigger] fat32_entries(
                    d.part_table.spec_pt_entries(),
                ).contains(d.volumes@[j].entry()) && volume_of(
                    d.volumes@[j],
                    d.volumes@[j].entry(),
                    disk@,
                    sector_size as nat,
                ),
            r matches Ok(d) ==> forall|j: int|
                0 <= j < d.skipped@.len() ==> {
                    let (i, err) = #[trigger] d.skipped@[j];
                    &&& i < d.part_table.spec_pt_entries().len()
                    &&& d.part_table.spec_pt_entries()[i as int].pt_type == PTType::LBAFat32
                    &&& boot_sector_failure(
                        disk@,
                        d.part_table.spec_pt_entries()[i as int],
                        sector_size as nat,
                        validation,
                        err,
                    )
                },
            r matches Ok(d) ==> validation ==> forall|j: int|
                0 <= j < d.volumes@.len() ==> (#[trigger] d.volumes@[j]).bpb.spec_validation_error()
                    is None,
            r matches Ok(d) ==> !validation && sector_size >= BPB_LEN && (forall|k: int|
                0 <= k < fat32_entries(d.part_table.spec_pt_entries()).len() ==> in_image(
                    disk@.len() as int,
                    (#[trigger] fat32_entries(d.part_table.spec_pt_entries())[k]).lba_start
                        * sector_size,
                    sector_size as int,
                )) ==> d.skipped@.len() == 0,
    {
        let mbr = match Mbr::from_image(disk, sector_size) {
            Ok(m) => m,
            Err(e) => return Err(e),
        };
        let entries = mbr.pt_entries();
        let ghost ne = entries@;
        let mut volumes: Vec<FATVol> = Vec::new();
        let mut skipped: Vec<(u64, FATError)> = Vec::new();
        let ghost mut origin: Seq<int> = Seq::empty();
        let mut i: usize = 0;
        proof {
            super::mbr::lemma_non_empty_len(mbr.pt_entries@);
        }
        assert(ne.take(0) =~= Seq::<PTEntry>::empty());
        while i < entries.len()
            invariant
                ne == entries@,
                ne == mbr.spec_pt_entries(),
                ne.len() <= PART_CNT,
                i <= ne.len(),
                0 < sector_size <= u32::MAX,
                volumes@.len() + skipped@.len() == fat32_entries(ne.take(i as int)).len(),
                origin.len() == volumes@.len(),
                forall|j: int|
                    0 <= j < volumes@.len() ==> 0 <= #[trigger] origin[j] < fat32_entries(
                        ne.take(i as int),
                    ).len() && volume_of(
                        volumes@[j],
                        fat32_entries(ne)[origin[j]],
                        disk@,
                        sector_size as nat,
                    ),
                fat32_entries(ne.take(i as int)).len() <= fat32_entries(ne).len(),
                validation ==> forall|j: int|
                    0 <= j < volumes@.len() ==> (#[trigger] volumes@[j]).bpb.spec_validation_error()
                        is None,
                forall|j: int|
                    0 <= j < skipped@.len() ==> {
                        let (si, err) = #[trigger] skipped@[j];
                        &&& si < ne.len()
                        &&& ne[si as int].pt_type == PTType::LBAFat32
                        &&& boot_sector_failure(disk@, ne[si as int], sector_size as nat, validation, err)
                    },
                !validation && sector_size >= BPB_LEN && (forall|k: int|
                    0 <= k < fat32_entries(ne).len() ==> in_image(
                        disk@.len() as int,
                        (#[trigger] fat32_entries(ne)[k]).lba_start * sector_size,
                        sector_size as int,
                    )) ==> skipped@.len() == 0,
            decreases ne.len() - i,
        {
            let e = entries[i];
            let ghost before = fat32_entries(ne.take(i as int));
            assert(ne.take(i + 1).drop_last() =~= ne.take(i as int));
            assert(ne.take(i + 1).last() == e);
            if e.pt_type == PTType::LBAFat32 {
                let ghost now = fat32_entries(ne.take(i + 1));
                assert(now == before.push(e));
                proof {
                    lemma_fat32_prefix(ne, i as int);
                    assert(fat32_entries(ne)[before.len() as int] == e);
                }
                match FATVol::from_image(disk, e.lba_start, e.sector_cnt, validation, sector_size) {
                    Ok(v) => {
                        volumes.push(v);
                        proof {
                            origin = origin.push(before.len() as int);
                        }
                        assert forall|j: int| 0 <= j < volumes@.len() implies 0 <= #[trigger] origin[j]
                            < now.len() && volume_of(
                            volumes@[j],
                            fat32_entries(ne)[origin[j]],
                            disk@,
                            sector_size as nat,
                        ) by {
                            if j < volumes@.len() - 1 {
                            } else {
                            }
                        }
                    },
                    Err(err) => {
                        skipped.push((i as u64, err));
                    },
                }
            } else {
                assert(fat32_entries(ne.take(i + 1)) == before);
            }
            i = i + 1;
        }
        assert(ne.take(i as int) =~= ne);
        let d = Disk { part_table: mbr, volumes, skipped, sector_size };
        assert(fat32_entries(d.part_table.spec_pt_entries()) == fat32_entries(ne));
        assert forall|j: int| 0 <= j < d.volumes@.len() implies #[trigger] fat32_entries(
            d.part_table.spec_pt_entries(),
        ).contains(d.volumes@[j].entry()) && volume_of(
            d.volumes@[j],
            d.volumes@[j].entry(),
            disk@,
            sector_size as nat,
        ) by {
            let k = origin[j];
            let f = fat32_entries(ne);
            lemma_fat32_type(ne, k);
            assert(f[k] == d.volumes@[j].entry());
        }
        Ok(d)
    }

    /// The number of FAT32 volumes found.
    pub fn vol_count(&self) -> (r: usize)
        ensures
            r == self.volumes@.len(),
    {
        self.volumes.len()
    }
}

/// The FAT32 entries are of type FAT32.
proof fn lemma_fat32_type(s: Seq<PTEntry>, k: int)
    requires
        0 <= k < fat32_entries(s).len(),
    ensures
        fat32_entries(s)[k].pt_type == PTType::LBAFat32,
    decreases s.len(),
{
    if s.len() > 0 && k < fat32_entries(s.drop_last()).len() {
        lemma_fat32_type(s.drop_last(), k);
    }
}

/// The FAT32 entries of a prefix come first among those of the whole, and
/// an entry of the whole that is FAT32 is among them.
proof fn lemma_fat32_prefix(s: Seq<PTEntry>, i: int)
    requires
        0 <= i < s.len(),
        s[i].pt_type == PTType::LBAFat32,
    ensures
        fat32_entries(s).contains(s[i]),
        fat32_entries(s.take(i + 1)).len() <= fat32_entries(s).len(),
        forall|k: int|
            0 <= k < fat32_entries(s.take(i + 1)).len() ==> fat32_entries(s)[k] == fat32_entries(
                s.take(i + 1),
            )[k],
    decreases s.len(),
{
    if i + 1 == s.len() {
        assert(s.take(i + 1) =~= s);
        assert(fat32_entries(s)[fat32_entries(s).len() - 1] == s[i]);
    } else {
        let t = s.drop_last();
        assert(t.take(i + 1) =~= s.take(i + 1));
        lemma_fat32_prefix(t, i);
        assert(t[i] == s[i]);
        let k = choose|k: int| 0 <= k < fat32_entries(t).len() && fat32_entries(t)[k] == t[i];
        assert(fat32_entries(s)[k] == s[i]);
    }
}

} // verus!
