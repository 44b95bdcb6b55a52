//! Decoding and validation of the MBR partition table.
use vstd::prelude::*;

use super::disk_error::DiskError;
use crate::traits::{LayoutDisplay, Region, RegionKind};
use crate::utils::{le16, le32, read_sector, u16_at, u32_at, IoError};

verus! {

/// Number of primary partitions of an MBR.
pub const PART_CNT: usize = 4;

/// Size in bytes of the decoded boot record.
pub const MBR_LEN: usize = 512;

/// Offset of the partition table.
pub const TABLE_OFFSET: usize = 446;

/// The boot signature, as read little-endian from bytes `55 AA`.
pub const MBR_SIGNATURE: u16 = 0xAA55;

/// The type of a partition-table entry.
#[derive(Clone, Copy, Debug, PartialEq, Eq, Structural)]
pub enum PTType {
    /// FAT32 with LBA addressing (type byte 0x0C).
    LBAFat32,
    /// Any other type byte.
    Unsupported(u8),
}

/// The partition type of a type byte.
pub open spec fn pt_type_of(b: u8) -> PTType {
    if b == 0x0C {
        PTType::LBAFat32
    } else {
        PTType::Unsupported(b)
    }
}

impl PTType {
    /// The partition type of a type byte.
    pub fn from_byte(byte: u8) -> (r: PTType)
        ensures
            r == pt_type_of(byte),
    {
        if byte == 0x0C {
            PTType::LBAFat32
        } else {
            PTType::Unsupported(byte)
        }
    }
}

/// A partition-table entry.
#[derive(Clone, Copy, Debug, PartialEq, Eq, Structural)]
pub struct PTEntry {
    /// The partition type.
    pub pt_type: PTType,
    /// The first sector of the partition.
    pub lba_start: u32,
    /// The number of sectors; zero for an empty entry.
    pub sector_cnt: u32,
}

impl PTEntry {
    /// The first sector of the partition.
    pub fn lba_start(&self) -> (r: u32)
        ensures
            r == self.lba_start,
    {
        self.lba_start
    }

    /// The number of sectors of the partition.
    pub fn sector_cnt(&self) -> (r: u32)
        ensures
            r == self.sector_cnt,
    {
        self.sector_cnt
    }

    /// The partition type.
    pub fn pt_type(&self) -> (r: PTType)
        ensures
            r == self.pt_type,
    {
        self.pt_type
    }
}

/// The boot signature of an MBR.
#[derive(Clone, Copy, Debug, PartialEq, Eq, Structural)]
pub enum BootSignature {
    /// The standard signature 0xAA55.
    Mbr(u16),
    /// Any other value.
    Unsupported(u16),
}

impl BootSignature {
    /// Classifies the signature read little-endian at offset 510.
    pub fn from_u16(sig: u16) -> (r: BootSignature)
        ensures
            sig == MBR_SIGNATURE ==> r == BootSignature::Mbr(MBR_SIGNATURE),
            sig != MBR_SIGNATURE ==> r == BootSignature::Unsupported(sig),
    {
        if sig == MBR_SIGNATURE {
            BootSignature::Mbr(MBR_SIGNATURE)
        } else {
            BootSignature::Unsupported(sig)
        }
    }
}

/// The entry `i` of the partition table of the boot record `buf`.
pub open spec fn entry_at(buf: Seq<u8>, i: int) -> PTEntry {
    let off = TABLE_OFFSET + i * 16;
    PTEntry {
        pt_type: pt_type_of(buf[off + 4]),
        lba_start: le32(buf, off + 8),
        sector_cnt: le32(buf, off + 12),
    }
}

/// The four entries of the partition table of `buf`.
pub open spec fn table_of(buf: Seq<u8>) -> Seq<PTEntry> {
    seq![entry_at(buf, 0), entry_at(buf, 1), entry_at(buf, 2), entry_at(buf, 3)]
}

/// The non-empty entries of `s`, in order.
#[verifier::opaque]
pub open spec fn non_empty(s: Seq<PTEntry>) -> Seq<PTEntry>
    decreases s.len(),
{
    if s.len() == 0 {
        Seq::empty()
    } else if s.last().sector_cnt != 0 {
        non_empty(s.drop_last()).push(s.last())
    } else {
        non_empty(s.drop_last())
    }
}

/// Whether the entries are in ascending order of first sector.
pub open spec fn sorted(s: Seq<PTEntry>) -> bool {
    forall|i: int| 0 <= i < s.len() - 1 ==> (#[trigger] s[i]).lba_start <= s[i + 1].lba_start
}

/// Whether each entry ends before the next one starts.
pub open spec fn non_overlapping(s: Seq<PTEntry>) -> bool {
    forall|i: int|
        0 <= i < s.len() - 1 ==> (#[trigger] s[i]).lba_start + s[i].sector_cnt <= s[i + 1].lba_start
}

/// The first rule that the table of `buf` breaks: order, then overlap, then
/// signature.
pub open spec fn table_error(buf: Seq<u8>) -> Option<DiskError> {
    let ne = non_empty(table_of(buf));
    if !sorted(ne) {
        Some(DiskError::PartitionTableNotSorted)
    } else if !non_overlapping(ne) {
        Some(DiskError::OverlappingPartitions)
    } else if le16(buf, 510) != MBR_SIGNATURE {
        Some(DiskError::InvalidSignature(le16(buf, 510)))
    } else {
        None
    }
}

/// A Master Boot Record.
#[derive(Debug)]
pub struct Mbr {
    /// The four partition-table entries.
    pub pt_entries: [PTEntry; 4],
    /// The boot signature.
    pub boot_signature: BootSignature,
    /// Size of the disk in sectors.
    pub sector_cnt: u64,
}

impl Mbr {
    /// The non-empty entries of the table.
    pub open spec fn spec_pt_entries(&self) -> Seq<PTEntry> {
        non_empty(self.pt_entries@)
    }

    /// Decodes the boot record `buf` of a disk of `sector_cnt` sectors and
    /// validates it.
    pub fn parse(buf: &[u8], sector_cnt: u64) -> (r: Result<Mbr, DiskError>)
        ensures
            buf@.len() < MBR_LEN ==> r == Err::<Mbr, DiskError>(
                DiskError::Io(IoError { offset: 0, len: MBR_LEN as u64 }),
            ),
            buf@.len() >= MBR_LEN ==> match table_error(buf@) {
                Some(e) => r == Err::<Mbr, DiskError>(e),
                None => r matches Ok(m) && m.pt_entries@ == table_of(buf@) && m.sector_cnt
                    == sector_cnt && m.boot_signature == BootSignature::Mbr(MBR_SIGNATURE),
            },
    {
        if buf.len() < MBR_LEN {
            return Err(DiskError::Io(IoError { offset: 0, len: MBR_LEN as u64 }));
        }
        let e0 = PTEntry {
            pt_type: PTType::from_byte(buf[446 + 4]),
            lba_start: u32_at(buf, 446 + 8),
            sector_cnt: u32_at(buf, 446 + 12),
        };
        let e1 = PTEntry {
            pt_type: PTType::from_byte(buf[462 + 4]),
            lba_start: u32_at(buf, 462 + 8),
            sector_cnt: u32_at(buf, 462 + 12),
        };
        let e2 = PTEntry {
            pt_type: PTType::from_byte(buf[478 + 4]),
            lba_start: u32_at(buf, 478 + 8),
            sector_cnt: u32_at(buf, 478 + 12),
        };
        let e3 = PTEntry {
            pt_type: PTType::from_byte(buf[494 + 4]),
            lba_start: u32_at(buf, 494 + 8),
            sector_cnt: u32_at(buf, 494 + 12),
        };
        let mbr = Mbr {
            pt_entries: [e0, e1, e2, e3],
            boot_signature: BootSignature::from_u16(u16_at(buf, 510)),
            sector_cnt,
        };
        assert(mbr.pt_entries@ =~= table_of(buf@));
        mbr.validate()
    }

    /// Reads the boot record from sector 0 of the image and validates it;
    /// the disk size is the image size in whole sectors.
    pub fn from_image(disk: &[u8], sector_size: usize) -> (r: Result<Mbr, DiskError>)
        requires
            sector_size > 0,
        ensures
            disk@.len() < sector_size ==> r == Err::<Mbr, DiskError>(
                DiskError::Io(IoError { offset: 0, len: sector_size as u64 }),
            ),
            disk@.len() >= sector_size && sector_size < MBR_LEN ==> r == Err::<Mbr, DiskError>(
                DiskError::Io(IoError { offset: 0, len: MBR_LEN as u64 }),
            ),
            disk@.len() >= sector_size && sector_size >= MBR_LEN ==> match table_error(disk@) {
                Some(e) => r == Err::<Mbr, DiskError>(e),
                None => r matches Ok(m) && m.pt_entries@ == table_of(disk@) && m.sector_cnt
                    == disk@.len() as int / sector_size as int,
            },
    {
        let buf = match read_sector(disk, 0, sector_size) {
            Ok(b) => b,
            Err(e) => return Err(DiskError::Io(e)),
        };
        let r = Mbr::parse(buf.as_slice(), (disk.len() / sector_size) as u64);
        proof {
            if buf@.len() >= MBR_LEN {
                assert(table_of(buf@) =~= table_of(disk@));
                assert(le16(buf@, 510) == le16(disk@, 510));
            }
        }
        r
    }

    /// The non-empty entries of the table, in order.
    pub fn pt_entries(&self) -> (r: Vec<PTEntry>)
        ensures
            r@ == self.spec_pt_entries(),
    {
        let mut v: Vec<PTEntry> = Vec::new();
        let mut i: usize = 0;
        assert(self.pt_entries@.take(0) =~= Seq::<PTEntry>::empty());
        reveal(non_empty);
        while i < PART_CNT
            invariant
                i <= PART_CNT,
                self.pt_entries@.len() == PART_CNT,
                v@ == non_empty(self.pt_entries@.take(i as int)),
            decreases PART_CNT - i,
        {
            let e = self.pt_entries[i];
            assert(self.pt_entries@.take(i + 1).drop_last() =~= self.pt_entries@.take(i as int));
            reveal(non_empty);
            if e.sector_cnt != 0 {
                v.push(e);
            }
            i = i + 1;
        }
        assert(self.pt_entries@.take(4) =~= self.pt_entries@);
        v
    }

    /// Size of the disk in sectors.
    pub fn sector_cnt(&self) -> (r: u64)
        ensures
            r == self.sector_cnt,
    {
        self.sector_cnt
    }

    /// Checks the order of the entries, then their overlap, then the
    /// signature.
    pub fn validate(self) -> (r: Result<Self, DiskError>)
        ensures
            !sorted(self.spec_pt_entries()) ==> r == Err::<Mbr, DiskError>(
                DiskError::PartitionTableNotSorted,
            ),
            sorted(self.spec_pt_entries()) && !non_overlapping(self.spec_pt_entries()) ==> r
                == Err::<Mbr, DiskError>(DiskError::OverlappingPartitions),
            sorted(self.spec_pt_entries()) && non_overlapping(self.spec_pt_entries()) ==> match self.boot_signature {
                BootSignature::Unsupported(sig) => r == Err::<Mbr, DiskError>(
                    DiskError::InvalidSignature(sig),
                ),
                BootSignature::Mbr(_) => r == Ok::<Mbr, DiskError>(self),
            },
    {
        let mbr = match self.check_partition_table_sorted() {
            Ok(m) => m,
            Err(e) => return Err(e),
        };
        let mbr = match mbr.check_partitions_non_overlapping() {
            Ok(m) => m,
            Err(e) => return Err(e),
        };
        mbr.check_signature()
    }

    /// Fails with the signature found when it is not the standard one.
    pub fn check_signature(self) -> (r: Result<Self, DiskError>)
        ensures
            match self.boot_signature {
                BootSignature::Unsupported(sig) => r == Err::<Mbr, DiskError>(
                    DiskError::InvalidSignature(sig),
                ),
                BootSignature::Mbr(_) => r == Ok::<Mbr, DiskError>(self),
            },
    {
        match self.boot_signature {
            BootSignature::Unsupported(sig) => Err(DiskError::InvalidSignature(sig)),
            _ => Ok(self),
        }
    }

    /// Fails unless the non-empty entries are in ascending order of first
    /// sector.
    pub fn check_partition_table_sorted(self) -> (r: Result<Self, DiskError>)
        ensures
            sorted(self.spec_pt_entries()) ==> r == Ok::<Mbr, DiskError>(self),
            !sorted(self.spec_pt_entries()) ==> r == Err::<Mbr, DiskError>(
                DiskError::PartitionTableNotSorted,
            ),
    {
        let entries = self.pt_entries();
        proof {
            lemma_non_empty_len(self.pt_entries@);
        }
        let mut i: usize = 0;
        while i < entries.len() && i + 1 < entries.len()
            invariant
                entries@ == self.spec_pt_entries(),
                entries@.len() <= PART_CNT,
                forall|k: int| 0 <= k < i && k < entries@.len() - 1 ==> (#[trigger] entries@[k]).lba_start
                    <= entries@[k + 1].lba_start,
            decreases entries@.len() - i,
        {
            if entries[i].lba_start > entries[i + 1].lba_start {
                return Err(DiskError::PartitionTableNotSorted);
            }
            i = i + 1;
        }
        Ok(self)
    }

    /// Fails when an entry does not end before the next one starts.
    pub fn check_partitions_non_overlapping(self) -> (r: Result<Self, DiskError>)
        ensures
            non_overlapping(self.spec_pt_entries()) ==> r == Ok::<Mbr, DiskError>(self),
            !non_overlapping(self.spec_pt_entries()) ==> r == Err::<Mbr, DiskError>(
                DiskError::OverlappingPartitions,
            ),
    {
        let entries = self.pt_entries();
        proof {
            lemma_non_empty_len(self.pt_entries@);
        }
        let mut i: usize = 0;
        while i < entries.len() && i + 1 < entries.len()
            invariant
                entries@ == self.spec_pt_entries(),
                entries@.len() <= PART_CNT,
                forall|k: int| 0 <= k < i && k < entries@.len() - 1 ==> (#[trigger] entries@[k]).lba_start
                    + entries@[k].sector_cnt <= entries@[k + 1].lba_start,
            decreases entries@.len() - i,
        {
            if entries[i].lba_start as u64 + entries[i].sector_cnt as u64 > entries[i + 1].lba_start as u64 {
                return Err(DiskError::OverlappingPartitions);
            }
            i = i + 1;
        }
        Ok(self)
    }
}

/// The table of a validated boot record lists its non-empty entries.
pub proof fn lemma_non_empty_len(s: Seq<PTEntry>)
    ensures
        non_empty(s).len() <= s.len(),
    decreases s.len(),
{
    reveal(non_empty);
    if s.len() > 0 {
        lemma_non_empty_len(s.drop_last());
    }
}

/// The rows of the partitions `entries`, numbered from `idx`, each preceded
/// by the unallocated gap after `last_end` when there is one.
pub open spec fn part_rows(entries: Seq<PTEntry>, idx: nat, last_end: nat) -> Seq<Region>
    decreases entries.len(),
{
    if entries.len() == 0 {
        Seq::empty()
    } else {
        let e = entries[0];
        let start = e.lba_start as nat;
        let end = (start + e.sector_cnt) as nat;
        (if start > last_end {
            seq![Region { kind: RegionKind::Unallocated, start: last_end as u64, end: start as u64 }]
        } else {
            Seq::empty()
        }) + seq![
            Region { kind: RegionKind::Partition(idx as u64, e.pt_type), start: start as u64, end: end as u64 },
        ] + part_rows(entries.drop_first(), idx + 1, end)
    }
}

/// The end of the last of `entries`, or `last_end` when there is none.
pub open spec fn rows_end(entries: Seq<PTEntry>, last_end: nat) -> nat
    decreases entries.len(),
{
    if entries.len() == 0 {
        last_end
    } else {
        rows_end(entries.drop_first(), (entries[0].lba_start + entries[0].sector_cnt) as nat)
    }
}

impl LayoutDisplay for Mbr {
    /// Each non-empty partition in table order, with the unallocated gaps
    /// before it and after the last one up to the end of the disk.
    open spec fn spec_layout(&self) -> Seq<Region> {
        let ne = self.spec_pt_entries();
        let end = rows_end(ne, 0);
        part_rows(ne, 1, 0) + if end < self.sector_cnt {
            seq![
                Region {
                    kind: RegionKind::Unallocated,
                    start: end as u64,
                    end: self.sector_cnt,
                },
            ]
        } else {
            Seq::empty()
        }
    }

    fn display_layout(&self) -> (r: Vec<Region>) {
        let entries = self.pt_entries();
        proof {
            lemma_non_empty_len(self.pt_entries@);
        }
        let ghost ne = entries@;
        let mut out: Vec<Region> = Vec::new();
        let mut last_end: u64 = 0;
        let mut i: usize = 0;
        assert(ne.skip(0) =~= ne);
        while i < entries.len()
            invariant
                ne == entries@,
                ne == self.spec_pt_entries(),
                ne.len() <= PART_CNT,
                i <= ne.len(),
                last_end <= 0x2_0000_0000,
                part_rows(ne, 1, 0) == out@ + part_rows(ne.skip(i as int), (i + 1) as nat, last_end as nat),
                rows_end(ne, 0) == rows_end(ne.skip(i as int), last_end as nat),
            decreases ne.len() - i,
        {
            let e = entries[i];
            let start = e.lba_start as u64;
            let end = start + e.sector_cnt as u64;
            let ghost before = out@;
            assert(ne.skip(i as int)[0] == e);
            assert(ne.skip(i as int).drop_first() =~= ne.skip(i + 1));
            if start > last_end {
                out.push(Region { kind: RegionKind::Unallocated, start: last_end, end: start });
            }
            out.push(Region { kind: RegionKind::Partition((i + 1) as u64, e.pt_type), start, end });
            proof {
                let gap = if start > last_end {
                    seq![Region { kind: RegionKind::Unallocated, start: last_end, end: start }]
                } else {
                    Seq::<Region>::empty()
                };
                let row = seq![Region { kind: RegionKind::Partition((i + 1) as u64, e.pt_type), start, end }];
                assert(out@ =~= before + gap + row);
                let rest = part_rows(ne.skip(i + 1), (i + 2) as nat, end as nat);
                assert(before + (gap + row + rest) =~= out@ + rest);
            }
            last_end = end;
            i = i + 1;
        }
        assert(ne.skip(i as int) =~= Seq::<PTEntry>::empty());
        assert(out@ + Seq::<Region>::empty() =~= out@);
        if last_end < self.sector_cnt {
            out.push(Region { kind: RegionKind::Unallocated, start: last_end, end: self.sector_cnt });
        }
        out
    }
}

/// The non-empty entries are exactly the entries of nonzero size, in
/// their order.
pub proof fn lemma_non_empty_members(s: Seq<PTEntry>)
    ensures
        forall|k: int| 0 <= k < non_empty(s).len() ==> (#[trigger] non_empty(s)[k]).sector_cnt != 0,
        forall|i: int| 0 <= i < s.len() && (#[trigger] s[i]).sector_cnt != 0 ==> non_empty(s).contains(s[i]),
    decreases s.len(),
{
    reveal(non_empty);
    if s.len() > 0 {
        let t = s.drop_last();
        lemma_non_empty_members(t);
        assert forall|i: int| 0 <= i < s.len() && (#[trigger] s[i]).sector_cnt != 0 implies non_empty(
            s,
        ).contains(s[i]) by {
            if i < s.len() - 1 {
                assert(t[i] == s[i]);
                let k = choose|k: int| 0 <= k < non_empty(t).len() && non_empty(t)[k] == t[i];
                assert(non_empty(s)[k] == s[i]);
            } else {
                assert(non_empty(s)[non_empty(s).len() - 1] == s[i]);
            }
        }
    }
}

/// A boot record whose non-empty entries are in ascending order and do not
/// overlap, and whose signature bytes are `55 AA`, is accepted; its listed
/// entries are exactly those of nonzero size.
pub proof fn lemma_valid_table_accepted(buf: Seq<u8>)
    requires
        buf.len() >= MBR_LEN,
        sorted(non_empty(table_of(buf))),
        non_overlapping(non_empty(table_of(buf))),
        buf[510] == 0x55,
        buf[511] == 0xAA,
    ensures
        table_error(buf) is None,
        forall|k: int|
            0 <= k < non_empty(table_of(buf)).len() ==> (#[trigger] non_empty(table_of(buf))[k]).sector_cnt
                != 0,
        forall|i: int|
            0 <= i < PART_CNT && (#[trigger] entry_at(buf, i)).sector_cnt != 0 ==> non_empty(
                table_of(buf),
            ).contains(entry_at(buf, i)),
{
    lemma_non_empty_members(table_of(buf));
    assert forall|i: int| 0 <= i < PART_CNT && (#[trigger] entry_at(buf, i)).sector_cnt != 0 implies non_empty(
        table_of(buf),
    ).contains(entry_at(buf, i)) by {
        assert(table_of(buf)[i] == entry_at(buf, i));
    }
}

/// A boot record whose non-empty entries are out of ascending order is
/// refused as not sorted, whatever else it holds.
pub proof fn lemma_unsorted_table_refused(buf: Seq<u8>)
    requires
        !sorted(non_empty(table_of(buf))),
    ensures
        table_error(buf) == Some(DiskError::PartitionTableNotSorted),
{
}

/// A boot record whose non-empty entries are in order but where one ends
/// after the next one starts is refused as overlapping.
pub proof fn lemma_overlapping_table_refused(buf: Seq<u8>, i: int)
    requires
        sorted(non_empty(table_of(buf))),
        0 <= i < non_empty(table_of(buf)).len() - 1,
        non_empty(table_of(buf))[i].lba_start + non_empty(table_of(buf))[i].sector_cnt > non_empty(
            table_of(buf),
        )[i + 1].lba_start,
    ensures
        table_error(buf) == Some(DiskError::OverlappingPartitions),
{
}

} // verus!
