use fat_forensics::partition::disk_error::DiskError;
use fat_forensics::partition::mbr::{BootSignature, Mbr, PTEntry, PTType};
use fat_forensics::traits::{LayoutDisplay, Region, RegionKind};
use fat_forensics::utils::IoError;

fn put_entry(buf: &mut [u8], i: usize, kind: u8, lba: u32, cnt: u32) {
    let off = 446 + i * 16;
    buf[off + 4] = kind;
    buf[off + 8..off + 12].copy_from_slice(&lba.to_le_bytes());
    buf[off + 12..off + 16].copy_from_slice(&cnt.to_le_bytes());
}

fn boot_record(entries: &[(u8, u32, u32)]) -> Vec<u8> {
    let mut buf = vec![0u8; 512];
    for (i, e) in entries.iter().enumerate() {
        put_entry(&mut buf, i, e.0, e.1, e.2);
    }
    buf[510] = 0x55;
    buf[511] = 0xAA;
    buf
}

#[test]
fn valid_table_lists_non_empty_entries() {
    let buf = boot_record(&[(0x0C, 2048, 1000), (0, 0, 0), (0x83, 4096, 500), (0, 0, 0)]);
    let mbr = Mbr::parse(&buf, 10000).unwrap();
    let entries = mbr.pt_entries();
    assert_eq!(entries.len(), 2);
    assert_eq!(
        entries[0],
        PTEntry { pt_type: PTType::LBAFat32, lba_start: 2048, sector_cnt: 1000 }
    );
    assert_eq!(entries[1].pt_type(), PTType::Unsupported(0x83));
    assert_eq!(entries[1].lba_start(), 4096);
    assert_eq!(entries[1].sector_cnt(), 500);
    assert_eq!(mbr.sector_cnt(), 10000);
    assert_eq!(mbr.boot_signature, BootSignature::Mbr(0xAA55));
}

#[test]
fn adjacent_partitions_are_accepted() {
    let buf = boot_record(&[(0x0C, 100, 100), (0x0C, 200, 50), (0x0C, 250, 1), (0, 0, 0)]);
    assert_eq!(Mbr::parse(&buf, 1000).unwrap().pt_entries().len(), 3);
}

#[test]
fn empty_table_is_accepted() {
    let buf = boot_record(&[]);
    assert!(Mbr::parse(&buf, 0).unwrap().pt_entries().is_empty());
}

#[test]
fn unsorted_table_is_refused() {
    let buf = boot_record(&[(0x83, 4096, 500), (0x0C, 2048, 1000)]);
    assert_eq!(Mbr::parse(&buf, 10000).unwrap_err(), DiskError::PartitionTableNotSorted);
}

#[test]
fn unsorted_table_wins_over_bad_signature() {
    let mut buf = boot_record(&[(0x83, 4096, 500), (0x0C, 2048, 1000)]);
    buf[510] = 0;
    assert_eq!(Mbr::parse(&buf, 10000).unwrap_err(), DiskError::PartitionTableNotSorted);
}

#[test]
fn overlapping_table_is_refused() {
    let buf = boot_record(&[(0x0C, 2048, 2049), (0x83, 4096, 500)]);
    assert_eq!(Mbr::parse(&buf, 10000).unwrap_err(), DiskError::OverlappingPartitions);
}

#[test]
fn overlap_past_u32_is_detected() {
    let buf = boot_record(&[(0x0C, 0xFFFF_FF00, 0x200), (0x0C, 0xFFFF_FFF0, 1)]);
    assert_eq!(Mbr::parse(&buf, 10000).unwrap_err(), DiskError::OverlappingPartitions);
}

#[test]
fn bad_signature_is_refused_with_its_value() {
    let mut buf = boot_record(&[(0x0C, 2048, 1000)]);
    buf[510] = 0x34;
    buf[511] = 0x12;
    assert_eq!(Mbr::parse(&buf, 10000).unwrap_err(), DiskError::InvalidSignature(0x1234));
}

#[test]
fn short_boot_record_is_an_io_error() {
    let buf = vec![0u8; 100];
    assert_eq!(
        Mbr::parse(&buf, 1).unwrap_err(),
        DiskError::Io(IoError { offset: 0, len: 512 })
    );
}

#[test]
fn image_smaller_than_a_sector_is_an_io_error() {
    let img = vec![0u8; 300];
    assert_eq!(
        Mbr::from_image(&img, 512).unwrap_err(),
        DiskError::Io(IoError { offset: 0, len: 512 })
    );
}

#[test]
fn image_size_gives_disk_sectors() {
    let mut img = boot_record(&[(0x0C, 4, 4)]);
    img.resize(512 * 10 + 100, 0);
    assert_eq!(Mbr::from_image(&img, 512).unwrap().sector_cnt(), 10);
}

#[test]
fn partition_type_from_byte() {
    assert_eq!(PTType::from_byte(0x0C), PTType::LBAFat32);
    assert_eq!(PTType::from_byte(0x0B), PTType::Unsupported(0x0B));
}

#[test]
fn boot_signature_from_u16() {
    assert_eq!(BootSignature::from_u16(0xAA55), BootSignature::Mbr(0xAA55));
    assert_eq!(BootSignature::from_u16(0x55AA), BootSignature::Unsupported(0x55AA));
}

#[test]
fn mbr_layout_shows_gaps() {
    let buf = boot_record(&[(0x0C, 2048, 1000), (0x83, 4096, 500)]);
    let mbr = Mbr::parse(&buf, 10000).unwrap();
    let rows = mbr.display_layout();
    assert_eq!(
        rows,
        vec![
            Region { kind: RegionKind::Unallocated, start: 0, end: 2048 },
            Region { kind: RegionKind::Partition(1, PTType::LBAFat32), start: 2048, end: 3048 },
            Region { kind: RegionKind::Unallocated, start: 3048, end: 4096 },
            Region { kind: RegionKind::Partition(2, PTType::Unsupported(0x83)), start: 4096, end: 4596 },
            Region { kind: RegionKind::Unallocated, start: 4596, end: 10000 },
        ]
    );
}
