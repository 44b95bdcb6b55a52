use fat_forensics::filesystem::fat_error::FATError;
use fat_forensics::partition::disk_error::DiskError;
use fat_forensics::partition::mbr::PTType;
use fat_forensics::traits::{LayoutDisplay, RegionKind};
use fat_forensics::utils::{read_sector, u16_at, u32_at, u8_at, write_at, write_file_at, IoError, WriteError};
use fat_forensics::Disk;

const SECTOR: usize = 512;
const DISK_SECTORS: usize = 10 * 1024 * 1024 / SECTOR;
const PART_START: usize = 2048;
const PART_SECTORS: usize = DISK_SECTORS - PART_START;
const FAT_SZ: usize = 36;

/// A 10 MiB image with one FAT32 (LBA) partition from sector 2048 to the
/// end: 4 sectors per cluster, 32 reserved sectors, 2 FATs, and a root
/// directory holding one file.
fn ten_mib_image() -> Vec<u8> {
    let mut img = vec![0u8; DISK_SECTORS * SECTOR];
    let e = 446;
    img[e + 4] = 0x0C;
    img[e + 8..e + 12].copy_from_slice(&(PART_START as u32).to_le_bytes());
    img[e + 12..e + 16].copy_from_slice(&(PART_SECTORS as u32).to_le_bytes());
    img[510] = 0x55;
    img[511] = 0xAA;
    let b = PART_START * SECTOR;
    img[b] = 0xEB;
    img[b + 1] = 0x58;
    img[b + 2] = 0x90;
    img[b + 11..b + 13].copy_from_slice(&512u16.to_le_bytes());
    img[b + 13] = 4;
    img[b + 14..b + 16].copy_from_slice(&32u16.to_le_bytes());
    img[b + 16] = 2;
    img[b + 32..b + 36].copy_from_slice(&(PART_SECTORS as u32).to_le_bytes());
    img[b + 36..b + 40].copy_from_slice(&(FAT_SZ as u32).to_le_bytes());
    img[b + 44..b + 48].copy_from_slice(&2u32.to_le_bytes());
    img[b + 510] = 0x55;
    img[b + 511] = 0xAA;
    for copy in 0..2 {
        let fat = (PART_START + 32 + copy * FAT_SZ) * SECTOR;
        img[fat..fat + 4].copy_from_slice(&0x0FFF_FFF8u32.to_le_bytes());
        img[fat + 4..fat + 8].copy_from_slice(&0x0FFF_FFFFu32.to_le_bytes());
        img[fat + 8..fat + 12].copy_from_slice(&0x0FFF_FFFFu32.to_le_bytes());
        img[fat + 12..fat + 16].copy_from_slice(&0x0FFF_FFFFu32.to_le_bytes());
    }
    let root = (PART_START + 32 + 2 * FAT_SZ) * SECTOR;
    img[root..root + 11].copy_from_slice(b"FLAG    TXT");
    img[root + 11] = 0x20;
    img[root + 26..root + 28].copy_from_slice(&3u16.to_le_bytes());
    img[root + 28..root + 32].copy_from_slice(&5u32.to_le_bytes());
    img
}

#[test]
fn ten_mib_image_has_one_volume() {
    let img = ten_mib_image();
    let disk = Disk::from_image(&img, SECTOR, false).unwrap();
    assert_eq!(disk.vol_count(), 1);
    assert!(disk.skipped.is_empty());
    assert_eq!(disk.part_table.sector_cnt(), DISK_SECTORS as u64);
    let vol = &disk.volumes[0];
    assert_eq!(vol.start(), PART_START as u32);
    let rows = vol.display_layout();
    assert_eq!(rows[0].kind, RegionKind::Reserved);
    assert_eq!(rows[0].start, PART_START as u64);
    assert_eq!(rows[1].kind, RegionKind::Fat(0));
    assert_eq!(rows[2].kind, RegionKind::Fat(1));
    assert_eq!(rows[1].end - rows[1].start, FAT_SZ as u64);
    assert_eq!(rows[2].end - rows[2].start, rows[1].end - rows[1].start);
    assert_eq!(rows[1].end, rows[2].start);
    let data = rows.iter().find(|r| r.kind == RegionKind::Data).unwrap();
    assert_eq!(data.start, (PART_START + 32 + 2 * FAT_SZ) as u64);
    assert!(data.end <= (PART_START + PART_SECTORS) as u64);
    let entries = vol.list_dir(&img, 2);
    // A partition this small counts as FAT16 by its clusters, and only
    // FAT32 directories are walked.
    assert!(matches!(entries, Err(FATError::UnsupportedFATType(_))));
}

#[test]
fn ten_mib_image_layout_of_partition_table() {
    let img = ten_mib_image();
    let disk = Disk::from_image(&img, SECTOR, false).unwrap();
    let rows = disk.part_table.display_layout();
    assert_eq!(rows.len(), 2);
    assert_eq!(rows[0].kind, RegionKind::Unallocated);
    assert_eq!(rows[1].kind, RegionKind::Partition(1, PTType::LBAFat32));
    assert_eq!(rows[1].end, DISK_SECTORS as u64);
}

#[test]
fn invalid_volume_is_skipped_with_validation() {
    let img = ten_mib_image();
    let disk = Disk::from_image(&img, SECTOR, true).unwrap();
    assert_eq!(disk.vol_count(), 0);
    assert_eq!(disk.skipped.len(), 1);
    assert!(matches!(disk.skipped[0].1, FATError::UnsupportedFATType(_)));
}

#[test]
fn bad_partition_table_fails_the_disk() {
    let mut img = ten_mib_image();
    img[511] = 0;
    assert_eq!(
        Disk::from_image(&img, SECTOR, false).unwrap_err(),
        DiskError::InvalidSignature(0x0055)
    );
}

#[test]
fn byte_readers() {
    let b = [1u8, 2, 3, 4, 5];
    assert_eq!(u8_at(&b, 4), 5);
    assert_eq!(u16_at(&b, 1), 0x0302);
    assert_eq!(u32_at(&b, 1), 0x0504_0302);
}

#[test]
fn sector_reads() {
    let img: Vec<u8> = (0..=255u8).cycle().take(1024).collect();
    assert_eq!(read_sector(&img, 1, 512).unwrap()[0], 0);
    assert_eq!(read_sector(&img, 1, 512).unwrap()[1], 1);
    assert_eq!(read_sector(&img, 2, 512).unwrap_err(), IoError { offset: 1024, len: 512 });
}

#[test]
fn writes_inside_and_outside_the_image() {
    let mut img = vec![0u8; 16];
    write_at(&mut img, 14, &[7, 8]).unwrap();
    assert_eq!(&img[14..], &[7, 8]);
    assert_eq!(write_at(&mut img, 15, &[1, 2]).unwrap_err(), IoError { offset: 15, len: 2 });
    assert_eq!(&img[14..], &[7, 8]);
}

#[test]
fn file_writes_respect_the_limit() {
    let mut img = vec![0u8; 64];
    write_file_at(&mut img, 8, b"flag", 12).unwrap();
    assert_eq!(&img[8..12], b"flag");
    assert_eq!(
        write_file_at(&mut img, 9, b"flag", 12).unwrap_err(),
        WriteError::LimitCrossed { offset: 9, len: 4, limit: 12 }
    );
    write_file_at(&mut img, 60, b"flag", 0).unwrap();
    assert_eq!(
        write_file_at(&mut img, 61, b"flag", 0).unwrap_err(),
        WriteError::Io(IoError { offset: 61, len: 4 })
    );
}
