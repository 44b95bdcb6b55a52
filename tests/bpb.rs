use fat_forensics::filesystem::bpb::Bpb;
use fat_forensics::filesystem::fat_error::FATError;
use fat_forensics::filesystem::fat_type::FATType;
use fat_forensics::utils::IoError;

/// A valid FAT32 boot sector: 512 bytes per sector, 4 sectors per cluster,
/// 32 reserved sectors, 2 FATs of 1024 sectors, 300000 sectors.
fn fat32_sector() -> Vec<u8> {
    let mut b = vec![0u8; 512];
    b[0] = 0xEB;
    b[1] = 0x3C;
    b[2] = 0x90;
    b[3..11].copy_from_slice(b"MSWIN4.1");
    b[11..13].copy_from_slice(&512u16.to_le_bytes());
    b[13] = 4;
    b[14..16].copy_from_slice(&32u16.to_le_bytes());
    b[16] = 2;
    b[21] = 0xF8;
    b[32..36].copy_from_slice(&300_000u32.to_le_bytes());
    b[36..40].copy_from_slice(&1024u32.to_le_bytes());
    b[44..48].copy_from_slice(&2u32.to_le_bytes());
    b[66] = 0x29;
    b[71..82].copy_from_slice(b"NO NAME    ");
    b[82..90].copy_from_slice(b"FAT32   ");
    b[510] = 0x55;
    b[511] = 0xAA;
    b
}

fn validate(b: &[u8]) -> Result<Bpb, FATError> {
    Bpb::from(b, 0, true, 512)
}

#[test]
fn valid_fat32_sector_validates() {
    let bpb = validate(&fat32_sector()).unwrap();
    assert_eq!(bpb.bytes_per_sec, 512);
    assert_eq!(bpb.sec_per_clus, 4);
    assert_eq!(bpb.rsvd_sec_cnt, 32);
    assert_eq!(bpb.num_fat, 2);
    assert_eq!(bpb.root_clus, 2);
    assert_eq!(&bpb.oem_name, b"MSWIN4.1");
    assert_eq!(bpb.boot_code.len(), 420);
    assert_eq!(bpb.cluster_count(), (300_000 - 32 - 2048) / 4);
    assert_eq!(bpb.fat_type(), FATType::FAT32);
    assert_eq!(bpb.fat_sz(), 1024);
    assert_eq!(bpb.tot_sec(), 300_000);
}

#[test]
fn jump_e9_is_accepted() {
    let mut b = fat32_sector();
    b[0] = 0xE9;
    b[1] = 0x00;
    b[2] = 0x00;
    assert!(validate(&b).is_ok());
}

#[test]
fn bad_jump_is_refused() {
    let mut b = fat32_sector();
    b[2] = 0x91;
    assert_eq!(validate(&b).unwrap_err(), FATError::InvalidJmp(0xEB3C91));
}

#[test]
fn bad_bytes_per_sector_is_refused() {
    let mut b = fat32_sector();
    b[11..13].copy_from_slice(&500u16.to_le_bytes());
    assert_eq!(validate(&b).unwrap_err(), FATError::InvalidBytesPerSec(500));
}

#[test]
fn bad_sectors_per_cluster_is_refused() {
    let mut b = fat32_sector();
    b[13] = 3;
    assert_eq!(validate(&b).unwrap_err(), FATError::InvalidSecPerClus(3));
}

#[test]
fn cluster_over_32k_is_refused() {
    let mut b = fat32_sector();
    b[11..13].copy_from_slice(&4096u16.to_le_bytes());
    b[13] = 16;
    assert_eq!(validate(&b).unwrap_err(), FATError::InvalidClusSz(65536));
}

#[test]
fn bad_trailing_signature_is_refused() {
    let mut b = fat32_sector();
    b[511] = 0xAB;
    assert_eq!(validate(&b).unwrap_err(), FATError::InvalidSignature(0x55AB));
}

#[test]
fn small_volume_is_not_fat32() {
    let mut b = fat32_sector();
    b[32..36].copy_from_slice(&20_000u32.to_le_bytes());
    assert_eq!(validate(&b).unwrap_err(), FATError::UnsupportedFATType(FATType::FAT16));
}

#[test]
fn zero_reserved_sectors_is_refused() {
    let mut b = fat32_sector();
    b[14..16].copy_from_slice(&0u16.to_le_bytes());
    assert_eq!(validate(&b).unwrap_err(), FATError::InvalidRsvdSecCnt(0));
}

#[test]
fn zero_fats_is_refused() {
    let mut b = fat32_sector();
    b[16] = 0;
    assert_eq!(validate(&b).unwrap_err(), FATError::InvalidNumFat(0));
}

#[test]
fn root_entries_on_fat32_are_refused() {
    let mut b = fat32_sector();
    b[17..19].copy_from_slice(&16u16.to_le_bytes());
    assert_eq!(validate(&b).unwrap_err(), FATError::InvalidRootEntCnt(16));
}

#[test]
fn sixteen_bit_total_on_fat32_is_refused() {
    let mut b = fat32_sector();
    // The 16-bit total replaces the 32-bit one in the cluster count, so the
    // 32-bit FAT size is shrunk to keep the volume FAT32.
    b[19..21].copy_from_slice(&0xFFFFu16.to_le_bytes());
    b[16] = 1;
    b[14..16].copy_from_slice(&1u16.to_le_bytes());
    b[36..40].copy_from_slice(&1u32.to_le_bytes());
    b[13] = 1;
    assert_eq!(
        validate(&b).unwrap_err(),
        FATError::InvalidTotSec { tot_sec_16: 0xFFFF, tot_sec_32: 300_000 }
    );
}

#[test]
fn sixteen_bit_fat_size_on_fat32_is_refused() {
    let mut b = fat32_sector();
    b[22..24].copy_from_slice(&1024u16.to_le_bytes());
    assert_eq!(
        validate(&b).unwrap_err(),
        FATError::InvalidFatSz { fat_sz_16: 1024, fat_sz_32: 1024 }
    );
}

#[test]
fn zero_fat_size_on_fat32_is_refused() {
    let mut b = fat32_sector();
    b[36..40].copy_from_slice(&0u32.to_le_bytes());
    assert_eq!(
        validate(&b).unwrap_err(),
        FATError::InvalidFatSz { fat_sz_16: 0, fat_sz_32: 0 }
    );
}

#[test]
fn root_cluster_below_two_is_refused() {
    let mut b = fat32_sector();
    b[44..48].copy_from_slice(&1u32.to_le_bytes());
    assert_eq!(validate(&b).unwrap_err(), FATError::InvalidRootClus(1));
}

#[test]
fn unvalidated_sector_is_returned_as_read() {
    let mut b = fat32_sector();
    b[0] = 0;
    b[13] = 0;
    let bpb = Bpb::from(&b, 0, false, 512).unwrap();
    assert_eq!(bpb.jmp, [0, 0x3C, 0x90]);
    assert_eq!(bpb.cluster_count(), 0);
    assert_eq!(bpb.fat_type(), FATType::FAT12);
}

#[test]
fn boot_sector_beyond_image_is_an_io_error() {
    let b = fat32_sector();
    assert_eq!(
        Bpb::from(&b, 1, true, 512).unwrap_err(),
        FATError::IOError(IoError { offset: 512, len: 512 })
    );
}

#[test]
fn boot_sector_is_read_at_its_sector() {
    let mut img = vec![0u8; 1024];
    img.extend_from_slice(&fat32_sector());
    assert!(Bpb::from(&img, 2, true, 512).is_ok());
}

/// A block with `cc` data clusters: one reserved sector, one FAT of one
/// sector, one sector per cluster.
fn with_clusters(cc: u32) -> Bpb {
    let mut b = fat32_sector();
    b[13] = 1;
    b[14..16].copy_from_slice(&1u16.to_le_bytes());
    b[16] = 1;
    b[36..40].copy_from_slice(&1u32.to_le_bytes());
    b[32..36].copy_from_slice(&(cc + 2).to_le_bytes());
    Bpb::parse(&b)
}

#[test]
fn fat_type_boundaries() {
    assert_eq!(with_clusters(4084).cluster_count(), 4084);
    assert_eq!(with_clusters(4084).fat_type(), FATType::FAT12);
    assert_eq!(with_clusters(4085).fat_type(), FATType::FAT16);
    assert_eq!(with_clusters(65524).fat_type(), FATType::FAT16);
    assert_eq!(with_clusters(65525).fat_type(), FATType::FAT32);
}

#[test]
fn fat_type_follows_cluster_count_only() {
    let mut b = fat32_sector();
    b[13] = 2;
    b[14..16].copy_from_slice(&10u16.to_le_bytes());
    b[16] = 2;
    b[36..40].copy_from_slice(&5u32.to_le_bytes());
    b[32..36].copy_from_slice(&(20u32 + 2 * 65525).to_le_bytes());
    let other = Bpb::parse(&b);
    assert_eq!(other.cluster_count(), 65525);
    assert_eq!(other.fat_type(), with_clusters(65525).fat_type());
}

#[test]
fn root_directory_sectors_are_rounded_up() {
    let mut b = fat32_sector();
    b[17..19].copy_from_slice(&17u16.to_le_bytes());
    b[36..40].copy_from_slice(&0u32.to_le_bytes());
    b[22..24].copy_from_slice(&10u16.to_le_bytes());
    b[32..36].copy_from_slice(&0u32.to_le_bytes());
    b[19..21].copy_from_slice(&1000u16.to_le_bytes());
    let bpb = Bpb::parse(&b);
    // 17 entries of 32 bytes take 2 sectors of 512 bytes.
    assert_eq!(bpb.cluster_count(), (1000 - 32 - 20 - 2) / 4);
    assert_eq!(bpb.fat_sz(), 10);
    assert_eq!(bpb.tot_sec(), 1000);
}
