use fat_forensics::filesystem::dir_entry::DirEntry;
use fat_forensics::filesystem::fat::FATVol;
use fat_forensics::filesystem::fat_error::FATError;
use fat_forensics::filesystem::fat_type::FATType;
use fat_forensics::traits::{LayoutDisplay, Region, RegionKind};
use fat_forensics::utils::IoError;

const BPS: usize = 512;
const RSVD: usize = 32;
const FAT_SZ: usize = 600;
const DATA_START: usize = RSVD + 2 * FAT_SZ;
const CLUSTERS: usize = 70_000;
const EOC: u32 = 0x0FFF_FFFF;

fn boot_sector() -> Vec<u8> {
    let mut b = vec![0u8; BPS];
    b[0] = 0xEB;
    b[1] = 0x58;
    b[2] = 0x90;
    b[11..13].copy_from_slice(&(BPS as u16).to_le_bytes());
    b[13] = 1;
    b[14..16].copy_from_slice(&(RSVD as u16).to_le_bytes());
    b[16] = 2;
    b[32..36].copy_from_slice(&((DATA_START + CLUSTERS) as u32).to_le_bytes());
    b[36..40].copy_from_slice(&(FAT_SZ as u32).to_le_bytes());
    b[44..48].copy_from_slice(&2u32.to_le_bytes());
    b[510] = 0x55;
    b[511] = 0xAA;
    b
}

fn set_fat(img: &mut [u8], cluster: usize, value: u32) {
    for copy in 0..2 {
        let off = (RSVD + copy * FAT_SZ) * BPS + cluster * 4;
        img[off..off + 4].copy_from_slice(&value.to_le_bytes());
    }
}

fn cluster_offset(cluster: usize) -> usize {
    (DATA_START + cluster - 2) * BPS
}

fn put_entry(img: &mut [u8], cluster: usize, slot: usize, name: &[u8; 11], attr: u8, first: u32, size: u32) {
    let off = cluster_offset(cluster) + slot * 32;
    img[off..off + 11].copy_from_slice(name);
    img[off + 11] = attr;
    img[off + 20..off + 22].copy_from_slice(&((first >> 16) as u16).to_le_bytes());
    img[off + 26..off + 28].copy_from_slice(&(first as u16).to_le_bytes());
    img[off + 28..off + 32].copy_from_slice(&size.to_le_bytes());
}

/// A FAT32 volume at sector 0: root (cluster 2) holds directory `A`
/// (cluster 3), the two-cluster file `ROOT.TXT` (9, 10) of 10 bytes, after a
/// free slot, and the empty file `EMPTY`; `A` holds `.`, `..` and `B.TXT`
/// (cluster 4) of 100 bytes. Clusters 5, 7, 8 and 11 on are free and zero;
/// cluster 6 is free but holds data.
fn image(total_sectors: usize) -> Vec<u8> {
    let mut img = vec![0u8; total_sectors * BPS];
    img[..BPS].copy_from_slice(&boot_sector());
    set_fat(&mut img, 0, 0x0FFF_FFF8);
    set_fat(&mut img, 1, EOC);
    set_fat(&mut img, 2, EOC);
    set_fat(&mut img, 3, EOC);
    set_fat(&mut img, 4, EOC);
    set_fat(&mut img, 9, 10);
    set_fat(&mut img, 10, EOC);
    put_entry(&mut img, 2, 0, b"A          ", 0x10, 3, 0);
    put_entry(&mut img, 2, 1, b"ROOT    TXT", 0x20, 9, 10);
    put_entry(&mut img, 2, 3, b"EMPTY      ", 0x20, 0, 0);
    put_entry(&mut img, 3, 0, b".          ", 0x10, 3, 0);
    put_entry(&mut img, 3, 1, b"..         ", 0x10, 0, 0);
    put_entry(&mut img, 3, 2, b"B       TXT", 0x20, 4, 100);
    img[cluster_offset(6) + 7] = 1;
    img
}

fn small() -> Vec<u8> {
    image(DATA_START + 20)
}

fn volume(img: &[u8], sector_cnt: u32) -> FATVol {
    FATVol::from_image(img, 0, sector_cnt, true, BPS).unwrap()
}

#[test]
fn region_boundaries() {
    let img = small();
    let v = volume(&img, (DATA_START + CLUSTERS) as u32);
    assert_eq!(v.start(), 0);
    assert_eq!(v.rsvd_start(), 0);
    assert_eq!(v.fat_start(), RSVD as u64);
    assert_eq!(v.root_start(), DATA_START as u64);
    assert_eq!(v.data_start(), DATA_START as u64);
    assert_eq!(v.data_end(), (DATA_START + CLUSTERS) as u64);
    assert_eq!(v.end(), (DATA_START + CLUSTERS) as u64);
    assert_eq!(v.cluster_size(), 512);
    assert_eq!(v.root_dir_sector(), DATA_START as u64);
}

#[test]
fn cluster_to_sector_formula() {
    let img = small();
    let v = volume(&img, 100);
    assert_eq!(v.clus_to_sector(2), DATA_START as u64);
    assert_eq!(v.clus_to_sector(5), DATA_START as u64 + 3);
    assert!(v.clus_to_sector(5) < v.clus_to_sector(6));
    assert_eq!(v.clus_to_sector(0x0FFF_FFF6), DATA_START as u64 + 0x0FFF_FFF4);
}

#[test]
fn entry_width_and_bad_marker() {
    let mut img = small();
    let v = volume(&img, 100);
    assert_eq!(v.fat_entry_bit_sz(), 32);
    assert!(!v.is_bad_cluster(v.get_next_cluster(&img, 5).unwrap()));
    v.mark_as_bad(&mut img, 1).unwrap();
    assert!(v.is_bad_cluster(v.get_next_cluster(&img, 5).unwrap()));
    img[32..36].copy_from_slice(&20_000u32.to_le_bytes());
    let small_vol = FATVol::from_image(&img, 0, 100, false, BPS).unwrap();
    assert_eq!(small_vol.fat_entry_bit_sz(), 16);
    assert!(small_vol.is_bad_cluster(0xFFF7));
}

#[test]
fn chain_of_two_clusters() {
    let img = small();
    let v = volume(&img, 100);
    assert_eq!(v.list_clusters(&img, 9).unwrap(), vec![9, 10]);
    assert_eq!(v.get_next_cluster(&img, 9).unwrap(), 10);
}

#[test]
fn chain_starting_at_end_marker_is_empty() {
    let img = small();
    let v = volume(&img, 100);
    assert_eq!(v.list_clusters(&img, 0x0FFF_FFF8).unwrap(), Vec::<u32>::new());
}

#[test]
fn chain_from_reserved_cluster_is_refused() {
    let img = small();
    let v = volume(&img, 100);
    assert_eq!(v.list_clusters(&img, 0).unwrap_err(), FATError::InvalidClusterError(0));
    assert_eq!(v.list_clusters(&img, 1).unwrap_err(), FATError::InvalidClusterError(1));
    assert_eq!(v.list_dir(&img, 1).unwrap_err(), FATError::InvalidClusterError(1));
}

#[test]
fn cyclic_chain_is_reported_corrupt() {
    let mut img = small();
    set_fat(&mut img, 12, 12);
    let v = volume(&img, 100);
    assert_eq!(v.list_clusters(&img, 12).unwrap_err(), FATError::CorruptChain(12));
}

#[test]
fn entry_beyond_image_is_an_io_error() {
    let img = small();
    let v = volume(&img, 100);
    let cluster = 0x0FFF_0000u32;
    let offset = (RSVD * BPS) as u64 + cluster as u64 * 4;
    assert_eq!(
        v.get_next_cluster(&img, cluster).unwrap_err(),
        FATError::IOError(IoError { offset, len: 4 })
    );
}

#[test]
fn next_cluster_ignores_top_four_bits() {
    let mut img = small();
    set_fat(&mut img, 13, 0xF000_0007);
    let v = volume(&img, 100);
    assert_eq!(v.get_next_cluster(&img, 13).unwrap(), 7);
}

#[test]
fn root_listing_skips_free_slots() {
    let img = small();
    let v = volume(&img, 100);
    let entries = v.list_dir(&img, 2).unwrap();
    assert_eq!(entries.len(), 3);
    assert_eq!(&entries[0].name, b"A          ");
    assert!(entries[0].is_dir());
    assert!(entries[0].is_regular_dir());
    assert_eq!(entries[0].cluster_number(), 3);
    assert_eq!(&entries[1].name, b"ROOT    TXT");
    assert_eq!(entries[1].file_size, 10);
    assert!(!entries[1].is_dir());
    assert_eq!(&entries[2].name, b"EMPTY      ");
}

#[test]
fn dot_entries_are_not_regular_directories() {
    let img = small();
    let v = volume(&img, 100);
    let entries = v.list_dir(&img, 3).unwrap();
    assert_eq!(entries.len(), 3);
    assert!(entries[0].is_dir() && !entries[0].is_regular_dir());
    assert!(entries[1].is_dir() && !entries[1].is_regular_dir());
}

#[test]
fn find_file_in_subdirectory() {
    let img = small();
    let v = volume(&img, 100);
    let e = v.find_file(&img, "a/b.txt").unwrap();
    assert_eq!(&e.name, b"B       TXT");
    assert_eq!(e.file_size, 100);
    assert_eq!(e.cluster_number(), 4);
}

#[test]
fn find_file_ignores_case_and_extra_slashes() {
    let img = small();
    let v = volume(&img, 100);
    assert_eq!(v.find_file(&img, "/A//B.TXT").unwrap().cluster_number(), 4);
    assert_eq!(v.find_file(&img, "Root.Txt").unwrap().cluster_number(), 9);
}

#[test]
fn find_missing_file() {
    let img = small();
    let v = volume(&img, 100);
    assert_eq!(v.find_file(&img, "a/missing.txt").unwrap_err(), FATError::FileNotFound);
}

#[test]
fn find_empty_path() {
    let img = small();
    let v = volume(&img, 100);
    assert_eq!(v.find_file(&img, "").unwrap_err(), FATError::FileNotFound);
    assert_eq!(v.find_file(&img, "//").unwrap_err(), FATError::FileNotFound);
}

#[test]
fn directory_is_not_found_as_a_file() {
    let img = small();
    let v = volume(&img, 100);
    assert_eq!(v.find_file(&img, "a").unwrap_err(), FATError::FileNotFound);
    assert_eq!(v.find_file(&img, "root.txt/b.txt").unwrap_err(), FATError::FileNotFound);
}

#[test]
fn find_file_needs_fat32() {
    let mut img = small();
    img[32..36].copy_from_slice(&20_000u32.to_le_bytes());
    let v = FATVol::from_image(&img, 0, 100, false, BPS).unwrap();
    assert_eq!(
        v.find_file(&img, "a/b.txt").unwrap_err(),
        FATError::UnsupportedFATType(FATType::FAT16)
    );
}

#[test]
fn mark_as_bad_finds_first_free_run() {
    let mut img = small();
    let v = volume(&img, 100);
    assert_eq!(v.mark_as_bad(&mut img, 2).unwrap(), 7);
    for cluster in [7usize, 8] {
        for copy in 0..2 {
            let off = (RSVD + copy * FAT_SZ) * BPS + cluster * 4;
            assert_eq!(&img[off..off + 4], &[0xF7, 0xFF, 0xFF, 0x0F]);
        }
        assert_eq!(v.get_next_cluster(&img, cluster as u32).unwrap(), 0x0FFF_FFF7);
    }
    assert_eq!(v.get_next_cluster(&img, 5).unwrap(), 0);
    assert_eq!(v.list_clusters(&img, 7).unwrap_err(), FATError::IOError(IoError {
        offset: (RSVD * BPS) as u64 + 0x0FFF_FFF7u64 * 4,
        len: 4,
    }));
}

#[test]
fn mark_as_bad_single_cluster() {
    let mut img = small();
    let v = volume(&img, 100);
    assert_eq!(v.mark_as_bad(&mut img, 1).unwrap(), 5);
    assert_eq!(v.mark_as_bad(&mut img, 1).unwrap(), 7);
}

#[test]
fn mark_as_bad_skips_used_clusters() {
    let mut img = small();
    let v = volume(&img, 100);
    assert_eq!(v.mark_as_bad(&mut img, 3).unwrap(), 11);
}

#[test]
fn mark_as_bad_reports_unreadable_clusters() {
    let mut img = small();
    let before = img.clone();
    let v = volume(&img, 100);
    let err = v.mark_as_bad(&mut img, 30).unwrap_err();
    assert!(matches!(err, FATError::IOError(_)));
    assert_eq!(img, before);
}

#[test]
fn mark_as_bad_without_room() {
    let mut img = image(DATA_START + CLUSTERS);
    let v = volume(&img, 100);
    assert_eq!(
        v.mark_as_bad(&mut img, 80_000).unwrap_err(),
        FATError::NoFreeClusterChain(80_000)
    );
}

#[test]
fn file_slack_write() {
    let mut img = small();
    let v = volume(&img, 100);
    v.write_to_file_slack(&mut img, "a/b.txt", b"hidden").unwrap();
    let off = cluster_offset(4) + 100;
    assert_eq!(&img[off..off + 6], b"hidden");
}

#[test]
fn file_slack_too_small() {
    let mut img = small();
    let v = volume(&img, 100);
    let data = vec![1u8; 413];
    assert_eq!(
        v.write_to_file_slack(&mut img, "a/b.txt", &data).unwrap_err(),
        FATError::InsufficientSlackSpace { free: 412, needed: 413 }
    );
}

#[test]
fn file_slack_over_a_cluster_is_unsupported() {
    let mut img = small();
    let v = volume(&img, 100);
    let data = vec![1u8; 600];
    assert_eq!(
        v.write_to_file_slack(&mut img, "root.txt", &data).unwrap_err(),
        FATError::UnsupportedFeature
    );
}

#[test]
fn file_slack_of_empty_file() {
    let mut img = small();
    let v = volume(&img, 100);
    assert_eq!(
        v.write_to_file_slack(&mut img, "empty", b"x").unwrap_err(),
        FATError::InsufficientSlackSpace { free: 0, needed: 1 }
    );
}

#[test]
fn file_slack_of_missing_file() {
    let mut img = small();
    let v = volume(&img, 100);
    assert_eq!(
        v.write_to_file_slack(&mut img, "nope.txt", b"x").unwrap_err(),
        FATError::FileNotFound
    );
}

#[test]
fn volume_slack_exact_fit_and_one_more() {
    let sectors = DATA_START + CLUSTERS + 8;
    let mut img = image(sectors);
    let v = volume(&img, sectors as u32);
    let data = vec![0xABu8; 8 * BPS];
    v.write_to_volume_slack(&mut img, &data).unwrap();
    let off = (DATA_START + CLUSTERS) * BPS;
    assert_eq!(&img[off..off + data.len()], &data[..]);
    let more = vec![0xCDu8; 8 * BPS + 1];
    assert_eq!(
        v.write_to_volume_slack(&mut img, &more).unwrap_err(),
        FATError::InsufficientSlackSpace { free: 4096, needed: 4097 }
    );
}

#[test]
fn no_volume_slack() {
    let mut img = small();
    let v = volume(&img, (DATA_START + CLUSTERS) as u32);
    assert_eq!(
        v.write_to_volume_slack(&mut img, b"x").unwrap_err(),
        FATError::InsufficientSlackSpace { free: 0, needed: 1 }
    );
}

#[test]
fn volume_slack_beyond_image() {
    let mut img = small();
    let v = volume(&img, (DATA_START + CLUSTERS + 1) as u32);
    assert_eq!(
        v.write_to_volume_slack(&mut img, b"x").unwrap_err(),
        FATError::IOError(IoError { offset: ((DATA_START + CLUSTERS) * BPS) as u64, len: 1 })
    );
}

#[test]
fn volume_layout_rows() {
    let img = small();
    let v = volume(&img, (DATA_START + CLUSTERS + 8) as u32);
    assert_eq!(
        v.display_layout(),
        vec![
            Region { kind: RegionKind::Reserved, start: 0, end: 32 },
            Region { kind: RegionKind::Fat(0), start: 32, end: 632 },
            Region { kind: RegionKind::Fat(1), start: 632, end: 1232 },
            Region { kind: RegionKind::Data, start: 1232, end: 71232 },
            Region { kind: RegionKind::VolumeSlack, start: 71232, end: 71240 },
        ]
    );
}

#[test]
fn dir_entry_from_bytes() {
    let mut b = [0u8; 32];
    b[..11].copy_from_slice(b"HELLO   TXT");
    b[11] = 0x21;
    b[20..22].copy_from_slice(&1u16.to_le_bytes());
    b[26..28].copy_from_slice(&2u16.to_le_bytes());
    b[28..32].copy_from_slice(&1234u32.to_le_bytes());
    let e = DirEntry::from_slice(&b);
    assert_eq!(e.cluster_number(), 0x1_0002);
    assert_eq!(e.file_size, 1234);
    assert!(!e.is_dir());
    assert!(!e.is_long_name());
    assert!(e.same_short_name("hello.txt"));
    assert!(e.same_short_name("HELLO.TXT.bak"));
    assert!(!e.same_short_name("hello.tx"));
    assert!(!e.same_short_name("hello"));
    assert!(!e.same_short_name("hello.text"));
}

#[test]
fn long_base_name_never_matches() {
    let mut b = [0u8; 32];
    b[..11].copy_from_slice(b"ABCDEFGHTXT");
    let e = DirEntry::from_slice(&b);
    assert!(e.same_short_name("abcdefgh.txt"));
    assert!(!e.same_short_name("abcdefghi.txt"));
    assert_eq!(DirEntry::to_8_3_name(b"abcdefghi", b""), None);
    assert_eq!(DirEntry::to_8_3_name(b"ab", b"c").unwrap(), b"AB      C  ".to_vec());
}

#[test]
fn long_name_fragment() {
    let mut b = [0u8; 32];
    b[11] = 0x0F;
    assert!(DirEntry::from_slice(&b).is_long_name());
}

#[test]
fn end_and_bad_markers() {
    assert!(DirEntry::is_eof(0x0FFF_FFF8, FATType::FAT32));
    assert!(!DirEntry::is_eof(0x0FFF_FFF7, FATType::FAT32));
    assert!(DirEntry::is_eof(0xFFF8, FATType::FAT16));
    assert!(!DirEntry::is_eof(0xFFF7, FATType::FAT16));
    assert!(DirEntry::is_eof(0x0FF8, FATType::FAT12));
    assert!(!DirEntry::is_eof(0x0FF7, FATType::FAT12));
    assert_eq!(DirEntry::bad_cluster_marker(FATType::FAT32), 0x0FFF_FFF7);
    assert_eq!(DirEntry::bad_cluster_marker(FATType::FAT16), 0xFFF7);
    assert_eq!(DirEntry::bad_cluster_marker(FATType::FAT12), 0x0FF7);
}

#[test]
fn directory_tree_depth_first() {
    let img = small();
    let v = volume(&img, 100);
    let rows = v.display_tree(&img).unwrap();
    let names: Vec<(u64, Vec<u8>)> = rows.iter().map(|(d, e)| (*d, e.fmt_name())).collect();
    assert_eq!(
        names,
        vec![
            (0, b"A".to_vec()),
            (1, b".".to_vec()),
            (1, b"..".to_vec()),
            (1, b"B.TXT".to_vec()),
            (0, b"ROOT.TXT".to_vec()),
            (0, b"EMPTY".to_vec()),
        ]
    );
}

#[test]
fn directory_cycle_is_reported_corrupt() {
    let mut img = small();
    // `A` gets a subdirectory `LOOP` that points back at `A`.
    put_entry(&mut img, 3, 3, b"LOOP       ", 0x10, 3, 0);
    let v = volume(&img, 100);
    assert!(matches!(v.display_tree(&img), Err(FATError::CorruptChain(3))));
}

#[test]
fn tree_needs_fat32() {
    let mut img = small();
    img[32..36].copy_from_slice(&20_000u32.to_le_bytes());
    let v = FATVol::from_image(&img, 0, 100, false, BPS).unwrap();
    assert_eq!(
        v.display_tree(&img).unwrap_err(),
        FATError::UnsupportedFATType(FATType::FAT16)
    );
}

#[test]
fn display_names() {
    let mut b = [0u8; 32];
    b[..11].copy_from_slice(b"readme     ");
    assert_eq!(DirEntry::from_slice(&b).fmt_name(), b"README".to_vec());
    b[..11].copy_from_slice(b"readme  md ");
    assert_eq!(DirEntry::from_slice(&b).fmt_name(), b"readme.md".to_vec());
}
