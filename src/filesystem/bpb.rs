//! The BIOS Parameter Block: decoding, derived geometry and validation.
use vstd::prelude::*;

use super::fat_error::FATError;
use super::fat_type::{fat_type_of, FATType};
use crate::utils::{in_image, le16, le32, read_sector, u16_at, u32_at, IoError};

verus! {

/// Size in bytes of the decoded boot sector.
pub const BPB_LEN: usize = 512;

/// BIOS Parameter Block of a FAT boot sector, in the standard FAT32 layout.
#[derive(Debug)]
pub struct Bpb {
    /// Jump instruction to the boot code.
    pub jmp: [u8; 3],
    /// OEM identifier.
    pub oem_name: [u8; 8],
    /// Bytes per sector.
    pub bytes_per_sec: u16,
    /// Sectors per cluster.
    pub sec_per_clus: u8,
    /// Reserved sectors at the start of the volume.
    pub rsvd_sec_cnt: u16,
    /// Number of FAT copies.
    pub num_fat: u8,
    /// Root directory entries (FAT12/16 only).
    pub root_ent_cnt: u16,
    /// 16-bit total sector count.
    pub tot_sec_16: u16,
    /// Media descriptor.
    pub media: u8,
    /// 16-bit FAT size in sectors.
    pub fat_sz_16: u16,
    /// Sectors per track.
    pub sec_per_trl: u16,
    /// Number of heads.
    pub num_heds: u16,
    /// Hidden sectors preceding the partition.
    pub hidd_sec: u32,
    /// 32-bit total sector count.
    pub tot_sec_32: u32,
    /// 32-bit FAT size in sectors.
    pub fat_sz_32: u32,
    /// FAT mirroring flags.
    pub ext_flags: u16,
    /// File system version.
    pub fs_ver: u16,
    /// First cluster of the root directory.
    pub root_clus: u32,
    /// Sector of the FSInfo structure.
    pub fs_info: u16,
    /// Sector of the backup boot sector.
    pub bk_boot_sec: u16,
    /// Reserved.
    pub reserved: [u8; 12],
    /// Drive number.
    pub drv_num: u8,
    /// Reserved.
    pub reserved_1: u8,
    /// Extended boot signature.
    pub boot_sig: u8,
    /// Volume serial number.
    pub vol_id: u32,
    /// Volume label.
    pub vol_lab: [u8; 11],
    /// File system type label.
    pub fil_sys_type: [u8; 8],
    /// Boot code.
    pub boot_code: Vec<u8>,
    /// Trailing signature.
    pub sig: [u8; 2],
}

/// Whether `b` holds the fields stored in the boot sector `s`.
pub open spec fn decoded_from(b: Bpb, s: Seq<u8>) -> bool {
    &&& b.jmp@ == s.subrange(0, 3)
    &&& b.oem_name@ == s.subrange(3, 11)
    &&& b.bytes_per_sec == le16(s, 11)
    &&& b.sec_per_clus == s[13]
    &&& b.rsvd_sec_cnt == le16(s, 14)
    &&& b.num_fat == s[16]
    &&& b.root_ent_cnt == le16(s, 17)
    &&& b.tot_sec_16 == le16(s, 19)
    &&& b.media == s[21]
    &&& b.fat_sz_16 == le16(s, 22)
    &&& b.sec_per_trl == le16(s, 24)
    &&& b.num_heds == le16(s, 26)
    &&& b.hidd_sec == le32(s, 28)
    &&& b.tot_sec_32 == le32(s, 32)
    &&& b.fat_sz_32 == le32(s, 36)
    &&& b.ext_flags == le16(s, 40)
    &&& b.fs_ver == le16(s, 42)
    &&& b.root_clus == le32(s, 44)
    &&& b.fs_info == le16(s, 48)
    &&& b.bk_boot_sec == le16(s, 50)
    &&& b.reserved@ == s.subrange(52, 64)
    &&& b.drv_num == s[64]
    &&& b.reserved_1 == s[65]
    &&& b.boot_sig == s[66]
    &&& b.vol_id == le32(s, 67)
    &&& b.vol_lab@ == s.subrange(71, 82)
    &&& b.fil_sys_type@ == s.subrange(82, 90)
    &&& b.boot_code@ == s.subrange(90, 510)
    &&& b.sig@ == s.subrange(510, 512)
}

/// Whether `v` is a legal count of bytes per sector.
pub open spec fn legal_bytes_per_sec(v: u16) -> bool {
    v == 512 || v == 1024 || v == 2048 || v == 4096
}

/// Whether `v` is a legal count of sectors per cluster.
pub open spec fn legal_sec_per_clus(v: u8) -> bool {
    v == 1 || v == 2 || v == 4 || v == 8 || v == 16 || v == 32 || v == 64 || v == 128
}

impl Bpb {
    /// Sectors taken by the FAT12/16 root directory, rounded up; none when
    /// the sector size is zero.
    pub open spec fn spec_root_dir_sectors(&self) -> nat {
        if self.bytes_per_sec == 0 {
            0
        } else {
            ((self.root_ent_cnt * 32 + self.bytes_per_sec - 1) / self.bytes_per_sec as int) as nat
        }
    }

    /// The FAT size used to count clusters: the 16-bit field when nonzero.
    pub open spec fn spec_fat_size(&self) -> nat {
        if self.fat_sz_16 > 0 {
            self.fat_sz_16 as nat
        } else {
            self.fat_sz_32 as nat
        }
    }

    /// The total used to count clusters: the 16-bit field when nonzero.
    pub open spec fn spec_total_sectors(&self) -> nat {
        if self.tot_sec_16 != 0 {
            self.tot_sec_16 as nat
        } else {
            self.tot_sec_32 as nat
        }
    }

    /// Sectors before the data region: reserved, FATs and root directory.
    pub open spec fn spec_overhead(&self) -> nat {
        (self.rsvd_sec_cnt + self.num_fat * self.spec_fat_size() + self.spec_root_dir_sectors()) as nat
    }

    /// Number of data clusters; zero when the geometry leaves no room for
    /// data or a sector or cluster size is zero.
    pub open spec fn spec_cluster_count(&self) -> nat {
        if self.bytes_per_sec == 0 || self.sec_per_clus == 0 || self.spec_total_sectors()
            < self.spec_overhead() {
            0
        } else {
            ((self.spec_total_sectors() - self.spec_overhead()) / self.sec_per_clus as int) as nat
        }
    }

    pub open spec fn spec_fat_type(&self) -> FATType {
        fat_type_of(self.spec_cluster_count())
    }

    /// Sectors per FAT: the 16-bit field when nonzero, else the 32-bit one.
    pub open spec fn spec_fat_sz(&self) -> u32 {
        if self.fat_sz_16 > 0 {
            self.fat_sz_16 as u32
        } else {
            self.fat_sz_32
        }
    }

    /// Total sectors: the 16-bit field when nonzero, else the 32-bit one.
    pub open spec fn spec_tot_sec(&self) -> u32 {
        if self.tot_sec_16 != 0 {
            self.tot_sec_16 as u32
        } else {
            self.tot_sec_32
        }
    }

    /// The three jump bytes as one number, the first byte most significant.
    pub open spec fn spec_jmp_value(&self) -> u32 {
        (self.jmp@[0] * 0x10000 + self.jmp@[1] * 0x100 + self.jmp@[2]) as u32
    }

    /// The two signature bytes as one number, the first byte most
    /// significant.
    pub open spec fn spec_sig_value(&self) -> u16 {
        (self.sig@[0] * 0x100 + self.sig@[1]) as u16
    }

    /// The first FAT32-specific rule that the block breaks, if any.
    pub open spec fn spec_fat32_error(&self) -> Option<FATError> {
        if self.rsvd_sec_cnt == 0 {
            Some(FATError::InvalidRsvdSecCnt(self.rsvd_sec_cnt))
        } else if self.num_fat == 0 {
            Some(FATError::InvalidNumFat(self.num_fat))
        } else if self.root_ent_cnt != 0 {
            Some(FATError::InvalidRootEntCnt(self.root_ent_cnt))
        } else if self.tot_sec_16 != 0 || self.spec_tot_sec() == 0 {
            Some(
                FATError::InvalidTotSec { tot_sec_16: self.tot_sec_16, tot_sec_32: self.tot_sec_32 },
            )
        } else if self.fat_sz_16 != 0 || self.fat_sz_32 == 0 {
            Some(FATError::InvalidFatSz { fat_sz_16: self.fat_sz_16, fat_sz_32: self.fat_sz_32 })
        } else if self.root_clus < 2 {
            Some(FATError::InvalidRootClus(self.root_clus))
        } else {
            None
        }
    }

    /// The first rule that the block breaks, general rules before FAT32
    /// ones, or `None` for a valid FAT32 boot sector.
    pub open spec fn spec_validation_error(&self) -> Option<FATError> {
        if !((self.jmp@[0] == 0xEB && self.jmp@[2] == 0x90) || self.jmp@[0] == 0xE9) {
            Some(FATError::InvalidJmp(self.spec_jmp_value()))
        } else if !legal_bytes_per_sec(self.bytes_per_sec) {
            Some(FATError::InvalidBytesPerSec(self.bytes_per_sec))
        } else if !legal_sec_per_clus(self.sec_per_clus) {
            Some(FATError::InvalidSecPerClus(self.sec_per_clus))
        } else if self.bytes_per_sec * self.sec_per_clus > 32 * 1024 {
            Some(FATError::InvalidClusSz((self.bytes_per_sec * self.sec_per_clus) as u32))
        } else if !(self.sig@[0] == 0x55 && self.sig@[1] == 0xAA) {
            Some(FATError::InvalidSignature(self.spec_sig_value()))
        } else if self.spec_fat_type() != FATType::FAT32 {
            Some(FATError::UnsupportedFATType(self.spec_fat_type()))
        } else {
            self.spec_fat32_error()
        }
    }

    /// Decodes the fixed-layout fields of a boot sector.
    pub fn parse(buf: &[u8]) -> (r: Bpb)
        requires
            buf@.len() >= BPB_LEN,
        ensures
            decoded_from(r, buf@),
    {
        let mut boot_code: Vec<u8> = Vec::new();
        let mut i: usize = 90;
        while i < 510
            invariant
                90 <= i <= 510,
                buf@.len() >= BPB_LEN,
                boot_code@ == buf@.subrange(90, i as int),
            decreases 510 - i,
        {
            boot_code.push(buf[i]);
            i = i + 1;
            assert(boot_code@ =~= buf@.subrange(90, i as int));
        }
        let r = Bpb {
            jmp: [buf[0], buf[1], buf[2]],
            oem_name: [buf[3], buf[4], buf[5], buf[6], buf[7], buf[8], buf[9], buf[10]],
            bytes_per_sec: u16_at(buf, 11),
            sec_per_clus: buf[13],
            rsvd_sec_cnt: u16_at(buf, 14),
            num_fat: buf[16],
            root_ent_cnt: u16_at(buf, 17),
            tot_sec_16: u16_at(buf, 19),
            media: buf[21],
            fat_sz_16: u16_at(buf, 22),
            sec_per_trl: u16_at(buf, 24),
            num_heds: u16_at(buf, 26),
            hidd_sec: u32_at(buf, 28),
            tot_sec_32: u32_at(buf, 32),
            fat_sz_32: u32_at(buf, 36),
            ext_flags: u16_at(buf, 40),
            fs_ver: u16_at(buf, 42),
            root_clus: u32_at(buf, 44),
            fs_info: u16_at(buf, 48),
            bk_boot_sec: u16_at(buf, 50),
            reserved: [
                buf[52],
                buf[53],
                buf[54],
                buf[55],
                buf[56],
                buf[57],
                buf[58],
                buf[59],
                buf[60],
                buf[61],
                buf[62],
                buf[63],
            ],
            drv_num: buf[64],
            reserved_1: buf[65],
            boot_sig: buf[66],
            vol_id: u32_at(buf, 67),
            vol_lab: [
                buf[71],
                buf[72],
                buf[73],
                buf[74],
                buf[75],
                buf[76],
                buf[77],
                buf[78],
                buf[79],
                buf[80],
                buf[81],
            ],
            fil_sys_type: [buf[82], buf[83], buf[84], buf[85], buf[86], buf[87], buf[88], buf[89]],
            boot_code,
            sig: [buf[510], buf[511]],
        };
        assert(r.jmp@ =~= buf@.subrange(0, 3));
        assert(r.oem_name@ =~= buf@.subrange(3, 11));
        assert(r.reserved@ =~= buf@.subrange(52, 64));
        assert(r.vol_lab@ =~= buf@.subrange(71, 82));
        assert(r.fil_sys_type@ =~= buf@.subrange(82, 90));
        assert(r.sig@ =~= buf@.subrange(510, 512));
        r
    }

    /// Reads the boot sector at `sector` and decodes it; with `validate`, the
    /// block must also be a valid FAT32 boot sector.
    pub fn from(disk: &[u8], sector: u32, validate: bool, sector_size: usize) -> (r: Result<
        Bpb,
        FATError,
    >)
        requires
            sector_size <= u32::MAX,
        ensures
            !in_image(disk@.len() as int, sector * sector_size, sector_size as int) ==> r == Err::<
                Bpb,
                FATError,
            >(FATError::IOError(IoError { offset: (sector * sector_size) as u64, len: sector_size as u64 })),
            in_image(disk@.len() as int, sector * sector_size, sector_size as int) && sector_size
                < BPB_LEN ==> r == Err::<Bpb, FATError>(
                FATError::IOError(IoError { offset: (sector * sector_size) as u64, len: BPB_LEN as u64 }),
            ),
            r matches Ok(b) ==> decoded_from(b, disk@.subrange(sector * sector_size, sector * sector_size + BPB_LEN)),
            in_image(disk@.len() as int, sector * sector_size, sector_size as int) && sector_size
                >= BPB_LEN ==> {
                &&& !validate ==> r is Ok
                &&& validate ==> match r {
                    Ok(b) => b.spec_validation_error() is None,
                    Err(e) => exists|b: Bpb| decoded_from(b, disk@.subrange(sector * sector_size, sector * sector_size + BPB_LEN))
                        && b.spec_validation_error() == Some(e),
                }
            },
    {
        assert(sector * sector_size <= u64::MAX) by (nonlinear_arith)
            requires
                sector <= u32::MAX,
                sector_size <= u32::MAX,
        ;
        let buf = match read_sector(disk, sector as u64, sector_size) {
            Ok(buf) => buf,
            Err(e) => return Err(FATError::IOError(e)),
        };
        if buf.len() < BPB_LEN {
            return Err(
                FATError::IOError(IoError { offset: sector as u64 * sector_size as u64, len: BPB_LEN as u64 }),
            );
        }
        let bpb = Bpb::parse(buf.as_slice());
        assert(buf@.subrange(0, BPB_LEN as int) =~= disk@.subrange(sector * sector_size, sector * sector_size + BPB_LEN));
        proof {
            lemma_decoded_prefix(bpb, buf@, BPB_LEN as int);
        }
        if validate {
            bpb.validate()
        } else {
            Ok(bpb)
        }
    }

    /// Number of data clusters: what the total leaves after the reserved
    /// sectors, the FATs and the root directory, in whole clusters.
    pub fn cluster_count(&self) -> (r: u32)
        ensures
            r == self.spec_cluster_count(),
    {
        if self.bytes_per_sec == 0 || self.sec_per_clus == 0 {
            return 0;
        }
        let bps = self.bytes_per_sec as u64;
        let root_dir_sectors = (self.root_ent_cnt as u64 * 32 + bps - 1) / bps;
        let fat_sz: u64 = if self.fat_sz_16 > 0 {
            self.fat_sz_16 as u64
        } else {
            self.fat_sz_32 as u64
        };
        let tot_sec: u64 = if self.tot_sec_16 != 0 {
            self.tot_sec_16 as u64
        } else {
            self.tot_sec_32 as u64
        };
        assert(self.num_fat * fat_sz <= 0xff * 0xffff_ffff) by (nonlinear_arith)
            requires
                self.num_fat <= 0xff,
                fat_sz <= 0xffff_ffff,
        ;
        let overhead = self.rsvd_sec_cnt as u64 + self.num_fat as u64 * fat_sz + root_dir_sectors;
        if tot_sec < overhead {
            return 0;
        }
        let r = (tot_sec - overhead) / self.sec_per_clus as u64;
        assert(r <= tot_sec) by (nonlinear_arith)
            requires
                r == (tot_sec - overhead) / self.sec_per_clus as int,
                overhead >= 0,
                tot_sec >= overhead,
                self.sec_per_clus >= 1,
        ;
        r as u32
    }

    /// The FAT type, from the number of data clusters alone: FAT12 below
    /// 4085, FAT16 below 65525, FAT32 from there on.
    pub fn fat_type(&self) -> (r: FATType)
        ensures
            r == self.spec_fat_type(),
    {
        let clus_cnt = self.cluster_count();
        if clus_cnt < 4085 {
            FATType::FAT12
        } else if clus_cnt < 65525 {
            FATType::FAT16
        } else {
            FATType::FAT32
        }
    }

    /// Sectors per FAT: the 16-bit field when nonzero, else the 32-bit one.
    pub fn fat_sz(&self) -> (r: u32)
        ensures
            r == self.spec_fat_sz(),
            r == self.spec_fat_size(),
    {
        if self.fat_sz_16 > 0 {
            self.fat_sz_16 as u32
        } else {
            self.fat_sz_32
        }
    }

    /// Total sectors: the 16-bit field when nonzero, else the 32-bit one.
    pub fn tot_sec(&self) -> (r: u32)
        ensures
            r == self.spec_tot_sec(),
            r == self.spec_total_sectors(),
    {
        if self.tot_sec_16 != 0 {
            self.tot_sec_16 as u32
        } else {
            self.tot_sec_32
        }
    }

    /// Checks the general rules of a boot sector, then the FAT32 ones; the
    /// first rule broken is the error.
    pub fn validate(self) -> (r: Result<Self, FATError>)
        ensures
            match self.spec_validation_error() {
                None => r == Ok::<Bpb, FATError>(self),
                Some(e) => r == Err::<Bpb, FATError>(e),
            },
    {
        if !((self.jmp[0] == 0xEB && self.jmp[2] == 0x90) || self.jmp[0] == 0xE9) {
            return Err(
                FATError::InvalidJmp(
                    self.jmp[0] as u32 * 0x10000 + self.jmp[1] as u32 * 0x100 + self.jmp[2] as u32,
                ),
            );
        }
        let bps = self.bytes_per_sec;
        if !(bps == 512 || bps == 1024 || bps == 2048 || bps == 4096) {
            return Err(FATError::InvalidBytesPerSec(bps));
        }
        let spc = self.sec_per_clus;
        if !(spc == 1 || spc == 2 || spc == 4 || spc == 8 || spc == 16 || spc == 32 || spc == 64
            || spc == 128) {
            return Err(FATError::InvalidSecPerClus(spc));
        }
        if bps as u32 * spc as u32 > 32 * 1024 {
            return Err(FATError::InvalidClusSz(bps as u32 * spc as u32));
        }
        if !(self.sig[0] == 0x55 && self.sig[1] == 0xAA) {
            return Err(FATError::InvalidSignature(self.sig[0] as u16 * 0x100 + self.sig[1] as u16));
        }
        let fat_type = self.fat_type();
        if fat_type == FATType::FAT32 {
            self.validate_fat32()
        } else {
            Err(FATError::UnsupportedFATType(fat_type))
        }
    }

    /// Checks the rules that a FAT32 boot sector must also follow.
    pub fn validate_fat32(self) -> (r: Result<Self, FATError>)
        ensures
            match self.spec_fat32_error() {
                None => r == Ok::<Bpb, FATError>(self),
                Some(e) => r == Err::<Bpb, FATError>(e),
            },
    {
        if self.rsvd_sec_cnt == 0 {
            return Err(FATError::InvalidRsvdSecCnt(self.rsvd_sec_cnt));
        }
        if self.num_fat == 0 {
            return Err(FATError::InvalidNumFat(self.num_fat));
        }
        if self.root_ent_cnt != 0 {
            return Err(FATError::InvalidRootEntCnt(self.root_ent_cnt));
        }
        if self.tot_sec_16 != 0 || self.tot_sec() == 0 {
            return Err(
                FATError::InvalidTotSec { tot_sec_16: self.tot_sec_16, tot_sec_32: self.tot_sec_32 },
            );
        }
        if self.fat_sz_16 != 0 || self.fat_sz_32 == 0 {
            return Err(FATError::InvalidFatSz { fat_sz_16: self.fat_sz_16, fat_sz_32: self.fat_sz_32 });
        }
        if self.root_clus < 2 {
            return Err(FATError::InvalidRootClus(self.root_clus));
        }
        Ok(self)
    }
}

/// The FAT type depends on the number of data clusters alone: two blocks
/// with as many clusters have the same type.
pub proof fn lemma_fat_type_by_cluster_count(a: &Bpb, b: &Bpb)
    requires
        a.spec_cluster_count() == b.spec_cluster_count(),
    ensures
        a.spec_fat_type() == b.spec_fat_type(),
        a.spec_fat_type() == FATType::FAT12 <==> a.spec_cluster_count() < 4085,
        a.spec_fat_type() == FATType::FAT32 <==> a.spec_cluster_count() >= 65525,
{
}

/// The data clusters never take more sectors than the total.
pub proof fn lemma_cluster_count_bound(b: &Bpb)
    ensures
        b.spec_cluster_count() * b.sec_per_clus <= b.spec_total_sectors(),
        b.spec_cluster_count() <= b.spec_total_sectors(),
        b.spec_total_sectors() <= 0xffff_ffff,
{
    if !(b.bytes_per_sec == 0 || b.sec_per_clus == 0 || b.spec_total_sectors()
        < b.spec_overhead()) {
        let t = b.spec_total_sectors() - b.spec_overhead();
        let s = b.sec_per_clus as int;
        let c = b.spec_cluster_count() as int;
        assert(c == t / s);
        assert(c * s <= t && c <= t) by (nonlinear_arith)
            requires
                c == t / s,
                t >= 0,
                s >= 1,
        ;
        assert(t <= b.spec_total_sectors());
        assert(c * s <= b.spec_total_sectors());
        assert(b.spec_cluster_count() * b.sec_per_clus == c * s);
    } else {
        assert(b.spec_cluster_count() == 0);
    }
}

/// A block decoded from a buffer holds the fields of the buffer's first
/// `n` bytes.
proof fn lemma_decoded_prefix(b: Bpb, s: Seq<u8>, n: int)
    requires
        BPB_LEN <= n <= s.len(),
        decoded_from(b, s),
    ensures
        decoded_from(b, s.subrange(0, n)),
{
    let t = s.subrange(0, n);
    assert(t.subrange(0, 3) =~= s.subrange(0, 3));
    assert(t.subrange(3, 11) =~= s.subrange(3, 11));
    assert(t.subrange(52, 64) =~= s.subrange(52, 64));
    assert(t.subrange(71, 82) =~= s.subrange(71, 82));
    assert(t.subrange(82, 90) =~= s.subrange(82, 90));
    assert(t.subrange(90, 510) =~= s.subrange(90, 510));
    assert(t.subrange(510, 512) =~= s.subrange(510, 512));
}

} // verus!
