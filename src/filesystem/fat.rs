//! A FAT volume over a disk image: region boundaries, cluster chains,
//! directories, path resolution, bad-cluster marking and slack writes.
use vstd::prelude::*;

use super::bpb::{decoded_from, Bpb, BPB_LEN};
use super::dir_entry::{
    parent_name, self_name, attr_is_dir, entry_decoded_from, matches_short_name, slot_cluster, spec_bad_cluster_marker,
    spec_is_eof, DirEntry, DIR_ENTRY_LEN,
};
use super::fat_error::FATError;
use super::fat_type::FATType;
use vstd::string::StringSliceAdditionalSpecFns;
use crate::traits::{LayoutDisplay, Region, RegionKind};
use crate::utils::{
    find_byte, in_image, index_of, le32, overwrite, read_at, u32_at, write_at, IoError,
};

verus! {

/// Number of 32-bit FAT entries a FAT32 cluster number can address: values
/// from 0x0FFFFFF7 up are markers, not clusters.
pub const FAT32_CLUSTER_LIMIT: u32 = 0x0FFFFFF7;

/// How many directories deep a tree walk goes before it reports the
/// directories as looping.
pub const MAX_TREE_DEPTH: u32 = 256;

/// A FAT volume: the boot sector and the sector range of its partition.
#[derive(Debug)]
pub struct FATVol {
    /// The volume's boot sector.
    pub bpb: Bpb,
    /// First sector of the partition.
    pub start: u32,
    /// Number of sectors of the partition.
    pub sector_cnt: u32,
}

/// `r` with `p` put in front of its sequence, errors kept.
pub open spec fn prepend<T>(p: Seq<T>, r: Result<Seq<T>, FATError>) -> Result<Seq<T>, FATError> {
    match r {
        Ok(s) => Ok(p + s),
        Err(e) => Err(e),
    }
}

/// The used 32-byte slots of `bytes`, in order: those whose first four
/// bytes are not all zero. A trailing partial slot is ignored.
pub open spec fn used_slots(bytes: Seq<u8>) -> Seq<Seq<u8>>
    decreases bytes.len(),
{
    if bytes.len() < 32 {
        Seq::empty()
    } else {
        let rest = used_slots(bytes.skip(32));
        if le32(bytes, 0) != 0 {
            seq![bytes.take(32)] + rest
        } else {
            rest
        }
    }
}

/// The four little-endian bytes of `v`.
pub open spec fn le_bytes(v: u32) -> Seq<u8> {
    seq![(v % 0x100) as u8, ((v / 0x100) % 0x100) as u8, ((v / 0x10000) % 0x100) as u8, (v / 0x1000000) as u8]
}

/// Whether each entry holds the fields of the slot at its index.
pub open spec fn decoded_all(entries: Seq<DirEntry>, slots: Seq<Seq<u8>>) -> bool {
    &&& entries.len() == slots.len()
    &&& forall|i: int| 0 <= i < slots.len() ==> entry_decoded_from(#[trigger] entries[i], slots[i])
}

/// Whether each row holds the depth of the row at its index and the fields
/// of its entry bytes.
pub open spec fn tree_rows_match(v: Seq<(u64, DirEntry)>, rows: Seq<(nat, Seq<u8>)>) -> bool {
    &&& v.len() == rows.len()
    &&& forall|k: int|
        0 <= k < rows.len() ==> #[trigger] v[k].0 == rows[k].0 && entry_decoded_from(
            v[k].1,
            rows[k].1,
        )
}

/// Rows that match, put one after the other, match.
pub proof fn lemma_rows_concat(
    a: Seq<(u64, DirEntry)>,
    ra: Seq<(nat, Seq<u8>)>,
    b: Seq<(u64, DirEntry)>,
    rb: Seq<(nat, Seq<u8>)>,
)
    requires
        tree_rows_match(a, ra),
        tree_rows_match(b, rb),
    ensures
        tree_rows_match(a + b, ra + rb),
{
    assert forall|k: int| 0 <= k < ra.len() + rb.len() implies #[trigger] (a + b)[k].0 == (ra
        + rb)[k].0 && entry_decoded_from((a + b)[k].1, (ra + rb)[k].1) by {
        if k < a.len() {
            assert((a + b)[k] == a[k]);
            assert((ra + rb)[k] == ra[k]);
            assert(a[k].0 == ra[k].0);
        } else {
            assert((a + b)[k] == b[k - a.len()]);
            assert((ra + rb)[k] == rb[k - a.len()]);
            assert(b[k - a.len()].0 == rb[k - a.len()].0);
        }
    }
}

/// The components of a `/`-separated path: its non-empty segments.
pub open spec fn path_components(p: Seq<u8>) -> Seq<Seq<u8>>
    decreases p.len(),
{
    if p.len() == 0 {
        Seq::empty()
    } else {
        let k = index_of(p, 47);
        let head = p.take(k as int);
        let tail = if k < p.len() {
            p.skip(k + 1 as int)
        } else {
            Seq::empty()
        };
        (if head.len() > 0 {
            seq![head]
        } else {
            Seq::empty()
        }) + path_components(tail)
    }
}

/// The first slot that is a directory exactly when `want_dir` holds and
/// whose 8.3 name matches the query `q`.
pub open spec fn first_match(slots: Seq<Seq<u8>>, q: Seq<u8>, want_dir: bool) -> Option<Seq<u8>>
    decreases slots.len(),
{
    if slots.len() == 0 {
        None
    } else if attr_is_dir(slots[0][11]) == want_dir && matches_short_name(
        slots[0].subrange(0, 11),
        q,
    ) {
        Some(slots[0])
    } else {
        first_match(slots.drop_first(), q, want_dir)
    }
}

/// Splits a path into its non-empty `/`-separated components.
pub fn split_path(p: &[u8]) -> (r: Vec<Vec<u8>>)
    ensures
        r@.map_values(|v: Vec<u8>| v@) == path_components(p@),
{
    let mut comps: Vec<Vec<u8>> = Vec::new();
    let mut pos: usize = 0;
    assert(p@.skip(0) =~= p@);
    while pos < p.len()
        invariant
            pos <= p@.len(),
            path_components(p@) == comps@.map_values(|v: Vec<u8>| v@) + path_components(
                p@.skip(pos as int),
            ),
        decreases p@.len() - pos,
    {
        let k = find_byte(p, pos, 47);
        proof {
            crate::utils::lemma_index_of_bound(p@.skip(pos as int), 47);
        }
        let head = vstd::slice::slice_to_vec(vstd::slice::slice_subrange(p, pos, k));
        let ghost rest = p@.skip(pos as int);
        let ghost old_comps = comps@.map_values(|v: Vec<u8>| v@);
        assert(rest.take(k - pos) =~= head@);
        if k > pos {
            comps.push(head);
        }
        let next = if k < p.len() {
            k + 1
        } else {
            p.len()
        };
        proof {
            if k < p@.len() {
                assert(rest.skip(k - pos + 1) =~= p@.skip(next as int));
            } else {
                assert(p@.skip(next as int) =~= Seq::<u8>::empty());
            }
            if k > pos {
                assert(comps@.map_values(|v: Vec<u8>| v@) =~= old_comps + seq![head@]);
            } else {
                assert(comps@.map_values(|v: Vec<u8>| v@) =~= old_comps);
            }
        }
        pos = next;
    }
    assert(p@.skip(pos as int) =~= Seq::<u8>::empty());
    assert(comps@.map_values(|v: Vec<u8>| v@) + Seq::<Seq<u8>>::empty() =~= comps@.map_values(
        |v: Vec<u8>| v@,
    ));
    comps
}

impl FATVol {
    /// The sector after the last one of the partition.
    pub open spec fn spec_end(&self) -> nat {
        (self.start + self.sector_cnt) as nat
    }

    pub open spec fn spec_bps(&self) -> nat {
        self.bpb.bytes_per_sec as nat
    }

    pub open spec fn spec_spc(&self) -> nat {
        self.bpb.sec_per_clus as nat
    }

    pub open spec fn spec_fat_start(&self) -> nat {
        (self.start + self.bpb.rsvd_sec_cnt) as nat
    }

    pub open spec fn spec_root_start(&self) -> nat {
        (self.spec_fat_start() + self.bpb.spec_fat_sz() * self.bpb.num_fat) as nat
    }

    pub open spec fn spec_data_start(&self) -> nat {
        self.spec_root_start() + self.bpb.spec_root_dir_sectors()
    }

    pub open spec fn spec_data_end(&self) -> nat {
        (self.spec_data_start() + self.bpb.spec_cluster_count() * self.spec_spc()) as nat
    }

    pub open spec fn spec_cluster_size(&self) -> nat {
        (self.spec_bps() * self.spec_spc()) as nat
    }

    pub open spec fn spec_clus_to_sector(&self, cluster: nat) -> nat {
        (self.spec_data_start() + (cluster - 2) * self.spec_spc()) as nat
    }

    /// Byte offset in the image of the first FAT's 32-bit entry of `cluster`.
    pub open spec fn spec_entry_offset(&self, cluster: nat) -> nat {
        (self.spec_fat_start() * self.spec_bps() + cluster * 4) as nat
    }

    /// The next-cluster value of `cluster`: its FAT entry's low 28 bits.
    pub open spec fn spec_next(&self, disk: Seq<u8>, cluster: nat) -> u32 {
        (le32(disk, self.spec_entry_offset(cluster) as int) % 0x1000_0000) as u32
    }

    pub open spec fn spec_entry_readable(&self, disk: Seq<u8>, cluster: nat) -> bool {
        in_image(disk.len() as int, self.spec_entry_offset(cluster) as int, 4)
    }

    pub open spec fn spec_entry_io(&self, cluster: nat) -> FATError {
        FATError::IOError(IoError { offset: self.spec_entry_offset(cluster) as u64, len: 4 })
    }

    /// The clusters of the chain from `cluster` on, end marker excluded,
    /// taking at most `fuel` clusters.
    pub open spec fn spec_chain(&self, disk: Seq<u8>, cluster: u32, fuel: nat) -> Result<
        Seq<u32>,
        FATError,
    >
        decreases fuel,
    {
        if spec_is_eof(cluster, FATType::FAT32) {
            Ok(Seq::empty())
        } else if cluster < 2 {
            Err(FATError::InvalidClusterError(cluster))
        } else if fuel == 0 {
            Err(FATError::CorruptChain(cluster))
        } else if !self.spec_entry_readable(disk, cluster as nat) {
            Err(self.spec_entry_io(cluster as nat))
        } else {
            prepend(
                seq![cluster],
                self.spec_chain(disk, self.spec_next(disk, cluster as nat), (fuel - 1) as nat),
            )
        }
    }

    /// The chain from `cluster`: it may hold at most as many clusters as the
    /// volume has.
    pub open spec fn spec_list_clusters(&self, disk: Seq<u8>, cluster: u32) -> Result<
        Seq<u32>,
        FATError,
    > {
        if self.bpb.spec_fat_type() != FATType::FAT32 {
            Err(FATError::UnsupportedFATType(self.bpb.spec_fat_type()))
        } else {
            self.spec_chain(disk, cluster, self.bpb.spec_cluster_count())
        }
    }

    /// Byte offset in the image of cluster `cluster`.
    pub open spec fn spec_cluster_offset(&self, cluster: nat) -> nat {
        (self.spec_clus_to_sector(cluster) * self.spec_bps()) as nat
    }

    /// The used directory slots of the clusters of `chain`, in order.
    pub open spec fn spec_chain_slots(&self, disk: Seq<u8>, chain: Seq<u32>) -> Result<
        Seq<Seq<u8>>,
        FATError,
    >
        decreases chain.len(),
    {
        if chain.len() == 0 {
            Ok(Seq::empty())
        } else {
            let off = self.spec_cluster_offset(chain[0] as nat);
            let size = self.spec_cluster_size();
            if !in_image(disk.len() as int, off as int, size as int) {
                Err(FATError::IOError(IoError { offset: off as u64, len: size as u64 }))
            } else {
                prepend(
                    used_slots(disk.subrange(off as int, (off + size) as int)),
                    self.spec_chain_slots(disk, chain.drop_first()),
                )
            }
        }
    }

    /// The used slots of the directory whose chain starts at `first`.
    pub open spec fn spec_list_dir(&self, disk: Seq<u8>, first: u32) -> Result<
        Seq<Seq<u8>>,
        FATError,
    > {
        match self.spec_list_clusters(disk, first) {
            Err(e) => Err(e),
            Ok(chain) => self.spec_chain_slots(disk, chain),
        }
    }

    /// The entry that `comps` names below the directory at `cluster`: a
    /// directory for each component but the last, a file for the last.
    pub open spec fn spec_find_in(&self, disk: Seq<u8>, comps: Seq<Seq<u8>>, cluster: u32) -> Result<
        Seq<u8>,
        FATError,
    >
        decreases comps.len(),
    {
        if comps.len() == 0 {
            Err(FATError::FileNotFound)
        } else {
            match self.spec_list_dir(disk, cluster) {
                Err(e) => Err(e),
                Ok(slots) => match first_match(slots, comps[0], comps.len() > 1) {
                    None => Err(FATError::FileNotFound),
                    Some(slot) => if comps.len() > 1 {
                        self.spec_find_in(disk, comps.drop_first(), slot_cluster(slot))
                    } else {
                        Ok(slot)
                    },
                },
            }
        }
    }

    /// The entry of the file at `path`, from the root directory.
    pub open spec fn spec_find_file(&self, disk: Seq<u8>, path: Seq<u8>) -> Result<
        Seq<u8>,
        FATError,
    > {
        if path_components(path).len() == 0 {
            Err(FATError::FileNotFound)
        } else if self.bpb.spec_fat_type() != FATType::FAT32 {
            Err(FATError::UnsupportedFATType(self.bpb.spec_fat_type()))
        } else {
            self.spec_find_in(disk, path_components(path), self.bpb.root_clus)
        }
    }

    /// One past the last cluster that a bad-cluster search looks at: the
    /// clusters of the volume, as far as a FAT32 entry can number them.
    pub open spec fn spec_scan_end(&self) -> nat {
        if self.bpb.spec_cluster_count() + 2 < FAT32_CLUSTER_LIMIT {
            self.bpb.spec_cluster_count() + 2
        } else {
            FAT32_CLUSTER_LIMIT as nat
        }
    }

    pub open spec fn spec_cluster_readable(&self, disk: Seq<u8>, cluster: nat) -> bool {
        in_image(
            disk.len() as int,
            self.spec_cluster_offset(cluster) as int,
            self.spec_cluster_size() as int,
        )
    }

    pub open spec fn spec_cluster_io(&self, cluster: nat) -> FATError {
        FATError::IOError(
            IoError {
                offset: self.spec_cluster_offset(cluster) as u64,
                len: self.spec_cluster_size() as u64,
            },
        )
    }

    /// Whether every byte of cluster `cluster` is zero.
    pub open spec fn spec_cluster_zero(&self, disk: Seq<u8>, cluster: nat) -> bool {
        forall|i: int|
            self.spec_cluster_offset(cluster) <= i < self.spec_cluster_offset(cluster)
                + self.spec_cluster_size() ==> disk[i] == 0
    }

    /// Whether cluster `cluster` is free to hide data in: unreferenced in
    /// the FAT and zero-filled.
    pub open spec fn spec_cluster_free(&self, disk: Seq<u8>, cluster: nat) -> bool {
        self.spec_next(disk, cluster) == 0 && self.spec_cluster_zero(disk, cluster)
    }

    /// Whether the clusters `[k, k + n)` are free and readable.
    pub open spec fn spec_run_ready(&self, disk: Seq<u8>, k: nat, n: nat) -> bool {
        forall|c: nat|
            k <= c < k + n ==> self.spec_entry_readable(disk, c) && self.spec_cluster_readable(
                disk,
                c,
            ) && #[trigger] self.spec_cluster_free(disk, c)
    }

    /// Whether the search can examine every cluster from 2 to `k`.
    pub open spec fn spec_prefix_scannable(&self, disk: Seq<u8>, k: nat) -> bool {
        forall|c: nat|
            2 <= c < k ==> self.spec_entry_readable(disk, c) && (self.spec_next(disk, c) != 0
                || #[trigger] self.spec_cluster_readable(disk, c))
    }

    /// Whether no run of `n` free clusters starts between 2 and `k`.
    pub open spec fn spec_no_earlier_run(&self, disk: Seq<u8>, k: nat, n: nat) -> bool {
        forall|s: nat| 2 <= s < k ==> #[trigger] self.spec_run_blocked(disk, s, n)
    }

    /// Whether some cluster of `[s, s + n)` is not free.
    pub open spec fn spec_run_blocked(&self, disk: Seq<u8>, s: nat, n: nat) -> bool {
        exists|c: nat| s <= c < s + n && !self.spec_cluster_free(disk, c)
    }

    /// The linear search for `n` consecutive free clusters, at cluster `p`
    /// with a run of `run` free clusters just before it.
    pub open spec fn spec_scan(&self, disk: Seq<u8>, n: nat, p: nat, run: nat) -> Result<
        u32,
        FATError,
    >
        decreases self.spec_scan_end() - p,
    {
        if run == n {
            Ok((p - run) as u32)
        } else if p >= self.spec_scan_end() {
            Err(FATError::NoFreeClusterChain(n as u32))
        } else if !self.spec_entry_readable(disk, p) {
            Err(self.spec_entry_io(p))
        } else if self.spec_next(disk, p) != 0 {
            self.spec_scan(disk, n, p + 1, 0)
        } else if !self.spec_cluster_readable(disk, p) {
            Err(self.spec_cluster_io(p))
        } else if self.spec_cluster_zero(disk, p) {
            self.spec_scan(disk, n, p + 1, run + 1)
        } else {
            self.spec_scan(disk, n, p + 1, 0)
        }
    }

    /// Byte offset of the 32-bit entry of `cluster` in FAT copy `copy`.
    pub open spec fn spec_copy_offset(&self, copy: nat, cluster: nat) -> nat {
        ((self.spec_fat_start() + copy * self.bpb.spec_fat_sz()) * self.spec_bps() + cluster * 4) as nat
    }

    /// `d` with the entry of `cluster` set to `value` in the first `j` FAT
    /// copies, one copy after the other.
    pub open spec fn spec_write_copies(&self, d: Seq<u8>, cluster: nat, j: nat, value: u32) -> Seq<
        u8,
    >
        decreases j,
    {
        if j == 0 {
            d
        } else {
            overwrite(
                self.spec_write_copies(d, cluster, (j - 1) as nat, value),
                self.spec_copy_offset((j - 1) as nat, cluster) as int,
                le_bytes(value),
            )
        }
    }

    /// `d` with the `m` clusters from `k` on marked bad in every FAT copy.
    pub open spec fn spec_mark_run(&self, d: Seq<u8>, k: nat, m: nat) -> Seq<u8>
        decreases m,
    {
        if m == 0 {
            d
        } else {
            self.spec_write_copies(
                self.spec_mark_run(d, k, (m - 1) as nat),
                (k + m - 1) as nat,
                self.bpb.num_fat as nat,
                spec_bad_cluster_marker(FATType::FAT32),
            )
        }
    }

    /// Whether the entries of the clusters before `last` + 1 lie in the
    /// image in every FAT copy.
    pub open spec fn spec_copies_in_image(&self, disk_len: nat, last: nat) -> bool {
        self.bpb.num_fat > 0 ==> in_image(
            disk_len as int,
            self.spec_copy_offset((self.bpb.num_fat - 1) as nat, last) as int,
            4,
        )
    }

    /// The outcome of marking `n` clusters bad: the start of the first run
    /// of `n` free clusters, once every FAT entry to be written lies in the
    /// image.
    pub open spec fn spec_mark_as_bad(&self, disk: Seq<u8>, n: nat) -> Result<u32, FATError> {
        if self.bpb.spec_fat_type() != FATType::FAT32 {
            Err(FATError::UnsupportedFATType(self.bpb.spec_fat_type()))
        } else {
            match self.spec_scan(disk, n, 2, 0) {
                Err(e) => Err(e),
                Ok(k) => if n > 0 && !self.spec_copies_in_image(disk.len(), (k + n - 1) as nat) {
                    Err(
                        FATError::IOError(
                            IoError {
                                offset: self.spec_copy_offset(
                                    (self.bpb.num_fat - 1) as nat,
                                    (k + n - 1) as nat,
                                ) as u64,
                                len: 4,
                            },
                        ),
                    )
                } else {
                    Ok(k)
                },
            }
        }
    }

    /// Bytes of volume slack: the sectors between the end of the data
    /// region and the end of the partition.
    pub open spec fn spec_volume_slack(&self) -> nat {
        if self.spec_data_end() < self.spec_end() {
            ((self.spec_end() - self.spec_data_end()) * self.spec_bps()) as nat
        } else {
            0
        }
    }

    /// The outcome of writing `data` into the volume slack.
    pub open spec fn spec_write_to_volume_slack(&self, disk: Seq<u8>, data: Seq<u8>) -> Result<
        (),
        FATError,
    > {
        let off = (self.spec_data_end() * self.spec_bps()) as int;
        if data.len() > self.spec_volume_slack() {
            Err(
                FATError::InsufficientSlackSpace {
                    free: self.spec_volume_slack() as u64,
                    needed: data.len() as u64,
                },
            )
        } else if !in_image(disk.len() as int, off, data.len() as int) {
            Err(FATError::IOError(IoError { offset: off as u64, len: data.len() as u64 }))
        } else {
            Ok(())
        }
    }

    /// Slack bytes after a file of `size` bytes in a chain of `chain_len`
    /// clusters; none when the size exceeds the chain.
    pub open spec fn spec_file_slack(&self, chain_len: nat, size: nat) -> nat {
        if chain_len * self.spec_cluster_size() >= size {
            (chain_len * self.spec_cluster_size() - size) as nat
        } else {
            0
        }
    }

    /// Byte offset of the file slack: in the last cluster of the chain,
    /// after the file's bytes there.
    pub open spec fn spec_file_slack_offset(&self, last: u32, size: nat) -> nat {
        (self.spec_cluster_offset(last as nat) + (size as int) % (self.spec_cluster_size() as int)) as nat
    }

    /// The outcome of writing `data` into the slack of the file at `path`,
    /// and the byte offset where it goes.
    pub open spec fn spec_write_to_file_slack(
        &self,
        disk: Seq<u8>,
        path: Seq<u8>,
        data: Seq<u8>,
    ) -> (Result<(), FATError>, nat) {
        let needed = data.len() as u64;
        match self.spec_find_file(disk, path) {
            Err(e) => (Err(e), 0),
            Ok(slot) => {
                let size = le32(slot, 28);
                let first = slot_cluster(slot);
                if size == 0 && first == 0 {
                    (Err(FATError::InsufficientSlackSpace { free: 0, needed }), 0)
                } else {
                    match self.spec_list_clusters(disk, first) {
                        Err(e) => (Err(e), 0),
                        Ok(chain) => {
                            let slack = self.spec_file_slack(chain.len(), size as nat);
                            if data.len() > slack {
                                (
                                    Err(
                                        FATError::InsufficientSlackSpace {
                                            free: slack as u64,
                                            needed,
                                        },
                                    ),
                                    0,
                                )
                            } else if data.len() > self.spec_cluster_size() {
                                (Err(FATError::UnsupportedFeature), 0)
                            } else if chain.len() == 0 {
                                (Err(FATError::InsufficientSlackSpace { free: 0, needed }), 0)
                            } else {
                                let off = self.spec_file_slack_offset(chain.last(), size as nat);
                                if !in_image(disk.len() as int, off as int, data.len() as int) {
                                    (
                                        Err(
                                            FATError::IOError(
                                                IoError { offset: off as u64, len: needed },
                                            ),
                                        ),
                                        off,
                                    )
                                } else {
                                    (Ok(()), off)
                                }
                            }
                        },
                    }
                }
            },
        }
    }

    /// Reads the boot sector of the partition that starts at sector `start`
    /// and spans `sector_cnt` sectors, validating it if asked.
    pub fn from_image(
        disk: &[u8],
        start: u32,
        sector_cnt: u32,
        validate: bool,
        sector_size: usize,
    ) -> (r: Result<FATVol, FATError>)
        requires
            sector_size <= u32::MAX,
        ensures
            r matches Ok(v) ==> v.start == start && v.sector_cnt == sector_cnt && decoded_from(
                v.bpb,
                disk@.subrange(start * sector_size, start * sector_size + BPB_LEN),
            ) && (validate ==> v.bpb.spec_validation_error() is None),
            !in_image(disk@.len() as int, start * sector_size, sector_size as int) ==> (r matches Err(
                e,
            ) && e == FATError::IOError(
                IoError { offset: (start * sector_size) as u64, len: sector_size as u64 },
            )),
            in_image(disk@.len() as int, start * sector_size, sector_size as int) && sector_size
                < BPB_LEN ==> (r matches Err(e) && e == FATError::IOError(
                IoError { offset: (start * sector_size) as u64, len: BPB_LEN as u64 },
            )),
            in_image(disk@.len() as int, start * sector_size, sector_size as int) && sector_size
                >= BPB_LEN ==> {
                &&& !validate ==> r is Ok
                &&& validate ==> match r {
                    Ok(v) => v.bpb.spec_validation_error() is None,
                    Err(e) => exists|b: Bpb|
                        decoded_from(
                            b,
                            disk@.subrange(start * sector_size, start * sector_size + BPB_LEN),
                        ) && b.spec_validation_error() == Some(e),
                }
            },
    {
        let bpb = match Bpb::from(disk, start, validate, sector_size) {
            Ok(b) => b,
            Err(e) => return Err(e),
        };
        Ok(FATVol { bpb, start, sector_cnt })
    }

    /// The first sector of the root directory: its first cluster on FAT32,
    /// the region after the FATs otherwise.
    pub fn root_dir_sector(&self) -> (r: u64)
        requires
            self.bpb.spec_fat_type() == FATType::FAT32 ==> self.bpb.root_clus >= 2,
        ensures
            self.bpb.spec_fat_type() == FATType::FAT32 ==> r == self.spec_clus_to_sector(
                self.bpb.root_clus as nat,
            ),
            self.bpb.spec_fat_type() != FATType::FAT32 ==> r == self.spec_root_start(),
    {
        match self.bpb.fat_type() {
            FATType::FAT32 => self.clus_to_sector(self.bpb.root_clus),
            _ => self.root_start(),
        }
    }

    /// Whether the entry bytes `s` are those of a directory other than "."
    /// and "..".
    pub open spec fn slot_is_regular_dir(s: Seq<u8>) -> bool {
        attr_is_dir(s[11]) && s.subrange(0, 11) != self_name() && s.subrange(0, 11) != parent_name()
    }

    /// The rows of the tree below the directory at `cluster`: each entry at
    /// `depth`, followed by the tree of each directory but "." and "..",
    /// going at most `fuel` directories deep.
    pub open spec fn spec_tree_dir(&self, disk: Seq<u8>, cluster: u32, depth: nat, fuel: nat) -> Result<
        Seq<(nat, Seq<u8>)>,
        FATError,
    >
        decreases fuel, 1nat, 0nat,
    {
        match self.spec_list_dir(disk, cluster) {
            Err(e) => Err(e),
            Ok(slots) => self.spec_tree_slots(disk, slots, depth, fuel),
        }
    }

    pub open spec fn spec_tree_slots(
        &self,
        disk: Seq<u8>,
        slots: Seq<Seq<u8>>,
        depth: nat,
        fuel: nat,
    ) -> Result<Seq<(nat, Seq<u8>)>, FATError>
        decreases fuel, 0nat, slots.len(),
    {
        if slots.len() == 0 {
            Ok(Seq::empty())
        } else {
            let sub = if Self::slot_is_regular_dir(slots[0]) {
                if fuel == 0 {
                    Err(FATError::CorruptChain(slot_cluster(slots[0])))
                } else {
                    self.spec_tree_dir(disk, slot_cluster(slots[0]), depth + 1, (fuel - 1) as nat)
                }
            } else {
                Ok(Seq::empty())
            };
            match sub {
                Err(e) => Err(e),
                Ok(t) => prepend(
                    seq![(depth, slots[0])] + t,
                    self.spec_tree_slots(disk, slots.drop_first(), depth, fuel),
                ),
            }
        }
    }

    /// The directory tree of a FAT32 volume from its root.
    pub open spec fn spec_tree(&self, disk: Seq<u8>) -> Result<Seq<(nat, Seq<u8>)>, FATError> {
        if self.bpb.spec_fat_type() != FATType::FAT32 {
            Err(FATError::UnsupportedFATType(self.bpb.spec_fat_type()))
        } else {
            self.spec_tree_dir(disk, self.bpb.root_clus, 0, MAX_TREE_DEPTH as nat)
        }
    }

    /// The boot sector.
    pub fn bpb(&self) -> (r: &Bpb)
        ensures
            *r == self.bpb,
    {
        &self.bpb
    }

    /// The first sector of the volume.
    pub fn start(&self) -> (r: u32)
        ensures
            r == self.start,
    {
        self.start
    }

    /// The sector after the last one of the volume's partition.
    pub fn end(&self) -> (r: u64)
        ensures
            r == self.spec_end(),
    {
        self.start as u64 + self.sector_cnt as u64
    }

    /// The first sector of the reserved region: the volume's first sector.
    pub fn rsvd_start(&self) -> (r: u64)
        ensures
            r == self.start,
    {
        self.start as u64
    }

    /// The first sector of the first FAT.
    pub fn fat_start(&self) -> (r: u64)
        ensures
            r == self.spec_fat_start(),
            r <= 0x1_0000_ffff,
    {
        self.rsvd_start() + self.bpb.rsvd_sec_cnt as u64
    }

    /// The first sector of the FAT12/16 root directory: after every FAT.
    pub fn root_start(&self) -> (r: u64)
        ensures
            r == self.spec_root_start(),
            r <= 0x1_0000_ffff + 0xffff_ffff * 0xff,
    {
        let fat_sz = self.bpb.fat_sz() as u64;
        assert(fat_sz * self.bpb.num_fat <= 0xffff_ffff * 0xff) by (nonlinear_arith)
            requires
                fat_sz <= 0xffff_ffff,
                self.bpb.num_fat <= 0xff,
        ;
        self.fat_start() + fat_sz * self.bpb.num_fat as u64
    }

    /// The first sector of the data region.
    pub fn data_start(&self) -> (r: u64)
        ensures
            r == self.spec_data_start(),
            r < 0x200_0000_0000,
    {
        let root_dir_sectors: u64 = if self.bpb.bytes_per_sec == 0 {
            0
        } else {
            (self.bpb.root_ent_cnt as u64 * 32 + self.bpb.bytes_per_sec as u64 - 1)
                / self.bpb.bytes_per_sec as u64
        };
        assert(root_dir_sectors <= 0xffff * 32 + 0xffff) by (nonlinear_arith)
            requires
                self.bpb.bytes_per_sec == 0 ==> root_dir_sectors == 0,
                self.bpb.bytes_per_sec > 0 ==> root_dir_sectors == (self.bpb.root_ent_cnt * 32
                    + self.bpb.bytes_per_sec - 1) / self.bpb.bytes_per_sec as int,
                self.bpb.root_ent_cnt <= 0xffff,
                self.bpb.bytes_per_sec <= 0xffff,
        ;
        self.root_start() + root_dir_sectors
    }

    /// The sector after the last one of the data region.
    pub fn data_end(&self) -> (r: u64)
        ensures
            r == self.spec_data_end(),
            r < 0x300_0000_0000,
    {
        let cc = self.bpb.cluster_count() as u64;
        let spc = self.bpb.sec_per_clus as u64;
        proof {
            super::bpb::lemma_cluster_count_bound(&self.bpb);
        }
        self.data_start() + cc * spc
    }

    /// Width in bits of an entry of the volume's FAT.
    pub fn fat_entry_bit_sz(&self) -> (r: u32)
        ensures
            self.bpb.spec_fat_type() == FATType::FAT12 ==> r == 12,
            self.bpb.spec_fat_type() == FATType::FAT16 ==> r == 16,
            self.bpb.spec_fat_type() == FATType::FAT32 ==> r == 32,
    {
        match self.bpb.fat_type() {
            FATType::FAT12 => 12,
            FATType::FAT16 => 16,
            FATType::FAT32 => 32,
        }
    }

    /// Whether a next-cluster value marks a bad cluster on this volume's
    /// FAT type.
    pub fn is_bad_cluster(&self, cluster: u32) -> (r: bool)
        ensures
            r == (cluster == spec_bad_cluster_marker(self.bpb.spec_fat_type())),
    {
        cluster == DirEntry::bad_cluster_marker(self.bpb.fat_type())
    }

    /// Bytes per cluster.
    pub fn cluster_size(&self) -> (r: u32)
        ensures
            r == self.spec_cluster_size(),
            r <= 0xffff * 0xff,
    {
        let bps = self.bpb.bytes_per_sec as u32;
        let spc = self.bpb.sec_per_clus as u32;
        assert(bps * spc <= 0xffff * 0xff) by (nonlinear_arith)
            requires
                bps <= 0xffff,
                spc <= 0xff,
        ;
        bps * spc
    }

    /// The first sector of cluster `cluster`; clusters are numbered from 2.
    pub fn clus_to_sector(&self, cluster: u32) -> (r: u64)
        requires
            cluster >= 2,
        ensures
            r == self.spec_clus_to_sector(cluster as nat),
            r < 0x400_0000_0000,
    {
        let spc = self.bpb.sec_per_clus as u64;
        assert((cluster - 2) * spc <= 0xffff_ffff * 0xff) by (nonlinear_arith)
            requires
                cluster <= 0xffff_ffff,
                spc <= 0xff,
        ;
        self.data_start() + (cluster as u64 - 2) * spc
    }

    /// The next-cluster value stored in the first FAT for `cluster`.
    pub fn get_next_cluster(&self, disk: &[u8], cluster: u32) -> (r: Result<u32, FATError>)
        ensures
            self.spec_entry_readable(disk@, cluster as nat) <==> r is Ok,
            r matches Ok(v) ==> v == self.spec_next(disk@, cluster as nat),
            r matches Err(e) ==> e == self.spec_entry_io(cluster as nat),
    {
        let bps = self.bpb.bytes_per_sec as u64;
        let fat_start = self.fat_start();
        assert(fat_start * bps <= 0x3_ffff_ffff * 0xffff) by (nonlinear_arith)
            requires
                fat_start <= 0x3_ffff_ffff,
                bps <= 0xffff,
        ;
        let off = fat_start * bps + cluster as u64 * 4;
        match read_at(disk, off, 4) {
            Ok(buf) => {
                let v = u32_at(buf.as_slice(), 0);
                assert(buf@ =~= disk@.subrange(off as int, off + 4));
                let r = v & 0x0FFF_FFFF;
                assert(v & 0x0FFF_FFFF == v % 0x1000_0000) by (bit_vector);
                Ok(r)
            },
            Err(_) => Err(FATError::IOError(IoError { offset: off, len: 4 })),
        }
    }

    /// The clusters of the chain that starts at `cluster`, in order, end
    /// marker excluded. Only FAT32 volumes are walked; a chain longer than
    /// the volume's cluster count is reported as corrupt.
    pub fn list_clusters(&self, disk: &[u8], cluster: u32) -> (r: Result<Vec<u32>, FATError>)
        ensures
            match self.spec_list_clusters(disk@, cluster) {
                Ok(s) => r matches Ok(v) && v@ == s,
                Err(e) => r == Err::<Vec<u32>, FATError>(e),
            },
    {
        let fat_type = self.bpb.fat_type();
        if fat_type != FATType::FAT32 {
            return Err(FATError::UnsupportedFATType(fat_type));
        }
        let mut all_clusters: Vec<u32> = Vec::new();
        let mut current = cluster;
        let mut fuel = self.bpb.cluster_count();
        while !DirEntry::is_eof(current, FATType::FAT32)
            invariant
                self.spec_list_clusters(disk@, cluster) == prepend(
                    all_clusters@,
                    self.spec_chain(disk@, current, fuel as nat),
                ),
            decreases fuel,
        {
            if current < 2 {
                return Err(FATError::InvalidClusterError(current));
            }
            if fuel == 0 {
                return Err(FATError::CorruptChain(current));
            }
            let next = match self.get_next_cluster(disk, current) {
                Ok(n) => n,
                Err(e) => return Err(e),
            };
            proof {
                let rest = self.spec_chain(disk@, next, (fuel - 1) as nat);
                assert(prepend(all_clusters@, prepend(seq![current], rest)) == prepend(
                    all_clusters@.push(current),
                    rest,
                )) by {
                    match rest {
                        Ok(s) => {
                            assert(all_clusters@ + (seq![current] + s) =~= all_clusters@.push(
                                current,
                            ) + s);
                        },
                        Err(_) => {},
                    }
                }
            }
            all_clusters.push(current);
            current = next;
            fuel = fuel - 1;
        }
        assert(all_clusters@ + Seq::<u32>::empty() =~= all_clusters@);
        Ok(all_clusters)
    }

    /// Reads the bytes of cluster `cluster`.
    pub fn read_cluster(&self, disk: &[u8], cluster: u32) -> (r: Result<Vec<u8>, FATError>)
        requires
            cluster >= 2,
        ensures
            in_image(
                disk@.len() as int,
                self.spec_cluster_offset(cluster as nat) as int,
                self.spec_cluster_size() as int,
            ) <==> r is Ok,
            r matches Ok(v) ==> v@ == disk@.subrange(
                self.spec_cluster_offset(cluster as nat) as int,
                (self.spec_cluster_offset(cluster as nat) + self.spec_cluster_size()) as int,
            ),
            r matches Err(e) ==> e == FATError::IOError(
                IoError {
                    offset: self.spec_cluster_offset(cluster as nat) as u64,
                    len: self.spec_cluster_size() as u64,
                },
            ),
    {
        let sector = self.clus_to_sector(cluster);
        let bps = self.bpb.bytes_per_sec as u64;
        assert(sector * bps <= 0x400_0000_0000 * 0xffff) by (nonlinear_arith)
            requires
                sector < 0x400_0000_0000,
                bps <= 0xffff,
        ;
        let off = sector * bps;
        let size = self.cluster_size();
        match read_at(disk, off, size as usize) {
            Ok(buf) => Ok(buf),
            Err(e) => Err(FATError::IOError(e)),
        }
    }

    /// The entries of the directory whose chain starts at `first_cluster`:
    /// every 32-byte slot of its clusters whose first four bytes are not all
    /// zero, decoded, in order.
    pub fn list_dir(&self, disk: &[u8], first_cluster: u32) -> (r: Result<Vec<DirEntry>, FATError>)
        ensures
            match self.spec_list_dir(disk@, first_cluster) {
                Ok(slots) => r matches Ok(v) && decoded_all(v@, slots),
                Err(e) => r == Err::<Vec<DirEntry>, FATError>(e),
            },
    {
        let clusters = match self.list_clusters(disk, first_cluster) {
            Ok(c) => c,
            Err(e) => return Err(e),
        };
        proof {
            self.lemma_chain_valid(disk@, first_cluster, self.bpb.spec_cluster_count());
        }
        let ghost chain = clusters@;
        let ghost mut slots: Seq<Seq<u8>> = Seq::empty();
        let mut dir_entries: Vec<DirEntry> = Vec::new();
        let mut i: usize = 0;
        assert(chain.skip(0) =~= chain);
        while i < clusters.len()
            invariant
                chain == clusters@,
                0 <= i <= chain.len(),
                forall|j: int| 0 <= j < chain.len() ==> chain[j] >= 2,
                self.spec_list_dir(disk@, first_cluster) == prepend(
                    slots,
                    self.spec_chain_slots(disk@, chain.skip(i as int)),
                ),
                decoded_all(dir_entries@, slots),
            decreases chain.len() - i,
        {
            let cluster_nb = clusters[i];
            let buf = match self.read_cluster(disk, cluster_nb) {
                Ok(b) => b,
                Err(e) => {
                    assert(chain.skip(i as int)[0] == cluster_nb);
                    return Err(e);
                },
            };
            proof {
                assert(chain.skip(i as int)[0] == cluster_nb);
                assert(chain.skip(i as int).drop_first() =~= chain.skip(i + 1));
            }
            let ghost before = slots;
            let mut off: usize = 0;
            assert(buf@.skip(0) =~= buf@);
            while DIR_ENTRY_LEN <= buf.len() - off
                invariant
                    off <= buf@.len(),
                    used_slots(buf@) == slots.subrange(before.len() as int, slots.len() as int)
                        + used_slots(buf@.skip(off as int)),
                    slots.subrange(0, before.len() as int) == before,
                    before.len() <= slots.len(),
                    decoded_all(dir_entries@, slots),
                decreases buf@.len() - off,
            {
                let ghost tail = buf@.skip(off as int);
                assert(tail.skip(32) =~= buf@.skip(off + 32));
                assert(tail.take(32) =~= buf@.subrange(off as int, off + 32));
                let ghost mid = slots.subrange(before.len() as int, slots.len() as int);
                if u32_at(buf.as_slice(), off) != 0 {
                    let e = DirEntry::from_slice(
                        vstd::slice::slice_subrange(buf.as_slice(), off, off + DIR_ENTRY_LEN),
                    );
                    dir_entries.push(e);
                    proof {
                        slots = slots.push(tail.take(32));
                        assert(slots.subrange(before.len() as int, slots.len() as int) =~= mid.push(
                            tail.take(32),
                        ));
                        assert(mid + (seq![tail.take(32)] + used_slots(tail.skip(32))) =~= mid.push(
                            tail.take(32),
                        ) + used_slots(tail.skip(32)));
                        assert(slots.subrange(0, before.len() as int) =~= before);
                        assert forall|j: int| 0 <= j < slots.len() implies entry_decoded_from(
                            #[trigger] dir_entries@[j],
                            slots[j],
                        ) by {
                            if j < slots.len() - 1 {
                            } else {
                                assert(e == dir_entries@[j]);
                            }
                        }
                    }
                }
                off = off + DIR_ENTRY_LEN;
            }
            proof {
                assert(buf@.skip(off as int).len() < 32);
                assert(used_slots(buf@.skip(off as int)) =~= Seq::<Seq<u8>>::empty());
                let mid = slots.subrange(before.len() as int, slots.len() as int);
                assert(mid + Seq::<Seq<u8>>::empty() =~= mid);
                assert(before + mid =~= slots);
                let rest = self.spec_chain_slots(disk@, chain.skip(i + 1));
                match rest {
                    Ok(t) => {
                        assert(before + (mid + t) =~= slots + t);
                    },
                    Err(_) => {},
                }
            }
            i = i + 1;
        }
        proof {
            assert(chain.skip(i as int) =~= Seq::<u32>::empty());
            assert(slots + Seq::<Seq<u8>>::empty() =~= slots);
        }
        Ok(dir_entries)
    }

    /// Finds the entry of the file at `file_path`, a `/`-separated path from
    /// the root directory whose components are 8.3 names; every component
    /// but the last names a directory. Only FAT32 volumes are searched.
    pub fn find_file(&self, disk: &[u8], file_path: &str) -> (r: Result<DirEntry, FATError>)
        ensures
            match self.spec_find_file(disk@, file_path.spec_bytes()) {
                Ok(slot) => r matches Ok(e) && entry_decoded_from(e, slot),
                Err(e) => r == Err::<DirEntry, FATError>(e),
            },
    {
        let comps = split_path(file_path.as_bytes());
        let ghost cv = comps@.map_values(|v: Vec<u8>| v@);
        if comps.len() == 0 {
            return Err(FATError::FileNotFound);
        }
        let fat_type = self.bpb.fat_type();
        if fat_type != FATType::FAT32 {
            return Err(FATError::UnsupportedFATType(fat_type));
        }
        let mut cluster = self.bpb.root_clus;
        let mut i: usize = 0;
        assert(cv.skip(0) =~= cv);
        while i < comps.len()
            invariant
                cv == comps@.map_values(|v: Vec<u8>| v@),
                cv == path_components(file_path.spec_bytes()),
                0 <= i < comps@.len(),
                self.spec_find_file(disk@, file_path.spec_bytes()) == self.spec_find_in(
                    disk@,
                    cv.skip(i as int),
                    cluster,
                ),
            decreases comps@.len() - i,
        {
            let ghost rest = cv.skip(i as int);
            assert(rest[0] == comps@[i as int]@);
            let entries = match self.list_dir(disk, cluster) {
                Ok(v) => v,
                Err(e) => return Err(e),
            };
            let ghost slots = self.spec_list_dir(disk@, cluster)->Ok_0;
            let want_dir = i + 1 < comps.len();
            let q = comps[i].as_slice();
            let mut j: usize = 0;
            assert(slots.skip(0) =~= slots);
            let mut found: Option<DirEntry> = None;
            while j < entries.len()
                invariant_except_break
                    found is None,
                invariant
                    decoded_all(entries@, slots),
                    0 <= j <= entries@.len(),
                    first_match(slots, q@, want_dir) == first_match(
                        slots.skip(j as int),
                        q@,
                        want_dir,
                    ),
                ensures
                    found is None ==> first_match(slots, q@, want_dir) is None,
                    found matches Some(e) ==> first_match(slots, q@, want_dir) matches Some(
                        slot,
                    ) && entry_decoded_from(e, slot),
                decreases entries@.len() - j,
            {
                let e = entries[j];
                assert(entry_decoded_from(entries@[j as int], slots[j as int]));
                assert(slots.skip(j as int)[0] == slots[j as int]);
                assert(slots.skip(j as int).drop_first() =~= slots.skip(j + 1));
                if e.is_dir() == want_dir && e.same_short_name_bytes(q) {
                    found = Some(e);
                    break;
                }
                j = j + 1;
            }
            match found {
                None => {
                    return Err(FATError::FileNotFound);
                },
                Some(e) => {
                    if !want_dir {
                        return Ok(e);
                    }
                    assert(rest.drop_first() =~= cv.skip(i + 1));
                    cluster = e.cluster_number();
                    i = i + 1;
                },
            }
        }
        Err(FATError::FileNotFound)
    }

    /// Whether every byte of cluster `cluster` is zero.
    pub fn is_zero_cluster(&self, disk: &[u8], cluster: u32) -> (r: Result<bool, FATError>)
        requires
            cluster >= 2,
        ensures
            self.spec_cluster_readable(disk@, cluster as nat) <==> r is Ok,
            r matches Ok(b) ==> b == self.spec_cluster_zero(disk@, cluster as nat),
            r matches Err(e) ==> e == self.spec_cluster_io(cluster as nat),
    {
        let buf = match self.read_cluster(disk, cluster) {
            Ok(b) => b,
            Err(e) => return Err(e),
        };
        let ghost off = self.spec_cluster_offset(cluster as nat) as int;
        let mut i: usize = 0;
        while i < buf.len()
            invariant
                buf@ == disk@.subrange(off, off + self.spec_cluster_size()),
                off == self.spec_cluster_offset(cluster as nat),
                self.spec_cluster_readable(disk@, cluster as nat),
                i <= buf@.len(),
                forall|k: int| 0 <= k < i ==> buf@[k] == 0,
            decreases buf@.len() - i,
        {
            if buf[i] != 0 {
                assert(disk@[off + i] != 0);
                return Ok(false);
            }
            i = i + 1;
        }
        assert forall|k: int|
            off <= k < off + self.spec_cluster_size() implies disk@[k] == 0 by {
            assert(buf@[k - off] == 0);
        }
        Ok(true)
    }

    /// Byte offset of the entry of `cluster` in FAT copy `copy`.
    fn copy_offset(&self, copy: u8, cluster: u32) -> (r: u64)
        ensures
            r == self.spec_copy_offset(copy as nat, cluster as nat),
    {
        let fat_sz = self.bpb.fat_sz() as u64;
        let bps = self.bpb.bytes_per_sec as u64;
        let fat_start = self.fat_start();
        assert(copy * fat_sz <= 0xff * 0xffff_ffff) by (nonlinear_arith)
            requires
                copy <= 0xff,
                fat_sz <= 0xffff_ffff,
        ;
        let base = fat_start + copy as u64 * fat_sz;
        assert(base * bps <= 0x200_0000_0000 * 0xffff) by (nonlinear_arith)
            requires
                base < 0x200_0000_0000,
                bps <= 0xffff,
        ;
        base * bps + cluster as u64 * 4
    }

    /// Sets the entry of `cluster_nb` to `value` in every FAT copy.
    pub fn update_fat_entry(&self, disk: &mut Vec<u8>, cluster_nb: u32, value: u32)
        requires
            self.spec_copies_in_image(old(disk)@.len(), cluster_nb as nat),
        ensures
            final(disk)@ == self.spec_write_copies(
                old(disk)@,
                cluster_nb as nat,
                self.bpb.num_fat as nat,
                value,
            ),
    {
        let data: [u8; 4] = [
            (value % 0x100) as u8,
            ((value / 0x100) % 0x100) as u8,
            ((value / 0x10000) % 0x100) as u8,
            (value / 0x1000000) as u8,
        ];
        assert(data@ =~= le_bytes(value));
        let mut i: u8 = 0;
        while i < self.bpb.num_fat
            invariant
                i <= self.bpb.num_fat,
                self.spec_copies_in_image(old(disk)@.len(), cluster_nb as nat),
                disk@.len() == old(disk)@.len(),
                disk@ == self.spec_write_copies(old(disk)@, cluster_nb as nat, i as nat, value),
                data@ == le_bytes(value),
            decreases self.bpb.num_fat - i,
        {
            let off = self.copy_offset(i, cluster_nb);
            proof {
                self.lemma_copy_offset_monotone(
                    i as nat,
                    (self.bpb.num_fat - 1) as nat,
                    cluster_nb as nat,
                    cluster_nb as nat,
                );
            }
            let res = write_at(disk, off, data.as_slice());
            assert(res is Ok);
            i = i + 1;
        }
    }

    /// Entries of later copies and later clusters lie further on.
    pub proof fn lemma_copy_offset_monotone(&self, j1: nat, j2: nat, c1: nat, c2: nat)
        requires
            j1 <= j2,
            c1 <= c2,
        ensures
            self.spec_copy_offset(j1, c1) <= self.spec_copy_offset(j2, c2),
    {
        let f = self.bpb.spec_fat_sz() as int;
        let b = self.spec_bps() as int;
        let s = self.spec_fat_start() as int;
        assert((s + j1 * f) * b <= (s + j2 * f) * b) by (nonlinear_arith)
            requires
                j1 <= j2,
                f >= 0,
                b >= 0,
                s >= 0,
        ;
    }

    /// Finds the first run of `cluster_cnt` consecutive clusters that are
    /// unreferenced in the FAT and zero-filled, marks each of them bad in
    /// every FAT copy, and returns the first cluster of the run. Only FAT32
    /// volumes are searched; the image is left as it was on any error.
    pub fn mark_as_bad(&self, disk: &mut Vec<u8>, cluster_cnt: u32) -> (r: Result<u32, FATError>)
        ensures
            r == self.spec_mark_as_bad(old(disk)@, cluster_cnt as nat),
            r matches Ok(k) ==> final(disk)@ == self.spec_mark_run(
                old(disk)@,
                k as nat,
                cluster_cnt as nat,
            ),
            r is Err ==> final(disk)@ == old(disk)@,
    {
        let fat_type = self.bpb.fat_type();
        if fat_type != FATType::FAT32 {
            return Err(FATError::UnsupportedFATType(fat_type));
        }
        let cc = self.bpb.cluster_count() as u64;
        let end: u32 = if cc + 2 < FAT32_CLUSTER_LIMIT as u64 {
            (cc + 2) as u32
        } else {
            FAT32_CLUSTER_LIMIT
        };
        let mut start: u32 = 2;
        let mut i: u32 = 0;
        loop
            invariant
                end == self.spec_scan_end(),
                start + i <= end,
                i <= cluster_cnt,
                disk@ == old(disk)@,
                self.spec_scan(disk@, cluster_cnt as nat, 2, 0) == self.spec_scan(
                    disk@,
                    cluster_cnt as nat,
                    (start + i) as nat,
                    i as nat,
                ),
                i <= start + i,
                start >= 2,
                self.bpb.spec_fat_type() == FATType::FAT32,
            ensures
                i == cluster_cnt,
                start + i <= end,
                disk@ == old(disk)@,
                self.spec_scan(disk@, cluster_cnt as nat, 2, 0) == Ok::<u32, FATError>(start),
            decreases end - (start + i),
        {
            if i == cluster_cnt {
                break;
            }
            if start + i >= end {
                return Err(FATError::NoFreeClusterChain(cluster_cnt));
            }
            let p = start + i;
            let next = match self.get_next_cluster(disk.as_slice(), p) {
                Ok(v) => v,
                Err(e) => return Err(e),
            };
            if next != 0 {
                start = p + 1;
                i = 0;
            } else {
                let zero = match self.is_zero_cluster(disk.as_slice(), p) {
                    Ok(z) => z,
                    Err(e) => return Err(e),
                };
                if zero {
                    i = i + 1;
                } else {
                    start = p + 1;
                    i = 0;
                }
            }
        }
        if cluster_cnt > 0 && self.bpb.num_fat > 0 {
            let last = self.copy_offset(self.bpb.num_fat - 1, start + cluster_cnt - 1);
            if last > disk.len() as u64 || 4 > disk.len() - last as usize {
                return Err(FATError::IOError(IoError { offset: last, len: 4 }));
            }
        }
        let mut c: u32 = 0;
        while c < cluster_cnt
            invariant
                c <= cluster_cnt,
                start + cluster_cnt <= end,
                cluster_cnt > 0 ==> self.spec_copies_in_image(
                    old(disk)@.len(),
                    (start + cluster_cnt - 1) as nat,
                ),
                disk@.len() == old(disk)@.len(),
                disk@ == self.spec_mark_run(old(disk)@, start as nat, c as nat),
            decreases cluster_cnt - c,
        {
            proof {
                if self.bpb.num_fat > 0 {
                    self.lemma_copy_offset_monotone(
                        (self.bpb.num_fat - 1) as nat,
                        (self.bpb.num_fat - 1) as nat,
                        (start + c) as nat,
                        (start + cluster_cnt - 1) as nat,
                    );
                }
            }
            self.update_fat_entry(disk, start + c, DirEntry::bad_cluster_marker(FATType::FAT32));
            proof {
                self.lemma_write_copies_len(
                    self.spec_mark_run(old(disk)@, start as nat, c as nat),
                    (start + c) as nat,
                    self.bpb.num_fat as nat,
                    spec_bad_cluster_marker(FATType::FAT32),
                );
            }
            c = c + 1;
        }
        Ok(start)
    }

    /// Cluster `c` starts `(c - 2) * sec_per_clus` sectors into the data
    /// region, so later clusters start at later sectors.
    pub proof fn lemma_clus_to_sector_monotone(&self, c1: nat, c2: nat)
        requires
            2 <= c1 < c2,
            self.bpb.sec_per_clus > 0,
        ensures
            self.spec_clus_to_sector(c1) == self.spec_data_start() + (c1 - 2) * self.spec_spc(),
            self.spec_clus_to_sector(c1) < self.spec_clus_to_sector(c2),
    {
        let s = self.spec_spc() as int;
        assert((c1 - 2) * s < (c2 - 2) * s) by (nonlinear_arith)
            requires
                2 <= c1 < c2,
                s > 0,
        ;
    }

    /// On a volume whose clusters `[k, k + n)` are free and readable, where
    /// every cluster before `k` can be examined, and where no run of `n`
    /// free clusters starts before `k`, the search finds `k`.
    pub proof fn lemma_scan_finds_first_run(&self, disk: Seq<u8>, n: nat, k: nat)
        requires
            n > 0,
            2 <= k,
            k + n <= self.spec_scan_end(),
            self.spec_run_ready(disk, k, n),
            self.spec_prefix_scannable(disk, k),
            self.spec_no_earlier_run(disk, k, n),
        ensures
            self.spec_scan(disk, n, 2, 0) == Ok::<u32, FATError>(k as u32),
    {
        self.lemma_scan_from(disk, n, k, 2, 0);
    }

    proof fn lemma_scan_from(&self, disk: Seq<u8>, n: nat, k: nat, p: nat, run: nat)
        requires
            n > 0,
            2 <= k,
            k + n <= self.spec_scan_end(),
            self.spec_run_ready(disk, k, n),
            self.spec_prefix_scannable(disk, k),
            self.spec_no_earlier_run(disk, k, n),
            2 <= p - run,
            p - run <= k,
            run <= n,
            forall|c: nat| p - run <= c < p ==> #[trigger] self.spec_cluster_free(disk, c),
        ensures
            self.spec_scan(disk, n, p, run) == Ok::<u32, FATError>(k as u32),
        decreases k + n - p,
    {
        if run == n {
            if p - n < k {
                let s = (p - n) as nat;
                assert(self.spec_run_blocked(disk, s, n));
                let c = choose|c: nat| s <= c < s + n && !self.spec_cluster_free(disk, c);
                assert(self.spec_cluster_free(disk, c));
            }
        } else {
            assert(p < k + n);
            if p >= k {
                assert(self.spec_cluster_free(disk, p));
            }
            if self.spec_next(disk, p) != 0 || !self.spec_cluster_zero(disk, p) {
                if p >= k {
                    assert(self.spec_cluster_free(disk, p));
                }
                self.lemma_scan_from(disk, n, k, p + 1, 0);
            } else {
                assert forall|c: nat| p + 1 - (run + 1) <= c < p + 1 implies #[trigger] self.spec_cluster_free(
                    disk,
                    c,
                ) by {
                    if c == p {
                    }
                }
                self.lemma_scan_from(disk, n, k, p + 1, run + 1);
            }
        }
    }

    /// After `n` clusters from `k` are marked on a volume whose sector size
    /// is a multiple of 4, the FAT entry of each of them reads as the FAT32
    /// bad-cluster marker.
    pub proof fn lemma_marked_entries_read_bad(&self, d: Seq<u8>, k: nat, n: nat, c: nat)
        requires
            n > 0,
            self.spec_bps() % 4 == 0,
            self.bpb.num_fat > 0,
            self.spec_copies_in_image(d.len(), (k + n - 1) as nat),
            k <= c < k + n,
        ensures
            self.spec_next(self.spec_mark_run(d, k, n), c) == spec_bad_cluster_marker(
                FATType::FAT32,
            ),
    {
        self.lemma_mark_run_window(d, k, n, 0, c);
        self.lemma_copy_offset_monotone(0, (self.bpb.num_fat - 1) as nat, c, (k + n - 1) as nat);
        let m = self.spec_mark_run(d, k, n);
        let o = self.spec_entry_offset(c) as int;
        assert(self.spec_copy_offset(0, c) == self.spec_entry_offset(c));
        let w = m.subrange(o, o + 4);
        assert(m[o] == w[0] && m[o + 1] == w[1] && m[o + 2] == w[2] && m[o + 3] == w[3]);
        assert(le32(m, o) == 0x0FFF_FFF7);
    }

    /// Aligned 4-byte windows: two entry offsets are equal or 4 apart at least.
    proof fn lemma_offsets_aligned(&self, j1: nat, c1: nat, j2: nat, c2: nat)
        requires
            self.spec_bps() % 4 == 0,
        ensures
            self.spec_copy_offset(j1, c1) % 4 == 0,
            self.spec_copy_offset(j2, c2) % 4 == 0,
    {
        let b = self.spec_bps() as int;
        let q = b / 4;
        let base1 = self.spec_fat_start() + j1 * self.bpb.spec_fat_sz();
        let base2 = self.spec_fat_start() + j2 * self.bpb.spec_fat_sz();
        assert(base1 * b + c1 * 4 == 4 * (base1 * q + c1)) by (nonlinear_arith)
            requires
                b == 4 * q,
        ;
        assert(base2 * b + c2 * 4 == 4 * (base2 * q + c2)) by (nonlinear_arith)
            requires
                b == 4 * q,
        ;
        vstd::arithmetic::div_mod::lemma_mod_multiples_basic(base1 * q + c1, 4);
        vstd::arithmetic::div_mod::lemma_mod_multiples_basic(base2 * q + c2, 4);
    }

    /// Every window written while marking holds the marker bytes at the end,
    /// and the length of the image is kept.
    proof fn lemma_mark_run_window(&self, d: Seq<u8>, k: nat, m: nat, j: nat, c: nat)
        requires
            self.spec_bps() % 4 == 0,
            m > 0 ==> self.spec_copies_in_image(d.len(), (k + m - 1) as nat),
            self.bpb.num_fat > 0,
            j < self.bpb.num_fat,
            k <= c < k + m,
        ensures
            self.spec_mark_run(d, k, m).len() == d.len(),
            self.spec_mark_run(d, k, m).subrange(
                self.spec_copy_offset(j, c) as int,
                (self.spec_copy_offset(j, c) + 4) as int,
            ) == le_bytes(spec_bad_cluster_marker(FATType::FAT32)),
        decreases m,
    {
        let last = (k + m - 1) as nat;
        let prev = self.spec_mark_run(d, k, (m - 1) as nat);
        self.lemma_mark_run_len(d, k, (m - 1) as nat, last);
        self.lemma_write_copies_len(prev, last, self.bpb.num_fat as nat, 0x0FFF_FFF7);
        if c == last {
            self.lemma_write_copies_window(prev, last, self.bpb.num_fat as nat, j, last);
        } else {
            self.lemma_copy_offset_monotone(
                (self.bpb.num_fat - 1) as nat,
                (self.bpb.num_fat - 1) as nat,
                (k + m - 2) as nat,
                last,
            );
            self.lemma_mark_run_window(d, k, (m - 1) as nat, j, c);
            self.lemma_copy_offset_monotone(j, (self.bpb.num_fat - 1) as nat, c, last);
            self.lemma_write_copies_keeps(prev, last, self.bpb.num_fat as nat, j, c);
        }
    }

    proof fn lemma_mark_run_len(&self, d: Seq<u8>, k: nat, m: nat, bound: nat)
        requires
            k + m <= bound + 1,
            self.spec_copies_in_image(d.len(), bound),
        ensures
            self.spec_mark_run(d, k, m).len() == d.len(),
        decreases m,
    {
        if m > 0 {
            self.lemma_mark_run_len(d, k, (m - 1) as nat, bound);
            let prev = self.spec_mark_run(d, k, (m - 1) as nat);
            if self.bpb.num_fat > 0 {
                self.lemma_copy_offset_monotone(
                    (self.bpb.num_fat - 1) as nat,
                    (self.bpb.num_fat - 1) as nat,
                    (k + m - 1) as nat,
                    bound,
                );
            }
            self.lemma_write_copies_len(prev, (k + m - 1) as nat, self.bpb.num_fat as nat, 0x0FFF_FFF7);
        }
    }

    /// Writing the copies of `cluster` puts the value in each copy's window.
    proof fn lemma_write_copies_window(&self, d: Seq<u8>, cluster: nat, j: nat, t: nat, c: nat)
        requires
            self.spec_bps() % 4 == 0,
            c == cluster,
            t < j,
            j <= self.bpb.num_fat,
            j > 0 ==> in_image(d.len() as int, self.spec_copy_offset((j - 1) as nat, cluster) as int, 4),
        ensures
            self.spec_write_copies(d, cluster, j, 0x0FFF_FFF7).subrange(
                self.spec_copy_offset(t, c) as int,
                (self.spec_copy_offset(t, c) + 4) as int,
            ) == le_bytes(0x0FFF_FFF7),
        decreases j,
    {
        let o = self.spec_copy_offset((j - 1) as nat, cluster) as int;
        let prev = self.spec_write_copies(d, cluster, (j - 1) as nat, 0x0FFF_FFF7);
        if j > 1 {
            self.lemma_copy_offset_monotone((j - 2) as nat, (j - 1) as nat, cluster, cluster);
        }
        self.lemma_write_copies_len(d, cluster, (j - 1) as nat, 0x0FFF_FFF7);
        let cur = overwrite(prev, o, le_bytes(0x0FFF_FFF7));
        let ot = self.spec_copy_offset(t, c) as int;
        if t == j - 1 {
            assert(cur.subrange(ot, ot + 4) =~= le_bytes(0x0FFF_FFF7));
        } else {
            self.lemma_write_copies_window(d, cluster, (j - 1) as nat, t, c);
            self.lemma_offsets_aligned(t, c, (j - 1) as nat, cluster);
            assert(cur.subrange(ot, ot + 4) =~= prev.subrange(ot, ot + 4)) by {
                self.lemma_copy_offset_monotone(t, (j - 1) as nat, c, cluster);
                if ot == o {
                    assert(prev.subrange(ot, ot + 4) =~= le_bytes(0x0FFF_FFF7));
                }
            }
        }
    }

    /// Writing the copies of one cluster keeps the marker in the windows of
    /// another, aligned, cluster.
    proof fn lemma_write_copies_keeps(&self, d: Seq<u8>, cluster: nat, j: nat, t: nat, c: nat)
        requires
            self.spec_bps() % 4 == 0,
            c < cluster,
            j <= self.bpb.num_fat,
            j > 0 ==> in_image(d.len() as int, self.spec_copy_offset((j - 1) as nat, cluster) as int, 4),
            in_image(d.len() as int, self.spec_copy_offset(t, c) as int, 4),
            d.subrange(self.spec_copy_offset(t, c) as int, (self.spec_copy_offset(t, c) + 4) as int) == le_bytes(
                0x0FFF_FFF7,
            ),
        ensures
            self.spec_write_copies(d, cluster, j, 0x0FFF_FFF7).subrange(
                self.spec_copy_offset(t, c) as int,
                (self.spec_copy_offset(t, c) + 4) as int,
            ) == le_bytes(0x0FFF_FFF7),
        decreases j,
    {
        if j > 0 {
            if j > 1 {
                self.lemma_copy_offset_monotone((j - 2) as nat, (j - 1) as nat, cluster, cluster);
            }
            self.lemma_write_copies_keeps(d, cluster, (j - 1) as nat, t, c);
            self.lemma_write_copies_len(d, cluster, (j - 1) as nat, 0x0FFF_FFF7);
            let prev = self.spec_write_copies(d, cluster, (j - 1) as nat, 0x0FFF_FFF7);
            let o = self.spec_copy_offset((j - 1) as nat, cluster) as int;
            let ot = self.spec_copy_offset(t, c) as int;
            let cur = overwrite(prev, o, le_bytes(0x0FFF_FFF7));
            self.lemma_offsets_aligned(t, c, (j - 1) as nat, cluster);
            if ot == o {
                assert(cur.subrange(ot, ot + 4) =~= le_bytes(0x0FFF_FFF7));
            } else {
                assert(cur.subrange(ot, ot + 4) =~= prev.subrange(ot, ot + 4));
            }
        }
    }

    /// Writing exactly as many bytes as the volume slack holds succeeds when
    /// the slack lies in the image, and leaves the data at the end of the data
    /// region; one byte more is refused with the free and needed counts.
    pub proof fn lemma_volume_slack_boundary(&self, disk: Seq<u8>, data: Seq<u8>, extra: Seq<u8>)
        requires
            data.len() == self.spec_volume_slack(),
            extra.len() == data.len() + 1,
            in_image(disk.len() as int, (self.spec_data_end() * self.spec_bps()) as int, data.len() as int),
        ensures
            self.spec_write_to_volume_slack(disk, data) is Ok,
            overwrite(disk, (self.spec_data_end() * self.spec_bps()) as int, data).subrange(
                (self.spec_data_end() * self.spec_bps()) as int,
                (self.spec_data_end() * self.spec_bps() + data.len()) as int,
            ) == data,
            self.spec_write_to_volume_slack(disk, extra) == Err::<(), FATError>(
                FATError::InsufficientSlackSpace {
                    free: data.len() as u64,
                    needed: (data.len() + 1) as u64,
                },
            ),
    {
        let off = (self.spec_data_end() * self.spec_bps()) as int;
        assert(overwrite(disk, off, data).subrange(off, off + data.len()) =~= data);
    }

    /// Writing entries that lie in the image keeps its length.
    pub proof fn lemma_write_copies_len(&self, d: Seq<u8>, cluster: nat, j: nat, value: u32)
        requires
            j > 0 ==> in_image(d.len() as int, self.spec_copy_offset((j - 1) as nat, cluster) as int, 4),
        ensures
            self.spec_write_copies(d, cluster, j, value).len() == d.len(),
        decreases j,
    {
        if j > 0 {
            if j > 1 {
                self.lemma_copy_offset_monotone((j - 2) as nat, (j - 1) as nat, cluster, cluster);
            }
            self.lemma_write_copies_len(d, cluster, (j - 1) as nat, value);
        }
    }

    /// Writes `data` verbatim at the end of the data region, into the
    /// volume slack; fails when the slack is too small.
    pub fn write_to_volume_slack(&self, disk: &mut Vec<u8>, data: &[u8]) -> (r: Result<
        (),
        FATError,
    >)
        ensures
            r == self.spec_write_to_volume_slack(old(disk)@, data@),
            r is Ok ==> final(disk)@ == overwrite(
                old(disk)@,
                (self.spec_data_end() * self.spec_bps()) as int,
                data@,
            ),
            r is Err ==> final(disk)@ == old(disk)@,
    {
        let data_end = self.data_end();
        let bps = self.bpb.bytes_per_sec as u64;
        let end = self.end();
        let free: u64 = if data_end < end {
            assert((end - data_end) * bps <= 0x2_0000_0000 * 0xffff) by (nonlinear_arith)
                requires
                    end - data_end <= 0x2_0000_0000,
                    bps <= 0xffff,
            ;
            (end - data_end) * bps
        } else {
            0
        };
        if data.len() as u64 > free {
            return Err(FATError::InsufficientSlackSpace { free, needed: data.len() as u64 });
        }
        assert(data_end * bps <= 0x300_0000_0000 * 0xffff) by (nonlinear_arith)
            requires
                data_end <= 0x300_0000_0000,
                bps <= 0xffff,
        ;
        match write_at(disk, data_end * bps, data) {
            Ok(()) => Ok(()),
            Err(e) => Err(FATError::IOError(e)),
        }
    }

    /// Writes `data` into the slack of the file at `file_path`: after the
    /// file's last byte, in its last cluster. Fails when the file has no
    /// cluster, when the slack is too small, or when the data is longer than
    /// a cluster.
    pub fn write_to_file_slack(&self, disk: &mut Vec<u8>, file_path: &str, data: &[u8]) -> (r:
        Result<(), FATError>)
        ensures
            r == self.spec_write_to_file_slack(old(disk)@, file_path.spec_bytes(), data@).0,
            r is Ok ==> final(disk)@ == overwrite(
                old(disk)@,
                self.spec_write_to_file_slack(old(disk)@, file_path.spec_bytes(), data@).1 as int,
                data@,
            ),
            r is Err ==> final(disk)@ == old(disk)@,
    {
        let entry = match self.find_file(disk.as_slice(), file_path) {
            Ok(e) => e,
            Err(e) => return Err(e),
        };
        let needed = data.len() as u64;
        let first = entry.cluster_number();
        if entry.file_size == 0 && first == 0 {
            return Err(FATError::InsufficientSlackSpace { free: 0, needed });
        }
        let clusters = match self.list_clusters(disk.as_slice(), first) {
            Ok(c) => c,
            Err(e) => return Err(e),
        };
        proof {
            self.lemma_chain_valid(disk@, first, self.bpb.spec_cluster_count());
            super::bpb::lemma_cluster_count_bound(&self.bpb);
        }
        let cluster_size = self.cluster_size() as u64;
        let n = clusters.len() as u64;
        assert(n * cluster_size <= 0xffff_ffff * 0xffff * 0xff) by (nonlinear_arith)
            requires
                n <= 0xffff_ffff,
                cluster_size <= 0xffff * 0xff,
        ;
        let chain_bytes = n * cluster_size;
        let size = entry.file_size as u64;
        let slack = if chain_bytes >= size {
            chain_bytes - size
        } else {
            0
        };
        if needed > slack {
            return Err(FATError::InsufficientSlackSpace { free: slack, needed });
        }
        if needed > cluster_size {
            return Err(FATError::UnsupportedFeature);
        }
        if clusters.len() == 0 {
            return Err(FATError::InsufficientSlackSpace { free: 0, needed });
        }
        let last = clusters[clusters.len() - 1];
        assert(last == clusters@.last());
        proof {
            assert(self.bpb.spec_cluster_count() > 0);
            assert(self.spec_bps() > 0 && self.spec_spc() > 0);
            assert(self.spec_bps() * self.spec_spc() > 0) by (nonlinear_arith)
                requires
                    self.spec_bps() > 0,
                    self.spec_spc() > 0,
            ;
        }
        let sector = self.clus_to_sector(last);
        assert(sector * self.bpb.bytes_per_sec <= 0x400_0000_0000 * 0xffff) by (nonlinear_arith)
            requires
                sector < 0x400_0000_0000,
                self.bpb.bytes_per_sec <= 0xffff,
        ;
        let offset = sector * self.bpb.bytes_per_sec as u64 + size % cluster_size;
        match write_at(disk, offset, data) {
            Ok(()) => Ok(()),
            Err(e) => Err(FATError::IOError(e)),
        }
    }

    /// The directory tree of the volume, depth first from the root: each
    /// entry with its depth, each directory but "." and ".." followed by its
    /// own tree. Only FAT32 volumes are walked; directories nested deeper
    /// than [`MAX_TREE_DEPTH`] are reported as a corrupt chain.
    pub fn display_tree(&self, disk: &[u8]) -> (r: Result<Vec<(u64, DirEntry)>, FATError>)
        ensures
            match self.spec_tree(disk@) {
                Ok(rows) => r matches Ok(v) && tree_rows_match(v@, rows),
                Err(e) => r == Err::<Vec<(u64, DirEntry)>, FATError>(e),
            },
    {
        let fat_type = self.bpb.fat_type();
        if fat_type != FATType::FAT32 {
            return Err(FATError::UnsupportedFATType(fat_type));
        }
        self.print_dir_rec(disk, self.bpb.root_clus, 0, MAX_TREE_DEPTH)
    }

    /// The rows of the tree below the directory at `cluster`.
    pub fn print_dir_rec(&self, disk: &[u8], cluster: u32, depth: u64, fuel: u32) -> (r: Result<
        Vec<(u64, DirEntry)>,
        FATError,
    >)
        requires
            depth + fuel <= u32::MAX,
        ensures
            match self.spec_tree_dir(disk@, cluster, depth as nat, fuel as nat) {
                Ok(rows) => r matches Ok(v) && tree_rows_match(v@, rows),
                Err(e) => r == Err::<Vec<(u64, DirEntry)>, FATError>(e),
            },
        decreases fuel, 1nat, 0nat,
    {
        let entries = match self.list_dir(disk, cluster) {
            Ok(v) => v,
            Err(e) => return Err(e),
        };
        let ghost slots = self.spec_list_dir(disk@, cluster)->Ok_0;
        assert(slots.skip(0) =~= slots);
        self.tree_of_entries(disk, &entries, 0, Ghost(slots), depth, fuel)
    }

    /// The rows of the entries from index `i` on, each followed by its tree.
    fn tree_of_entries(
        &self,
        disk: &[u8],
        entries: &Vec<DirEntry>,
        i: usize,
        slots: Ghost<Seq<Seq<u8>>>,
        depth: u64,
        fuel: u32,
    ) -> (r: Result<Vec<(u64, DirEntry)>, FATError>)
        requires
            decoded_all(entries@, slots@),
            i <= entries@.len(),
            depth + fuel <= u32::MAX,
        ensures
            match self.spec_tree_slots(disk@, slots@.skip(i as int), depth as nat, fuel as nat) {
                Ok(rows) => r matches Ok(v) && tree_rows_match(v@, rows),
                Err(e) => r == Err::<Vec<(u64, DirEntry)>, FATError>(e),
            },
        decreases fuel, 0nat, entries@.len() - i,
    {
        if i == entries.len() {
            assert(slots@.skip(i as int) =~= Seq::<Seq<u8>>::empty());
            return Ok(Vec::new());
        }
        let e = entries[i];
        let ghost rest = slots@.skip(i as int);
        assert(rest[0] == slots@[i as int]);
        assert(entry_decoded_from(entries@[i as int], slots@[i as int]));
        assert(rest.drop_first() =~= slots@.skip(i + 1));
        assert(e.name@ =~= rest[0].subrange(0, 11));
        let ghost head = seq![(depth as nat, rest[0])];
        let mut out: Vec<(u64, DirEntry)> = Vec::new();
        out.push((depth, e));
        assert(tree_rows_match(out@, head)) by {
            assert(out@[0] == (depth, e));
        }
        let ghost sub_rows: Seq<(nat, Seq<u8>)> = Seq::empty();
        if e.is_regular_dir() {
            if fuel == 0 {
                return Err(FATError::CorruptChain(e.cluster_number()));
            }
            let mut sub = match self.print_dir_rec(disk, e.cluster_number(), depth + 1, fuel - 1) {
                Ok(v) => v,
                Err(err) => return Err(err),
            };
            proof {
                sub_rows = self.spec_tree_dir(disk@, slot_cluster(rest[0]), (depth + 1) as nat, (fuel - 1) as nat)->Ok_0;
                lemma_rows_concat(out@, head, sub@, sub_rows);
            }
            out.append(&mut sub);
        } else {
            assert(head + sub_rows =~= head);
        }
        let mut tail = match self.tree_of_entries(disk, entries, i + 1, slots, depth, fuel) {
            Ok(v) => v,
            Err(err) => return Err(err),
        };
        let ghost tail_rows = self.spec_tree_slots(disk@, rest.drop_first(), depth as nat, fuel as nat)->Ok_0;
        proof {
            lemma_rows_concat(out@, head + sub_rows, tail@, tail_rows);
        }
        out.append(&mut tail);
        Ok(out)
    }

    /// The clusters of a chain that was walked are data clusters, and there
    /// are no more of them than the fuel.
    pub proof fn lemma_chain_valid(&self, disk: Seq<u8>, cluster: u32, fuel: nat)
        ensures
            self.spec_chain(disk, cluster, fuel) matches Ok(s) ==> {
                &&& s.len() <= fuel
                &&& forall|j: int| 0 <= j < s.len() ==> s[j] >= 2
            },
        decreases fuel,
    {
        if !spec_is_eof(cluster, FATType::FAT32) && cluster >= 2 && fuel > 0
            && self.spec_entry_readable(disk, cluster as nat) {
            let next = self.spec_next(disk, cluster as nat);
            self.lemma_chain_valid(disk, next, (fuel - 1) as nat);
            match self.spec_chain(disk, next, (fuel - 1) as nat) {
                Ok(t) => {
                    let s = seq![cluster] + t;
                    assert forall|j: int| 0 <= j < s.len() implies s[j] >= 2 by {
                        if j > 0 {
                            assert(s[j] == t[j - 1]);
                        }
                    }
                },
                Err(_) => {},
            }
        }
    }
}

impl LayoutDisplay for FATVol {
    /// Reserved sectors, each FAT copy, the root directory on FAT12/16, the
    /// data region, and the volume slack when the partition runs on past
    /// the data region.
    open spec fn spec_layout(&self) -> Seq<Region> {
        let fat_sz = self.bpb.spec_fat_sz() as int;
        let fats = Seq::new(
            self.bpb.num_fat as nat,
            |i: int|
                Region {
                    kind: RegionKind::Fat(i as u8),
                    start: (self.spec_fat_start() + i * fat_sz) as u64,
                    end: (self.spec_fat_start() + i * fat_sz + fat_sz) as u64,
                },
        );
        let root = if self.bpb.spec_fat_type() != FATType::FAT32 {
            seq![
                Region {
                    kind: RegionKind::RootDir,
                    start: self.spec_root_start() as u64,
                    end: self.spec_data_start() as u64,
                },
            ]
        } else {
            Seq::empty()
        };
        let slack = if self.spec_data_end() < self.spec_end() {
            seq![
                Region {
                    kind: RegionKind::VolumeSlack,
                    start: self.spec_data_end() as u64,
                    end: self.spec_end() as u64,
                },
            ]
        } else {
            Seq::empty()
        };
        seq![
            Region {
                kind: RegionKind::Reserved,
                start: self.start as u64,
                end: self.spec_fat_start() as u64,
            },
        ] + fats + root + seq![
            Region {
                kind: RegionKind::Data,
                start: self.spec_data_start() as u64,
                end: self.spec_data_end() as u64,
            },
        ] + slack
    }

    fn display_layout(&self) -> (r: Vec<Region>) {
        let mut out: Vec<Region> = Vec::new();
        let fat_start = self.fat_start();
        out.push(Region { kind: RegionKind::Reserved, start: self.rsvd_start(), end: fat_start });
        let fat_sz = self.bpb.fat_sz() as u64;
        let ghost fats = Seq::new(
            self.bpb.num_fat as nat,
            |i: int|
                Region {
                    kind: RegionKind::Fat(i as u8),
                    start: (self.spec_fat_start() + i * fat_sz) as u64,
                    end: (self.spec_fat_start() + i * fat_sz + fat_sz) as u64,
                },
        );
        let mut i: u8 = 0;
        while i < self.bpb.num_fat
            invariant
                i <= self.bpb.num_fat,
                fat_sz == self.bpb.spec_fat_sz(),
                fat_start == self.spec_fat_start(),
                fat_start <= 0x1_0000_ffff,
                fats == Seq::new(
                    self.bpb.num_fat as nat,
                    |i: int|
                        Region {
                            kind: RegionKind::Fat(i as u8),
                            start: (self.spec_fat_start() + i * fat_sz) as u64,
                            end: (self.spec_fat_start() + i * fat_sz + fat_sz) as u64,
                        },
                ),
                out@ =~= seq![
                    Region {
                        kind: RegionKind::Reserved,
                        start: self.start as u64,
                        end: self.spec_fat_start() as u64,
                    },
                ] + fats.take(i as int),
            decreases self.bpb.num_fat - i,
        {
            assert(i * fat_sz <= 0xff * 0xffff_ffff) by (nonlinear_arith)
                requires
                    i <= 0xff,
                    fat_sz <= 0xffff_ffff,
            ;
            let fat_i_start = fat_start + i as u64 * fat_sz;
            out.push(Region { kind: RegionKind::Fat(i), start: fat_i_start, end: fat_i_start + fat_sz });
            assert(fats.take(i + 1) =~= fats.take(i as int).push(fats[i as int]));
            i = i + 1;
        }
        assert(fats.take(i as int) =~= fats);
        let data_start = self.data_start();
        let data_end = self.data_end();
        if self.bpb.fat_type() != FATType::FAT32 {
            out.push(Region { kind: RegionKind::RootDir, start: self.root_start(), end: data_start });
        }
        out.push(Region { kind: RegionKind::Data, start: data_start, end: data_end });
        let end = self.end();
        if data_end < end {
            out.push(Region { kind: RegionKind::VolumeSlack, start: data_end, end });
        }
        proof {
            let l = self.spec_layout();
            assert(out@ =~= l);
        }
        out
    }
}

} // verus!
