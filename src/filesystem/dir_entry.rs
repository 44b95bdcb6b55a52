//! The 32-byte directory entry: decoding, 8.3 short names, attributes, and
//! the end-of-chain and bad-cluster values of each FAT type.
use vstd::prelude::*;

use super::fat_type::FATType;
use crate::utils::{find_byte, index_of, le16, le32, u16_at, u32_at};
use vstd::string::StringSliceAdditionalSpecFns;

verus! {

/// Size in bytes of a directory entry.
pub const DIR_ENTRY_LEN: usize = 32;

pub const ATTR_READ_ONLY: u8 = 0x01;

pub const ATTR_HIDDEN: u8 = 0x02;

pub const ATTR_SYSTEM: u8 = 0x04;

pub const ATTR_VOLUME_ID: u8 = 0x08;

pub const ATTR_DIRECTORY: u8 = 0x10;

pub const ATTR_ARCHIVE: u8 = 0x20;

/// The attribute bits that together mark a long-name fragment.
pub const ATTR_LONG_NAME: u8 = 0x0F;

/// A directory entry.
#[derive(Clone, Copy, Debug, PartialEq, Eq)]
pub struct DirEntry {
    /// Name in 8.3 form: 8 bytes of name and 3 of extension, space-padded.
    pub name: [u8; 11],
    /// Attribute bits.
    pub attr: u8,
    /// Reserved.
    pub n_t_res: u8,
    /// Creation time, tenths of a second.
    pub crt_time_tenth: u8,
    /// Creation time.
    pub crt_time: u16,
    /// Creation date.
    pub crt_date: u16,
    /// Last access date.
    pub lst_acc_date: u16,
    /// High 16 bits of the first cluster.
    pub fst_clus_hi: u16,
    /// Last write time.
    pub wrt_time: u16,
    /// Last write date.
    pub wrt_date: u16,
    /// Low 16 bits of the first cluster.
    pub fst_clus_lo: u16,
    /// File size in bytes.
    pub file_size: u32,
}

/// Whether `e` holds the fields stored in the first 32 bytes of `s`.
pub open spec fn entry_decoded_from(e: DirEntry, s: Seq<u8>) -> bool {
    &&& e.name@ == s.subrange(0, 11)
    &&& e.attr == s[11]
    &&& e.n_t_res == s[12]
    &&& e.crt_time_tenth == s[13]
    &&& e.crt_time == le16(s, 14)
    &&& e.crt_date == le16(s, 16)
    &&& e.lst_acc_date == le16(s, 18)
    &&& e.fst_clus_hi == le16(s, 20)
    &&& e.wrt_time == le16(s, 22)
    &&& e.wrt_date == le16(s, 24)
    &&& e.fst_clus_lo == le16(s, 26)
    &&& e.file_size == le32(s, 28)
}

/// Whether the attribute byte marks a directory.
pub open spec fn attr_is_dir(attr: u8) -> bool {
    attr & ATTR_DIRECTORY == ATTR_DIRECTORY
}

/// Whether the attribute byte marks a long-name fragment.
pub open spec fn attr_is_long_name(attr: u8) -> bool {
    attr & ATTR_LONG_NAME == ATTR_LONG_NAME
}

/// The first cluster stored in the entry bytes `s`.
pub open spec fn slot_cluster(s: Seq<u8>) -> u32 {
    (le16(s, 20) * 0x10000 + le16(s, 26)) as u32
}

/// The name of the entry ".".
pub open spec fn self_name() -> Seq<u8> {
    seq![46u8, 32, 32, 32, 32, 32, 32, 32, 32, 32, 32]
}

/// The name of the entry "..".
pub open spec fn parent_name() -> Seq<u8> {
    seq![46u8, 46, 32, 32, 32, 32, 32, 32, 32, 32, 32]
}

/// The upper-case form of an ASCII letter; other bytes are kept.
pub open spec fn upper(b: u8) -> u8 {
    if 97 <= b <= 122 {
        (b - 32) as u8
    } else {
        b
    }
}

/// `s` in upper case and padded with spaces to `n` bytes; longer strings
/// are kept whole.
pub open spec fn padded_upper(s: Seq<u8>, n: nat) -> Seq<u8> {
    Seq::new(
        if s.len() > n {
            s.len()
        } else {
            n
        },
        |i: int|
            if i < s.len() {
                upper(s[i])
            } else {
                32u8
            },
    )
}

/// Index of the first `.` in `s`, or its length when there is none.
pub open spec fn dot_index(s: Seq<u8>) -> nat {
    index_of(s, 46)
}

/// The part of a query name before its first `.`.
pub open spec fn query_base(q: Seq<u8>) -> Seq<u8> {
    q.take(dot_index(q) as int)
}

/// The part of a query name between its first and second `.`; empty when
/// it has no `.`.
pub open spec fn query_ext(q: Seq<u8>) -> Seq<u8> {
    if dot_index(q) < q.len() {
        let rest = q.skip(dot_index(q) + 1 as int);
        rest.take(dot_index(rest) as int)
    } else {
        Seq::empty()
    }
}

/// The 11-byte form of a base name and an extension, or `None` when the
/// base has more than 8 bytes.
pub open spec fn short_name_of(base: Seq<u8>, ext: Seq<u8>) -> Option<Seq<u8>> {
    if base.len() > 8 {
        None
    } else {
        Some(padded_upper(base, 8) + padded_upper(ext, 3))
    }
}

/// Whether the query name `q` names an entry whose 8.3 name is `name`.
pub open spec fn matches_short_name(name: Seq<u8>, q: Seq<u8>) -> bool {
    short_name_of(query_base(q), query_ext(q)) == Some(name)
}

/// Whether `b` is ASCII whitespace.
pub open spec fn is_blank(b: u8) -> bool {
    b == 32 || 9 <= b <= 13
}

/// `s` without its trailing whitespace.
pub open spec fn trim_end(s: Seq<u8>) -> Seq<u8>
    decreases s.len(),
{
    if s.len() > 0 && is_blank(s.last()) {
        trim_end(s.drop_last())
    } else {
        s
    }
}

/// The display form of an 8.3 name: the trimmed base in upper case when the
/// trimmed extension is empty, `BASE.EXT` otherwise.
pub open spec fn display_name(name: Seq<u8>) -> Seq<u8> {
    let base = trim_end(name.subrange(0, 8));
    let ext = trim_end(name.subrange(8, 11));
    if ext.len() == 0 {
        Seq::new(base.len(), |i: int| upper(base[i]))
    } else {
        base + seq![46u8] + ext
    }
}

/// Whether `cluster` ends a chain on a FAT of that type.
pub open spec fn spec_is_eof(cluster: u32, fat_type: FATType) -> bool {
    match fat_type {
        FATType::FAT12 => cluster >= 0x0FF8,
        FATType::FAT16 => cluster >= 0xFFF8,
        FATType::FAT32 => cluster >= 0x0FFFFFF8,
    }
}

/// The value that marks a bad cluster on a FAT of that type.
pub open spec fn spec_bad_cluster_marker(fat_type: FATType) -> u32 {
    match fat_type {
        FATType::FAT12 => 0x0FF7,
        FATType::FAT16 => 0xFFF7,
        FATType::FAT32 => 0x0FFFFFF7,
    }
}

impl DirEntry {
    /// Decodes the first 32 bytes of `buf`.
    pub fn from_slice(buf: &[u8]) -> (r: DirEntry)
        requires
            buf@.len() >= DIR_ENTRY_LEN,
        ensures
            entry_decoded_from(r, buf@),
    {
        let r = DirEntry {
            name: [buf[0], buf[1], buf[2], buf[3], buf[4], buf[5], buf[6], buf[7], buf[8], buf[9], buf[10]],
            attr: buf[11],
            n_t_res: buf[12],
            crt_time_tenth: buf[13],
            crt_time: u16_at(buf, 14),
            crt_date: u16_at(buf, 16),
            lst_acc_date: u16_at(buf, 18),
            fst_clus_hi: u16_at(buf, 20),
            wrt_time: u16_at(buf, 22),
            wrt_date: u16_at(buf, 24),
            fst_clus_lo: u16_at(buf, 26),
            file_size: u32_at(buf, 28),
        };
        assert(r.name@ =~= buf@.subrange(0, 11));
        r
    }

    /// The 11-byte 8.3 form of a base name and an extension: upper case,
    /// space-padded to 8 and 3 bytes; `None` when the base is longer than 8
    /// bytes.
    pub fn to_8_3_name(name: &[u8], ext: &[u8]) -> (r: Option<Vec<u8>>)
        ensures
            r matches Some(v) ==> short_name_of(name@, ext@) == Some(v@),
            r is None <==> short_name_of(name@, ext@) is None,
    {
        if name.len() > 8 {
            return None;
        }
        let mut out: Vec<u8> = Vec::new();
        let mut i: usize = 0;
        while i < 8
            invariant
                i <= 8,
                name@.len() <= 8,
                out@ =~= padded_upper(name@, 8).take(i as int),
            decreases 8 - i,
        {
            let b = if i < name.len() {
                let c = name[i];
                if 97 <= c && c <= 122 {
                    c - 32
                } else {
                    c
                }
            } else {
                32u8
            };
            out.push(b);
            i = i + 1;
        }
        let n = if ext.len() > 3 {
            ext.len()
        } else {
            3
        };
        let mut j: usize = 0;
        while j < n
            invariant
                j <= n,
                n == padded_upper(ext@, 3).len(),
                out@ =~= padded_upper(name@, 8) + padded_upper(ext@, 3).take(j as int),
            decreases n - j,
        {
            let b = if j < ext.len() {
                let c = ext[j];
                if 97 <= c && c <= 122 {
                    c - 32
                } else {
                    c
                }
            } else {
                32u8
            };
            out.push(b);
            j = j + 1;
        }
        assert(padded_upper(ext@, 3).take(n as int) =~= padded_upper(ext@, 3));
        Some(out)
    }

    /// Whether the query name (`NAME.EXT`, any case) names this entry. The
    /// query is split on `.`: the base must hold at most 8 bytes and the
    /// extension at most 3.
    pub fn same_short_name(&self, name: &str) -> (r: bool)
        ensures
            r == matches_short_name(self.name@, name.spec_bytes()),
    {
        self.same_short_name_bytes(name.as_bytes())
    }

    /// [`DirEntry::same_short_name`] on the bytes of the query name.
    pub fn same_short_name_bytes(&self, q: &[u8]) -> (r: bool)
        ensures
            r == matches_short_name(self.name@, q@),
    {
        let d = find_byte(q, 0, 46);
        assert(q@.skip(0) =~= q@);
        let base = vstd::slice::slice_subrange(q, 0, d);
        let ext = if d < q.len() {
            let e = find_byte(q, d + 1, 46);
            vstd::slice::slice_subrange(q, d + 1, e)
        } else {
            vstd::slice::slice_subrange(q, d, d)
        };
        proof {
            if d < q@.len() {
                let rest = q@.skip(d + 1);
                assert(ext@ =~= rest.take(dot_index(rest) as int));
            } else {
                assert(ext@ =~= Seq::<u8>::empty());
            }
            assert(base@ =~= query_base(q@));
            assert(ext@ == query_ext(q@));
        }
        match DirEntry::to_8_3_name(base, ext) {
            None => false,
            Some(v) => {
                if v.len() != 11 {
                    assert(self.name@.len() == 11);
                    assert(v@ != self.name@);
                    return false;
                }
                let mut k: usize = 0;
                while k < 11
                    invariant
                        k <= 11,
                        v@.len() == 11,
                        matches_short_name(self.name@, q@) == (v@ == self.name@),
                        forall|m: int| 0 <= m < k ==> v@[m] == self.name@[m],
                    decreases 11 - k,
                {
                    if v[k] != self.name[k] {
                        assert(v@[k as int] != self.name@[k as int]);
                        return false;
                    }
                    k = k + 1;
                }
                assert(v@ =~= self.name@);
                true
            },
        }
    }

    /// The name for display: `BASE.EXT` with trailing blanks removed, or the
    /// upper-case base alone when there is no extension.
    pub fn fmt_name(&self) -> (r: Vec<u8>)
        ensures
            r@ == display_name(self.name@),
    {
        let n = &self.name;
        let mut be: usize = 8;
        while be > 0 && (n[be - 1] == 32 || (9 <= n[be - 1] && n[be - 1] <= 13))
            invariant
                be <= 8,
                n@.len() == 11,
                trim_end(n@.subrange(0, 8)) == trim_end(n@.subrange(0, be as int)),
            decreases be,
        {
            assert(n@.subrange(0, be as int).drop_last() =~= n@.subrange(0, be - 1));
            be = be - 1;
        }
        assert(trim_end(n@.subrange(0, be as int)) == n@.subrange(0, be as int));
        let mut ee: usize = 11;
        while ee > 8 && (n[ee - 1] == 32 || (9 <= n[ee - 1] && n[ee - 1] <= 13))
            invariant
                8 <= ee <= 11,
                n@.len() == 11,
                trim_end(n@.subrange(8, 11)) == trim_end(n@.subrange(8, ee as int)),
            decreases ee,
        {
            assert(n@.subrange(8, ee as int).drop_last() =~= n@.subrange(8, ee - 1));
            ee = ee - 1;
        }
        assert(trim_end(n@.subrange(8, ee as int)) == n@.subrange(8, ee as int));
        let ghost base = n@.subrange(0, be as int);
        let ghost ext = n@.subrange(8, ee as int);
        let mut out: Vec<u8> = Vec::new();
        let mut i: usize = 0;
        while i < be
            invariant
                i <= be <= 8,
                n@.len() == 11,
                base == n@.subrange(0, be as int),
                ee == 8 ==> out@ =~= Seq::new(i as nat, |k: int| upper(base[k])),
                ee > 8 ==> out@ =~= base.take(i as int),
            decreases be - i,
        {
            let c = n[i];
            if ee == 8 && 97 <= c && c <= 122 {
                out.push(c - 32);
            } else {
                out.push(c);
            }
            i = i + 1;
        }
        if ee > 8 {
            out.push(46);
            let mut j: usize = 8;
            while j < ee
                invariant
                    8 <= j <= ee <= 11,
                    n@.len() == 11,
                    ext == n@.subrange(8, ee as int),
                    out@ =~= base + seq![46u8] + ext.take(j - 8),
                decreases ee - j,
            {
                out.push(n[j]);
                j = j + 1;
            }
        }
        out
    }

    /// The first cluster: the high half shifted by 16 plus the low half.
    pub fn cluster_number(&self) -> (r: u32)
        ensures
            r == self.fst_clus_hi * 0x10000 + self.fst_clus_lo,
    {
        self.fst_clus_hi as u32 * 0x10000 + self.fst_clus_lo as u32
    }

    /// Whether the directory bit (0x10) is set.
    pub fn is_dir(&self) -> (r: bool)
        ensures
            r == attr_is_dir(self.attr),
    {
        self.attr & ATTR_DIRECTORY == ATTR_DIRECTORY
    }

    /// Whether all of the read-only, hidden, system and volume-id bits are
    /// set: a long-name fragment.
    pub fn is_long_name(&self) -> (r: bool)
        ensures
            r == attr_is_long_name(self.attr),
    {
        self.attr & ATTR_LONG_NAME == ATTR_LONG_NAME
    }

    /// Whether the entry is a directory other than "." and "..".
    pub fn is_regular_dir(&self) -> (r: bool)
        ensures
            r == (attr_is_dir(self.attr) && self.name@ != self_name() && self.name@
                != parent_name()),
    {
        if !self.is_dir() {
            return false;
        }
        let n = &self.name;
        let dot_first = n[0] == 46;
        let mut rest_blank = true;
        let mut k: usize = 2;
        while k < 11
            invariant
                2 <= k <= 11,
                rest_blank == (forall|m: int| 2 <= m < k ==> n@[m] == 32),
            decreases 11 - k,
        {
            if n[k] != 32 {
                rest_blank = false;
            }
            k = k + 1;
        }
        let is_self = dot_first && n[1] == 32 && rest_blank;
        let is_parent = dot_first && n[1] == 46 && rest_blank;
        assert(is_self == (n@ =~= self_name()));
        assert(is_parent == (n@ =~= parent_name()));
        !is_self && !is_parent
    }

    /// Whether `cluster` ends a chain on a FAT of that type.
    pub fn is_eof(cluster: u32, fat_type: FATType) -> (r: bool)
        ensures
            r == spec_is_eof(cluster, fat_type),
    {
        match fat_type {
            FATType::FAT12 => cluster >= 0x0FF8,
            FATType::FAT16 => cluster >= 0xFFF8,
            FATType::FAT32 => cluster >= 0x0FFFFFF8,
        }
    }

    /// The value that marks a bad cluster on a FAT of that type.
    pub fn bad_cluster_marker(fat_type: FATType) -> (r: u32)
        ensures
            r == spec_bad_cluster_marker(fat_type),
    {
        match fat_type {
            FATType::FAT12 => 0x0FF7,
            FATType::FAT16 => 0xFFF7,
            FATType::FAT32 => 0x0FFFFFF7,
        }
    }
}

} // verus!
