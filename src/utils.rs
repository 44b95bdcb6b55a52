//! Little-endian field access and sector-addressed reads and writes over a
//! disk image held in memory.
use vstd::prelude::*;

verus! {

/// The byte at `off`.
pub open spec fn le8(s: Seq<u8>, off: int) -> u8 {
    s[off]
}

/// The little-endian 16-bit value stored at `off`.
pub open spec fn le16(s: Seq<u8>, off: int) -> u16 {
    (s[off] as int + s[off + 1] as int * 0x100) as u16
}

/// The little-endian 32-bit value stored at `off`.
pub open spec fn le32(s: Seq<u8>, off: int) -> u32 {
    (s[off] as int + s[off + 1] as int * 0x100 + s[off + 2] as int * 0x10000 + s[off + 3] as int
        * 0x1000000) as u32
}

/// Extracts the byte at `offset`.
pub fn u8_at(buffer: &[u8], offset: usize) -> (r: u8)
    requires
        offset < buffer@.len(),
    ensures
        r == le8(buffer@, offset as int),
{
    buffer[offset]
}

/// Extracts the little-endian 16-bit value at `offset`.
pub fn u16_at(buffer: &[u8], offset: usize) -> (r: u16)
    requires
        offset + 2 <= buffer@.len(),
    ensures
        r == le16(buffer@, offset as int),
{
    buffer[offset] as u16 + buffer[offset + 1] as u16 * 0x100
}

/// Extracts the little-endian 32-bit value at `offset`.
pub fn u32_at(buffer: &[u8], offset: usize) -> (r: u32)
    requires
        offset + 4 <= buffer@.len(),
    ensures
        r == le32(buffer@, offset as int),
{
    buffer[offset] as u32 + buffer[offset + 1] as u32 * 0x100 + buffer[offset + 2] as u32 * 0x10000
        + buffer[offset + 3] as u32 * 0x1000000
}

/// An access to bytes `[offset, offset + len)` that lies beyond the end of
/// the disk image.
#[derive(Clone, Copy, Debug, PartialEq, Eq, Structural)]
pub struct IoError {
    pub offset: u64,
    pub len: u64,
}

/// Whether the bytes `[offset, offset + len)` lie inside an image of
/// `size` bytes.
pub open spec fn in_image(size: int, offset: int, len: int) -> bool {
    0 <= offset && offset + len <= size
}

/// The image `d` with the bytes at `offset` replaced by `data`.
pub open spec fn overwrite(d: Seq<u8>, offset: int, data: Seq<u8>) -> Seq<u8> {
    d.subrange(0, offset) + data + d.subrange(offset + data.len(), d.len() as int)
}

/// Reads `len` bytes starting at byte `offset` of the image.
pub fn read_at(disk: &[u8], offset: u64, len: usize) -> (r: Result<Vec<u8>, IoError>)
    ensures
        in_image(disk@.len() as int, offset as int, len as int) <==> r is Ok,
        r matches Ok(v) ==> v@ == disk@.subrange(offset as int, offset + len),
        r matches Err(e) ==> e == (IoError { offset, len: len as u64 }),
{
    if offset > disk.len() as u64 || len > disk.len() - offset as usize {
        return Err(IoError { offset, len: len as u64 });
    }
    let start = offset as usize;
    Ok(vstd::slice::slice_to_vec(vstd::slice::slice_subrange(disk, start, start + len)))
}

/// Reads sector `sector` of `sector_size` bytes.
pub fn read_sector(disk: &[u8], sector: u64, sector_size: usize) -> (r: Result<Vec<u8>, IoError>)
    requires
        sector * sector_size <= u64::MAX,
    ensures
        in_image(disk@.len() as int, sector * sector_size, sector_size as int) <==> r is Ok,
        r matches Ok(v) ==> v@ == disk@.subrange(
            sector * sector_size,
            sector * sector_size + sector_size,
        ),
        r matches Err(e) ==> e == (IoError {
            offset: (sector * sector_size) as u64,
            len: sector_size as u64,
        }),
{
    read_at(disk, sector * sector_size as u64, sector_size)
}

/// Overwrites the bytes at `offset` with `data`; the image is left as it was
/// when they do not all lie inside it.
pub fn write_at(disk: &mut Vec<u8>, offset: u64, data: &[u8]) -> (r: Result<(), IoError>)
    ensures
        in_image(old(disk)@.len() as int, offset as int, data@.len() as int) <==> r is Ok,
        r is Ok ==> final(disk)@ == overwrite(old(disk)@, offset as int, data@),
        r is Err ==> final(disk)@ == old(disk)@,
        r matches Err(e) ==> e == (IoError { offset, len: data@.len() as u64 }),
{
    if offset > disk.len() as u64 || data.len() > disk.len() - offset as usize {
        return Err(IoError { offset, len: data.len() as u64 });
    }
    let start = offset as usize;
    let end = start + data.len();
    let mut i: usize = 0;
    while i < data.len()
        invariant
            end == start + data@.len(),
            start + data@.len() <= disk@.len(),
            disk@.len() == old(disk)@.len(),
            0 <= i <= data@.len(),
            forall|k: int| 0 <= k < start ==> disk@[k] == old(disk)@[k],
            forall|k: int| 0 <= k < i ==> disk@[start + k] == data@[k],
            forall|k: int| start + i <= k < disk@.len() ==> disk@[k] == old(disk)@[k],
        decreases data@.len() - i,
    {
        disk[start + i] = data[i];
        i = i + 1;
    }
    assert(disk@ =~= overwrite(old(disk)@, offset as int, data@));
    Ok(())
}

/// Error of [`write_file_at`].
#[derive(Clone, Copy, Debug, PartialEq, Eq, Structural)]
pub enum WriteError {
    /// Writing `len` bytes at `offset` would cross the forbidden `limit`.
    LimitCrossed { offset: u64, len: u64, limit: u64 },
    /// The bytes do not all lie inside the image.
    Io(IoError),
}

/// Writes the contents of a file at byte `offset` of the image. A nonzero
/// `limit` is the byte offset that the written bytes may not pass.
pub fn write_file_at(disk: &mut Vec<u8>, offset: u64, file: &[u8], limit: u64) -> (r: Result<
    (),
    WriteError,
>)
    ensures
        limit > 0 && offset + file@.len() > limit ==> r == Err::<(), WriteError>(
            WriteError::LimitCrossed { offset, len: file@.len() as u64, limit },
        ),
        !(limit > 0 && offset + file@.len() > limit) ==> {
            &&& in_image(old(disk)@.len() as int, offset as int, file@.len() as int) <==> r is Ok
            &&& r matches Err(e) ==> e == WriteError::Io(
                IoError { offset, len: file@.len() as u64 },
            )
        },
        r is Ok ==> final(disk)@ == overwrite(old(disk)@, offset as int, file@),
        r is Err ==> final(disk)@ == old(disk)@,
{
    if limit > 0 && (file.len() as u64 > limit || offset > limit - file.len() as u64) {
        return Err(WriteError::LimitCrossed { offset, len: file.len() as u64, limit });
    }
    match write_at(disk, offset, file) {
        Ok(()) => Ok(()),
        Err(e) => Err(WriteError::Io(e)),
    }
}

/// Index of the first byte `b` in `s`, or the length of `s` when there is
/// none.
pub open spec fn index_of(s: Seq<u8>, b: u8) -> nat
    decreases s.len(),
{
    if s.len() == 0 {
        0
    } else if index_of(s.drop_last(), b) < s.len() - 1 {
        index_of(s.drop_last(), b)
    } else if s.last() == b {
        (s.len() - 1) as nat
    } else {
        s.len()
    }
}

/// Index of the first byte `b` of `q` at or after `from`, or the length of
/// `q` when there is none.
pub fn find_byte(q: &[u8], from: usize, b: u8) -> (r: usize)
    requires
        from <= q@.len(),
    ensures
        r == from + index_of(q@.skip(from as int), b),
{
    let mut i = from;
    while i < q.len() && q[i] != b
        invariant
            from <= i <= q@.len(),
            index_of(q@.skip(from as int).take((i - from) as int), b) == i - from,
        decreases q@.len() - i,
    {
        proof {
            let t = q@.skip(from as int).take((i + 1 - from) as int);
            assert(t.drop_last() =~= q@.skip(from as int).take((i - from) as int));
        }
        i = i + 1;
    }
    proof {
        let s = q@.skip(from as int);
        lemma_index_of_prefix(s, (i - from) as int, b);
    }
    i
}

/// A prefix of `s` that holds no `b` gives the first `b` of `s` when the
/// next byte is `b` or when the prefix is the whole.
proof fn lemma_index_of_prefix(s: Seq<u8>, k: int, b: u8)
    requires
        0 <= k <= s.len(),
        index_of(s.take(k), b) == k,
        k == s.len() || s[k] == b,
    ensures
        index_of(s, b) == k,
{
    if k == s.len() {
        assert(s.take(k) =~= s);
    } else {
        lemma_index_of_extend(s, k, b);
    }
}

proof fn lemma_index_of_extend(s: Seq<u8>, k: int, b: u8)
    requires
        0 <= k < s.len(),
        index_of(s.take(k), b) == k,
        s[k] == b,
    ensures
        index_of(s, b) == k,
    decreases s.len(),
{
    if k + 1 == s.len() {
        assert(s.drop_last() =~= s.take(k));
    } else {
        assert(s.drop_last().take(k) =~= s.take(k));
        lemma_index_of_extend(s.drop_last(), k, b);
    }
}

/// The first `b` of `s` lies within `s`.
pub proof fn lemma_index_of_bound(s: Seq<u8>, b: u8)
    ensures
        index_of(s, b) <= s.len(),
        index_of(s, b) < s.len() ==> s[index_of(s, b) as int] == b,
    decreases s.len(),
{
    if s.len() > 0 {
        lemma_index_of_bound(s.drop_last(), b);
    }
}

} // verus!
