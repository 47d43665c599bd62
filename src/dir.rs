use vstd::prelude::*;

use crate::bytes::{le16, le32, read_u16_le, read_u32_le};
use crate::cluster::{Cluster, CLUSTER_MASK};
use crate::metadata::{first_cluster_of, has_attr, metadata_holds, Metadata, ATTR_DIRECTORY, ATTR_LFN};
use crate::device::BlockDevice;
use crate::error::Error;
use crate::text::{bytes_eq_ignore_ascii_case, eq_ignore_ascii_case, text_from_utf16, text_from_utf8, utf16_lossy, utf8_lossy};
use crate::vfat::VFat;
use vstd::string::StringSliceAdditionalSpecFns;
use vstd::utf8::encode_utf8;

verus! {

/// Size in bytes of one directory record.
pub const RECORD_SIZE: usize = 32;

/// Bytes of name held by one long-file-name record: 13 UTF-16 code units.
pub const LFN_CHUNK: usize = 26;

/// First byte of a record that ends the directory.
pub const END_OF_DIR: u8 = 0x00;

/// First byte of a deleted record.
pub const DELETED: u8 = 0xE5;

/// A directory of the volume.
#[derive(Debug)]
pub struct Dir {
    pub first_cluster: Cluster,
    pub meta: Metadata,
    pub short_file_name: String,
    pub lfn: String,
}

/// A regular file of the volume, with a read position.
#[derive(Debug)]
pub struct File {
    pub first_cluster: Cluster,
    pub meta: Metadata,
    pub size: usize,
    pub short_file_name: String,
    pub lfn: String,
    pub bytes_per_cluster: usize,
    /// Position in bytes from the start of the file.
    pub current_offset: usize,
    /// The cluster that holds `current_offset`.
    pub current_cluster: Cluster,
}

/// A directory entry: a file or a directory.
#[derive(Debug)]
pub enum Entry {
    File(File),
    Dir(Dir),
}

/// A regular directory record, decoded field by field.
#[derive(Copy, Clone, Debug)]
pub struct VFatRegularDirEntry {
    pub file_name: [u8; 8],
    pub file_extension: [u8; 3],
    pub meta: Metadata,
    pub size_file: u32,
}

/// A long-file-name record, decoded field by field.
#[derive(Copy, Clone, Debug)]
pub struct VFatLfnDirEntry {
    pub sequence_num: u8,
    pub name_chars_0: [u8; 10],
    pub attrib: u8,
    pub entry_type: u8,
    pub checksum_dos_file_name: u8,
    pub name_chars_1: [u8; 12],
    pub signature: u16,
    pub name_chars_2: [u8; 4],
}

/// The part of a directory record shared by all kinds: the first byte and the
/// attribute byte, which tell the kinds apart.
#[derive(Copy, Clone, Debug)]
pub struct VFatUnknownDirEntry {
    pub first_byte: u8,
    pub attrib: u8,
}

/// Byte `j` (below 26) of the name held by the long-file-name record at
/// `at`: 10 bytes from offset 1, 12 from offset 14 and 4 from offset 28.
pub open spec fn lfn_name_byte(data: Seq<u8>, at: int, j: int) -> u8 {
    if j < 10 {
        data[at + 1 + j]
    } else if j < 22 {
        data[at + 14 + (j - 10)]
    } else {
        data[at + 28 + (j - 22)]
    }
}

/// `e` holds the fields of the long-file-name record at `at` of `data`.
pub open spec fn lfn_entry_holds(e: VFatLfnDirEntry, data: Seq<u8>, at: int) -> bool {
    &&& e.sequence_num == data[at]
    &&& e.name_chars_0@ == data.subrange(at + 1, at + 11)
    &&& e.attrib == data[at + 11]
    &&& e.entry_type == data[at + 12]
    &&& e.checksum_dos_file_name == data[at + 13]
    &&& e.name_chars_1@ == data.subrange(at + 14, at + 26)
    &&& e.signature == le16(data, at + 26)
    &&& e.name_chars_2@ == data.subrange(at + 28, at + 32)
}

/// `e` holds the fields of the regular record at `at` of `data`.
pub open spec fn regular_entry_holds(e: VFatRegularDirEntry, data: Seq<u8>, at: int) -> bool {
    &&& e.file_name@ == data.subrange(at, at + 8)
    &&& e.file_extension@ == data.subrange(at + 8, at + 11)
    &&& metadata_holds(e.meta, data, at + 11)
    &&& e.size_file == le32(data, at + 28)
}

/// A directory record, told apart by its first byte and attribute byte.
#[derive(Copy, Clone, Debug)]
pub enum VFatDirEntry {
    /// A record that ends the directory (first byte 0x00) or was deleted (0xE5).
    Unknown(VFatUnknownDirEntry),
    /// A regular record of a file or directory.
    Regular(VFatRegularDirEntry),
    /// A part of a long file name.
    LongFileName(VFatLfnDirEntry),
}

fn copy_array<const N: usize>(data: &[u8], at: usize) -> (r: [u8; N])
    requires
        at + N <= data@.len(),
    ensures
        r@ == data@.subrange(at as int, at + N),
{
    let data_len = data.len();
    let mut r = [0u8; N];
    let mut i: usize = 0;
    while i < N
        invariant
            at + N <= data@.len(),
            data_len == data@.len(),
            i <= N,
            r@.len() == N,
            forall|j: int| 0 <= j < i ==> #[trigger] r@[j] == data@[at + j],
        decreases N - i,
    {
        r[i] = data[at + i];
        i += 1;
    }
    assert(r@ =~= data@.subrange(at as int, at + N));
    r
}

impl VFatDirEntry {
    /// Decodes the record at `at` of `data`, looking at its first byte and
    /// then at its attribute byte.
    pub fn decode(data: &[u8], at: usize) -> (r: VFatDirEntry)
        requires
            at + RECORD_SIZE <= data@.len(),
        ensures
            match r {
                VFatDirEntry::Unknown(u) => {
                    &&& (data@[at as int] == END_OF_DIR || data@[at as int] == DELETED)
                    &&& u.first_byte == data@[at as int]
                    &&& u.attrib == data@[at + 11]
                },
                VFatDirEntry::LongFileName(l) => {
                    &&& data@[at as int] != END_OF_DIR && data@[at as int] != DELETED
                    &&& data@[at + 11] == ATTR_LFN
                    &&& lfn_entry_holds(l, data@, at as int)
                },
                VFatDirEntry::Regular(e) => {
                    &&& data@[at as int] != END_OF_DIR && data@[at as int] != DELETED
                    &&& data@[at + 11] != ATTR_LFN
                    &&& regular_entry_holds(e, data@, at as int)
                },
            },
    {
        let unknown = VFatUnknownDirEntry { first_byte: data[at], attrib: data[at + 11] };
        if unknown.first_byte == END_OF_DIR || unknown.first_byte == DELETED {
            VFatDirEntry::Unknown(unknown)
        } else if unknown.attrib == ATTR_LFN {
            VFatDirEntry::LongFileName(
                VFatLfnDirEntry {
                    sequence_num: data[at],
                    name_chars_0: copy_array::<10>(data, at + 1),
                    attrib: data[at + 11],
                    entry_type: data[at + 12],
                    checksum_dos_file_name: data[at + 13],
                    name_chars_1: copy_array::<12>(data, at + 14),
                    signature: read_u16_le(data, at + 26),
                    name_chars_2: copy_array::<4>(data, at + 28),
                },
            )
        } else {
            VFatDirEntry::Regular(
                VFatRegularDirEntry {
                    file_name: copy_array::<8>(data, at),
                    file_extension: copy_array::<3>(data, at + 8),
                    meta: Metadata::parse(data, at + 11),
                    size_file: read_u32_le(data, at + 28),
                },
            )
        }
    }
}

/// The sequence number of the long-file-name record at `at`: its low 5 bits.
pub open spec fn lfn_seq(data: Seq<u8>, at: int) -> int {
    (data[at] & 0x1F) as int
}

/// The name buffer `buf` after the long-file-name record at `at` is placed at
/// byte `(seq - 1) * 26`, the buffer growing with zeros as needed.
pub open spec fn lfn_apply(buf: Seq<u8>, data: Seq<u8>, at: int) -> Seq<u8> {
    let seq = lfn_seq(data, at);
    if seq == 0 {
        buf
    } else {
        let start = (seq - 1) * LFN_CHUNK;
        let len = if seq * LFN_CHUNK > buf.len() {
            seq * LFN_CHUNK
        } else {
            buf.len() as int
        };
        Seq::new(
            len as nat,
            |i: int|
                if start <= i < start + LFN_CHUNK {
                    lfn_name_byte(data, at, i - start)
                } else if i < buf.len() {
                    buf[i]
                } else {
                    0
                },
        )
    }
}

/// Scans the records of `data` from record `idx`, with long-name bytes `lfn`
/// gathered so far. Gives the index of the next regular record with the
/// long-name bytes that precede it, or `None` at the end of the directory;
/// and the record index from which the next scan starts.
pub open spec fn scan(data: Seq<u8>, idx: nat, lfn: Seq<u8>) -> (Option<(nat, Seq<u8>)>, nat)
    decreases data.len() - RECORD_SIZE * idx,
{
    let at = RECORD_SIZE * idx;
    if at + RECORD_SIZE > data.len() {
        (None, idx)
    } else if data[at] == END_OF_DIR {
        (None, idx)
    } else if data[at] == DELETED {
        scan(data, idx + 1, lfn)
    } else if data[at + 11] == ATTR_LFN {
        scan(data, idx + 1, lfn_apply(lfn, data, at))
    } else {
        (Some((idx, lfn)), idx + 1)
    }
}

/// `s` without its trailing spaces.
pub open spec fn trim_spaces(s: Seq<u8>) -> Seq<u8>
    decreases s.len(),
{
    if s.len() > 0 && s.last() == 0x20 {
        trim_spaces(s.drop_last())
    } else {
        s
    }
}

/// The 8.3 name of the record at `at`: name and extension without trailing
/// spaces, joined by a dot when the extension is not empty.
pub open spec fn short_name_bytes(data: Seq<u8>, at: int) -> Seq<u8> {
    let n = trim_spaces(data.subrange(at, at + 8));
    let e = trim_spaces(data.subrange(at + 8, at + 11));
    if e.len() > 0 {
        n + seq![0x2Eu8] + e
    } else {
        n
    }
}

/// The little-endian UTF-16 code units of `b`.
pub open spec fn units_of(b: Seq<u8>) -> Seq<u16> {
    Seq::new(b.len() / 2, |i: int| (b[2 * i] + 256 * b[2 * i + 1]) as u16)
}

/// A code unit that ends a long name: 0x0000 or 0xFFFF.
pub open spec fn is_terminator(u: u16) -> bool {
    u == 0 || u == 0xFFFF
}

/// The code units of `u` before the first terminator, or all of them.
pub open spec fn until_terminator(u: Seq<u16>) -> Seq<u16>
    decreases u.len(),
{
    if u.len() == 0 {
        u
    } else if is_terminator(u[0]) {
        Seq::empty()
    } else {
        seq![u[0]] + until_terminator(u.drop_first())
    }
}

/// The code units of the long name held by name buffer `lfn`.
pub open spec fn lfn_units(lfn: Seq<u8>) -> Seq<u16> {
    until_terminator(units_of(lfn))
}

/// Entry `e` is the one decoded from the regular record at index `k` of
/// `data`, preceded by long-name bytes `lfn`, in a volume with clusters of
/// `bpc` bytes.
pub open spec fn entry_holds(e: Entry, data: Seq<u8>, k: nat, lfn: Seq<u8>, bpc: usize) -> bool {
    let at = RECORD_SIZE * k;
    let is_dir = has_attr(data[at + 11], ATTR_DIRECTORY);
    match e {
        Entry::Dir(d) => {
            &&& is_dir
            &&& d.short_file_name@ == utf8_lossy(short_name_bytes(data, at))
            &&& d.lfn@ == utf16_lossy(lfn_units(lfn))
            &&& (lfn.len() == 0 ==> d.lfn@.len() == 0)
            &&& metadata_holds(d.meta, data, at + 11)
            &&& d.first_cluster.0 == (first_cluster_of(d.meta) as u32) & CLUSTER_MASK
        },
        Entry::File(f) => {
            &&& !is_dir
            &&& f.short_file_name@ == utf8_lossy(short_name_bytes(data, at))
            &&& f.lfn@ == utf16_lossy(lfn_units(lfn))
            &&& (lfn.len() == 0 ==> f.lfn@.len() == 0)
            &&& metadata_holds(f.meta, data, at + 11)
            &&& f.first_cluster.0 == (first_cluster_of(f.meta) as u32) & CLUSTER_MASK
            &&& f.size == le32(data, at + 28)
            &&& f.bytes_per_cluster == bpc
            &&& f.current_offset == 0
            &&& f.current_cluster == f.first_cluster
        },
    }
}

proof fn lemma_trim_stop(s: Seq<u8>, n: int)
    requires
        0 <= n <= s.len(),
        forall|i: int| n <= i < s.len() ==> s[i] == 0x20,
    ensures
        trim_spaces(s) == trim_spaces(s.subrange(0, n)),
    decreases s.len() - n,
{
    if n < s.len() {
        assert(s.last() == 0x20);
        assert(trim_spaces(s) == trim_spaces(s.drop_last()));
        assert forall|i: int| n <= i < s.drop_last().len() implies s.drop_last()[i] == 0x20 by {
            assert(s.drop_last()[i] == s[i]);
        }
        lemma_trim_stop(s.drop_last(), n);
        assert(s.drop_last().subrange(0, n) =~= s.subrange(0, n));
    } else {
        assert(s.subrange(0, n) =~= s);
    }
}

/// Copies `data[from..from + len]` without its trailing spaces.
fn trimmed(data: &[u8], from: usize, len: usize) -> (r: Vec<u8>)
    requires
        from + len <= data@.len(),
    ensures
        r@ == trim_spaces(data@.subrange(from as int, from + len)),
{
    let ghost s = data@.subrange(from as int, from + len);
    let data_len = data.len();
    let mut n: usize = len;
    while n > 0 && data[from + n - 1] == 0x20
        invariant
            n <= len,
            from + len <= data@.len(),
            data_len == data@.len(),
            s == data@.subrange(from as int, from + len),
            forall|i: int| n <= i < len ==> s[i] == 0x20,
        decreases n,
    {
        n -= 1;
    }
    proof {
        lemma_trim_stop(s, n as int);
        assert(s.subrange(0, n as int) =~= data@.subrange(from as int, from + n));
    }
    let mut r: Vec<u8> = Vec::new();
    let mut i: usize = 0;
    while i < n
        invariant
            i <= n <= len,
            from + len <= data@.len(),
            data_len == data@.len(),
            r@ == data@.subrange(from as int, from + i),
        decreases n - i,
    {
        r.push(data[from + i]);
        i += 1;
        proof {
            assert(r@ =~= data@.subrange(from as int, from + i));
        }
    }
    r
}

/// The 8.3 name of the record at `at`, as bytes.
fn short_name(data: &[u8], at: usize) -> (r: Vec<u8>)
    requires
        at + RECORD_SIZE <= data@.len(),
    ensures
        r@ == short_name_bytes(data@, at as int),
{
    let data_len = data.len();
    let mut name = trimmed(data, at, 8);
    let ext = trimmed(data, at + 8, 3);
    if ext.len() > 0 {
        let ghost n0 = name@;
        name.push(0x2E);
        name.extend_from_slice(ext.as_slice());
        proof {
            assert(name@ =~= n0 + seq![0x2Eu8] + ext@);
        }
    }
    name
}

proof fn lemma_until_terminator_prefix(u: Seq<u16>, i: int)
    requires
        0 <= i <= u.len(),
        forall|j: int| 0 <= j < i ==> !is_terminator(#[trigger] u[j]),
    ensures
        until_terminator(u) == u.subrange(0, i) + until_terminator(u.subrange(i, u.len() as int)),
    decreases i,
{
    if i > 0 {
        let t = u.drop_first();
        assert forall|j: int| 0 <= j < i - 1 implies !is_terminator(#[trigger] t[j]) by {
            assert(t[j] == u[j + 1]);
        }
        lemma_until_terminator_prefix(t, i - 1);
        assert(t.subrange(i - 1, t.len() as int) =~= u.subrange(i, u.len() as int));
        assert(seq![u[0]] + t.subrange(0, i - 1) =~= u.subrange(0, i));
    } else {
        assert(u.subrange(0, 0) + u =~= u);
        assert(u.subrange(0, u.len() as int) =~= u);
    }
}

/// The code units of the long name in `buf`, up to the first terminator.
fn long_name_units(buf: &Vec<u8>) -> (r: Vec<u16>)
    ensures
        r@ == lfn_units(buf@),
{
    let ghost u = units_of(buf@);
    let buf_len = buf.len();
    let n = buf_len / 2;
    let mut r: Vec<u16> = Vec::new();
    let mut i: usize = 0;
    while i < n
        invariant
            n == buf@.len() / 2,
            buf_len == buf@.len(),
            u == units_of(buf@),
            i <= n,
            r@ == u.subrange(0, i as int),
            forall|j: int| 0 <= j < i ==> !is_terminator(#[trigger] u[j]),
        decreases n - i,
    {
        assert(2 * i + 1 < buf_len);
        let unit: u16 = (buf[2 * i] as u16) + 256 * (buf[2 * i + 1] as u16);
        assert(unit == u[i as int]);
        if unit == 0 || unit == 0xFFFF {
            proof {
                lemma_until_terminator_prefix(u, i as int);
                let rest = u.subrange(i as int, u.len() as int);
                assert(rest[0] == unit);
            }
            assert(u.subrange(0, i as int) + Seq::<u16>::empty() =~= u.subrange(0, i as int));
            return r;
        }
        r.push(unit);
        i += 1;
        proof {
            assert(r@ =~= u.subrange(0, i as int));
        }
    }
    proof {
        lemma_until_terminator_prefix(u, n as int);
        assert(u.subrange(n as int, n as int).len() == 0);
        assert(u.subrange(0, n as int) + Seq::<u16>::empty() =~= u.subrange(0, n as int));
    }
    r
}

/// Places the long-file-name record at `at` into the name buffer `buf`.
fn apply_lfn_record(buf: &mut Vec<u8>, lfn: &VFatLfnDirEntry, data: &[u8], at: usize)
    requires
        at + RECORD_SIZE <= data@.len(),
        lfn_entry_holds(*lfn, data@, at as int),
        old(buf)@.len() % (LFN_CHUNK as nat) == 0,
        old(buf)@.len() <= 31 * LFN_CHUNK,
    ensures
        final(buf)@ == lfn_apply(old(buf)@, data@, at as int),
        final(buf)@.len() % (LFN_CHUNK as nat) == 0,
        final(buf)@.len() <= 31 * LFN_CHUNK,
{
    let data_len = data.len();
    let first = lfn.sequence_num;
    assert(first & 0x1F <= 31) by (bit_vector);
    let seq = (first & 0x1F) as usize;
    if seq == 0 {
        return;
    }
    let start = (seq - 1) * LFN_CHUNK;
    let end = seq * LFN_CHUNK;
    let ghost b0 = buf@;
    while buf.len() < end
        invariant
            b0.len() <= buf@.len() <= end || buf@.len() == b0.len(),
            forall|i: int| 0 <= i < b0.len() ==> #[trigger] buf@[i] == b0[i],
            forall|i: int| b0.len() <= i < buf@.len() ==> #[trigger] buf@[i] == 0,
            buf@.len() >= b0.len(),
        decreases end - buf@.len(),
    {
        buf.push(0);
    }
    let mut j: usize = 0;
    while j < LFN_CHUNK
        invariant
            at + RECORD_SIZE <= data@.len(),
            data_len == data@.len(),
            lfn_entry_holds(*lfn, data@, at as int),
            start == (seq - 1) * LFN_CHUNK,
            end == start + LFN_CHUNK,
            1 <= seq <= 31,
            buf@.len() >= end,
            buf@.len() == if end > b0.len() { end as int } else { b0.len() as int },
            j <= LFN_CHUNK,
            forall|i: int| 0 <= i < buf@.len() ==> #[trigger] buf@[i] == if start <= i < start + j {
                lfn_name_byte(data@, at as int, i - start)
            } else if i < b0.len() {
                b0[i]
            } else {
                0
            },
        decreases LFN_CHUNK - j,
    {
        let v = if j < 10 {
            assert(lfn.name_chars_0@[j as int] == data@[at + 1 + j]);
            lfn.name_chars_0[j]
        } else if j < 22 {
            assert(lfn.name_chars_1@[j - 10] == data@[at + 14 + (j - 10)]);
            lfn.name_chars_1[j - 10]
        } else {
            assert(lfn.name_chars_2@[j - 22] == data@[at + 28 + (j - 22)]);
            lfn.name_chars_2[j - 22]
        };
        buf.set(start + j, v);
        j += 1;
    }
    proof {
        assert(buf@ =~= lfn_apply(b0, data@, at as int));
    }
}

/// Iterates over the entries of a directory, whose records are held in memory.
pub struct VFatEntryIterator {
    pub idx: usize,
    pub data: Vec<u8>,
    pub bytes_per_cluster: usize,
}

impl VFatEntryIterator {
    /// Returns the next entry of the directory: long-file-name records are
    /// gathered into the name of the regular record that follows them,
    /// deleted records are skipped, and a record starting with 0x00 ends the
    /// directory.
    pub fn next(&mut self) -> (r: Option<Entry>)
        ensures
            final(self).data@ == old(self).data@,
            final(self).bytes_per_cluster == old(self).bytes_per_cluster,
            ({
                let (found, next_idx) = scan(old(self).data@, old(self).idx as nat, Seq::empty());
                &&& final(self).idx == next_idx
                &&& match (r, found) {
                    (None, None) => true,
                    (Some(e), Some((k, lfn))) => entry_holds(e, old(self).data@, k, lfn, old(self).bytes_per_cluster),
                    _ => false,
                }
            }),
    {
        let mut lfn_buf: Vec<u8> = Vec::new();
        let ghost data = self.data@;
        let ghost start_idx = self.idx as nat;
        loop
            invariant
                self.data@ == data,
                self.bytes_per_cluster == old(self).bytes_per_cluster,
                data == old(self).data@,
                start_idx == old(self).idx,
                lfn_buf@.len() % (LFN_CHUNK as nat) == 0,
                lfn_buf@.len() <= 31 * LFN_CHUNK,
                scan(data, start_idx, Seq::empty()) == scan(data, self.idx as nat, lfn_buf@),
            decreases data.len() - RECORD_SIZE * self.idx,
        {
            if self.idx >= self.data.len() / RECORD_SIZE {
                return None;
            }
            let offset = self.idx * RECORD_SIZE;
            let record = VFatDirEntry::decode(self.data.as_slice(), offset);
            let regular = match record {
                VFatDirEntry::Unknown(u) => {
                    if u.first_byte == END_OF_DIR {
                        return None;
                    }
                    self.idx += 1;
                    continue;
                },
                VFatDirEntry::LongFileName(l) => {
                    self.idx += 1;
                    apply_lfn_record(&mut lfn_buf, &l, self.data.as_slice(), offset);
                    continue;
                },
                VFatDirEntry::Regular(e) => e,
            };
            self.idx += 1;
            let short = short_name(self.data.as_slice(), offset);
            let short_file_name = text_from_utf8(short.as_slice());
            let units = long_name_units(&lfn_buf);
            let lfn = text_from_utf16(units.as_slice());
            proof {
                if lfn_buf@.len() == 0 {
                    assert(units_of(lfn_buf@) =~= Seq::<u16>::empty());
                    reveal_with_fuel(utf16_lossy, 1);
                }
            }
            let meta = regular.meta;
            let first_cluster = Cluster::from(meta.first_cluster_num());
            if meta.is_directory() {
                return Some(Entry::Dir(Dir { first_cluster, meta, short_file_name, lfn }));
            } else {
                let size = regular.size_file as usize;
                return Some(
                    Entry::File(
                        File {
                            first_cluster,
                            meta,
                            size,
                            short_file_name,
                            lfn,
                            bytes_per_cluster: self.bytes_per_cluster,
                            current_offset: 0,
                            current_cluster: first_cluster,
                        },
                    ),
                );
            }
        }
    }
}

/// A step of `scan` that finds a record finds it at or after `idx`, within
/// `data`, and resumes right after it.
pub proof fn lemma_scan_found(data: Seq<u8>, idx: nat, lfn: Seq<u8>)
    ensures
        scan(data, idx, lfn).0 matches Some((k, _)) ==> {
            &&& idx <= k
            &&& scan(data, idx, lfn).1 == k + 1
            &&& RECORD_SIZE * k + RECORD_SIZE <= data.len()
        },
    decreases data.len() - RECORD_SIZE * idx,
{
    let at = RECORD_SIZE * idx;
    if at + RECORD_SIZE > data.len() {
    } else if data[at] == END_OF_DIR {
    } else if data[at] == DELETED {
        lemma_scan_found(data, idx + 1, lfn);
    } else if data[at + 11] == ATTR_LFN {
        lemma_scan_found(data, idx + 1, lfn_apply(lfn, data, at));
    }
}

/// The regular records of a directory, each with the long-name bytes that
/// precede it, from record `idx` on, taking at most `fuel` of them.
pub open spec fn listing_from(data: Seq<u8>, idx: nat, fuel: nat) -> Seq<(nat, Seq<u8>)>
    decreases fuel,
{
    if fuel == 0 {
        Seq::empty()
    } else {
        match scan(data, idx, Seq::empty()).0 {
            None => Seq::empty(),
            Some(x) => seq![x] + listing_from(data, scan(data, idx, Seq::empty()).1, (fuel - 1) as nat),
        }
    }
}

/// The entries of the directory whose records are `data`, in order: each
/// regular record with the long-name bytes that precede it.
pub open spec fn listing(data: Seq<u8>) -> Seq<(nat, Seq<u8>)> {
    listing_from(data, 0, data.len() / RECORD_SIZE as nat + 1)
}

/// The entry decoded from `x` in `data` is named `q`, ignoring ASCII case,
/// by its 8.3 name or by its long name.
pub open spec fn name_matches(data: Seq<u8>, x: (nat, Seq<u8>), q: Seq<u8>) -> bool {
    eq_ignore_ascii_case(encode_utf8(utf8_lossy(short_name_bytes(data, RECORD_SIZE * x.0))), q)
        || eq_ignore_ascii_case(encode_utf8(utf16_lossy(lfn_units(x.1))), q)
}

/// Entry `i` of the listing of `data` is the first one named `q`.
pub open spec fn first_match(data: Seq<u8>, i: int, q: Seq<u8>) -> bool {
    &&& 0 <= i < listing(data).len()
    &&& name_matches(data, listing(data)[i], q)
    &&& forall|j: int| 0 <= j < i ==> !name_matches(data, #[trigger] listing(data)[j], q)
}

/// No entry of the listing of `data` is named `q`.
pub open spec fn no_match(data: Seq<u8>, q: Seq<u8>) -> bool {
    forall|j: int| 0 <= j < listing(data).len() ==> !name_matches(data, #[trigger] listing(data)[j], q)
}

/// Entry `e` is decoded from entry `i` of the listing of `data`.
pub open spec fn listed_entry(e: Entry, data: Seq<u8>, i: int, bpc: usize) -> bool {
    &&& 0 <= i < listing(data).len()
    &&& entry_holds(e, data, listing(data)[i].0, listing(data)[i].1, bpc)
}

/// Whether `e` is named `q` by its 8.3 name or its long name, ignoring ASCII case.
fn entry_named(e: &Entry, q: &[u8]) -> (r: bool)
    ensures
        r == match e {
            Entry::File(f) => eq_ignore_ascii_case(encode_utf8(f.short_file_name@), q@)
                || eq_ignore_ascii_case(encode_utf8(f.lfn@), q@),
            Entry::Dir(d) => eq_ignore_ascii_case(encode_utf8(d.short_file_name@), q@)
                || eq_ignore_ascii_case(encode_utf8(d.lfn@), q@),
        },
{
    let (short, long) = match e {
        Entry::File(f) => (&f.short_file_name, &f.lfn),
        Entry::Dir(d) => (&d.short_file_name, &d.lfn),
    };
    bytes_eq_ignore_ascii_case(short.as_str().as_bytes(), q)
        || bytes_eq_ignore_ascii_case(long.as_str().as_bytes(), q)
}

impl Dir {
    /// The root directory of `fs`.
    pub fn new_dir<D: BlockDevice>(fs: &VFat<D>) -> (r: Dir)
        ensures
            r.first_cluster == fs.root_dir_cluster,
            r.meta == Metadata::zero(),
            r.short_file_name@.len() == 0,
            r.lfn@.len() == 0,
    {
        Dir {
            first_cluster: fs.root_dir_cluster,
            meta: Metadata::default(),
            short_file_name: String::new(),
            lfn: String::new(),
        }
    }

    /// The entries of this directory: its cluster chain is read whole and its
    /// records are then decoded one by one.
    ///
    /// Fails as `read_chain` does on the directory's first cluster.
    pub fn entries<D: BlockDevice>(&self, fs: &mut VFat<D>) -> (r: Result<VFatEntryIterator, Error>)
        requires
            old(fs).wf(),
        ensures
            final(fs).wf(),
            final(fs).same_volume(old(fs)),
            r matches Ok(it) ==> {
                &&& it.idx == 0
                &&& it.bytes_per_cluster == old(fs).cluster_size()
                &&& exists|len: nat| #[trigger] old(fs).chain_has_len(self.first_cluster, len)
                    && it.data@ == old(fs).chain_bytes(self.first_cluster, len)
            },
            r matches Err(e) ==> e is Io || e is InvalidData,
            forall|len: nat| #[trigger] old(fs).valid_chain(self.first_cluster, len) ==> !(r matches Err(Error::InvalidData)),
    {
        let mut data: Vec<u8> = Vec::new();
        fs.read_chain(self.first_cluster, &mut data)?;
        proof {
            assert((fs.bytes_per_sector as nat) * (fs.sectors_per_cluster as nat) < 0x100_0000) by (nonlinear_arith)
                requires
                    fs.bytes_per_sector < 0x1_0000,
                    fs.sectors_per_cluster < 0x100,
            ;
        }
        let bytes_per_cluster = (fs.bytes_per_sector as usize) * (fs.sectors_per_cluster as usize);
        Ok(VFatEntryIterator { idx: 0, data, bytes_per_cluster })
    }

    /// Finds the entry named `name` in this directory, comparing 8.3 and long
    /// names without regard to ASCII case; the first such entry is returned.
    ///
    /// Fails with `NotFound` if no entry has that name, and as `entries` does
    /// if the directory cannot be read.
    pub fn find<D: BlockDevice>(&self, fs: &mut VFat<D>, name: &str) -> (r: Result<Entry, Error>)
        requires
            old(fs).wf(),
        ensures
            final(fs).wf(),
            final(fs).same_volume(old(fs)),
            r matches Ok(e) ==> exists|len: nat, i: int| {
                &&& #[trigger] old(fs).chain_has_len(self.first_cluster, len)
                &&& #[trigger] first_match(old(fs).chain_bytes(self.first_cluster, len), i, name.spec_bytes())
                &&& listed_entry(e, old(fs).chain_bytes(self.first_cluster, len), i, old(fs).cluster_size() as usize)
            },
            r matches Err(Error::NotFound) ==> exists|len: nat| {
                &&& #[trigger] old(fs).chain_has_len(self.first_cluster, len)
                &&& no_match(old(fs).chain_bytes(self.first_cluster, len), name.spec_bytes())
            },
            r matches Err(e) ==> e is Io || e is InvalidData || e is NotFound,
            forall|len: nat| #[trigger] old(fs).valid_chain(self.first_cluster, len) ==> !(r matches Err(Error::InvalidData)),
    {
        self.find_bytes(fs, name.as_bytes())
    }

    /// Finds the entry named by the bytes `name` in this directory, comparing
    /// 8.3 and long names without regard to ASCII case; the first such entry
    /// is returned.
    ///
    /// Fails with `NotFound` if no entry has that name, and as `entries` does
    /// if the directory cannot be read.
    #[verifier::rlimit(100)]
    pub fn find_bytes<D: BlockDevice>(&self, fs: &mut VFat<D>, name: &[u8]) -> (r: Result<Entry, Error>)
        requires
            old(fs).wf(),
        ensures
            final(fs).wf(),
            final(fs).same_volume(old(fs)),
            r matches Ok(e) ==> exists|len: nat, i: int| {
                &&& #[trigger] old(fs).chain_has_len(self.first_cluster, len)
                &&& #[trigger] first_match(old(fs).chain_bytes(self.first_cluster, len), i, name@)
                &&& listed_entry(e, old(fs).chain_bytes(self.first_cluster, len), i, old(fs).cluster_size() as usize)
            },
            r matches Err(Error::NotFound) ==> exists|len: nat| {
                &&& #[trigger] old(fs).chain_has_len(self.first_cluster, len)
                &&& no_match(old(fs).chain_bytes(self.first_cluster, len), name@)
            },
            r matches Err(e) ==> e is Io || e is InvalidData || e is NotFound,
            forall|len: nat| #[trigger] old(fs).valid_chain(self.first_cluster, len) ==> !(r matches Err(Error::InvalidData)),
    {
        let mut it = self.entries(fs)?;
        let ghost data = it.data@;
        let ghost fuel: nat = data.len() / RECORD_SIZE as nat + 1;
        let ghost mut seen: Seq<(nat, Seq<u8>)> = Seq::empty();
        let ghost len = choose|len: nat| old(fs).chain_has_len(self.first_cluster, len) && data == old(fs).chain_bytes(self.first_cluster, len);
        proof {
            assert(listing(data) == seen + listing_from(data, 0, fuel));
        }
        loop
            invariant
                fs.wf(),
                fs.same_volume(old(fs)),
                it.data@ == data,
                it.bytes_per_cluster == old(fs).cluster_size(),
                old(fs).chain_has_len(self.first_cluster, len),
                data == old(fs).chain_bytes(self.first_cluster, len),
                fuel == data.len() / RECORD_SIZE as nat + 1,
                seen.len() <= it.idx,
                RECORD_SIZE * it.idx <= data.len(),
                listing(data) == seen + listing_from(data, it.idx as nat, (fuel - seen.len()) as nat),
                forall|j: int| 0 <= j < seen.len() ==> !name_matches(data, #[trigger] seen[j], name@),
            decreases data.len() - RECORD_SIZE * it.idx,
        {
            let ghost idx0 = it.idx as nat;
            proof {
                lemma_scan_found(data, idx0, Seq::empty());
            }
            match it.next() {
                None => {
                    proof {
                        assert(listing_from(data, idx0, (fuel - seen.len()) as nat) =~= Seq::empty());
                        assert(listing(data) =~= seen);
                    }
                    return Err(Error::NotFound);
                },
                Some(e) => {
                    let ghost x = scan(data, idx0, Seq::empty()).0->Some_0;
                    proof {
                        assert(fuel - seen.len() > 0);
                        let rest = listing_from(data, it.idx as nat, (fuel - seen.len() - 1) as nat);
                        assert(listing_from(data, idx0, (fuel - seen.len()) as nat) == seq![x] + rest);
                        assert(listing(data) =~= seen.push(x) + rest);
                        assert(listing(data)[seen.len() as int] == x);
                    }
                    if entry_named(&e, name) {
                        proof {
                            let i = seen.len() as int;
                            assert(name_matches(data, listing(data)[i], name@));
                            assert forall|j: int| 0 <= j < i implies !name_matches(data, #[trigger] listing(data)[j], name@) by {
                                assert(listing(data)[j] == seen[j]);
                            }
                            assert(first_match(data, i, name@));
                            assert(listed_entry(e, data, i, old(fs).cluster_size() as usize));
                        }
                        return Ok(e);
                    }
                    proof {
                        seen = seen.push(x);
                    }
                },
            }
        }
    }
}

/// The code units of long name `u` padded to the `13 * n` units of `n`
/// long-file-name records: a 0x0000 terminator after the name if there is
/// room, then 0xFFFF.
pub open spec fn padded_units(u: Seq<u16>, n: nat) -> Seq<u16> {
    Seq::new(13 * n, |i: int| if i < u.len() { u[i] } else if i == u.len() { 0u16 } else { 0xFFFFu16 })
}

/// The little-endian bytes of code units `u`.
pub open spec fn bytes_of_units(u: Seq<u16>) -> Seq<u8> {
    Seq::new(2 * u.len(), |i: int| if i % 2 == 0 { (u[i / 2] % 256) as u8 } else { (u[i / 2] / 256) as u8 })
}

/// Byte `j` of the long-file-name record that holds part `k` (from 1) of the
/// name bytes `name`; `last` marks the record of the last part.
pub open spec fn lfn_record_byte(name: Seq<u8>, k: int, last: bool, j: int) -> u8 {
    let base = LFN_CHUNK * (k - 1);
    if j == 0 {
        (if last { k + 0x40 } else { k }) as u8
    } else if 1 <= j < 11 {
        name[base + (j - 1)]
    } else if j == 11 {
        ATTR_LFN
    } else if 14 <= j < 26 {
        name[base + 10 + (j - 14)]
    } else if 28 <= j < 32 {
        name[base + 22 + (j - 28)]
    } else {
        0
    }
}

/// The `n` long-file-name records of name bytes `name`, as they lie on disk:
/// the record of the last part first, the record of the first part last.
pub open spec fn lfn_records(name: Seq<u8>, n: nat) -> Seq<u8> {
    Seq::new(
        (RECORD_SIZE * n) as nat,
        |p: int| lfn_record_byte(name, n - p / RECORD_SIZE as int, p / RECORD_SIZE as int == 0, p % RECORD_SIZE as int),
    )
}

/// The name buffer after the first `m` records of `lfn_records(name, n)`.
pub open spec fn lfn_buffer_after(name: Seq<u8>, n: nat, m: nat) -> Seq<u8> {
    if m == 0 {
        Seq::empty()
    } else {
        Seq::new((LFN_CHUNK * n) as nat, |p: int| if p >= LFN_CHUNK * (n - m) { name[p] } else { 0u8 })
    }
}

proof fn lemma_record_index(m: int, j: int)
    requires
        0 <= m,
        0 <= j < 32,
    ensures
        (RECORD_SIZE * m + j) / RECORD_SIZE as int == m,
        (RECORD_SIZE * m + j) % RECORD_SIZE as int == j,
{
    vstd::arithmetic::div_mod::lemma_fundamental_div_mod_converse(RECORD_SIZE * m + j, 32, m, j);
}

proof fn lemma_units_round_trip(v: Seq<u16>)
    ensures
        units_of(bytes_of_units(v)) == v,
{
    let b = bytes_of_units(v);
    assert forall|i: int| 0 <= i < v.len() implies #[trigger] units_of(b)[i] == v[i] by {
        vstd::arithmetic::div_mod::lemma_fundamental_div_mod_converse(2 * i, 2, i, 0);
        vstd::arithmetic::div_mod::lemma_fundamental_div_mod_converse(2 * i + 1, 2, i, 1);
        let x = v[i];
        assert((x % 256) as u8 + 256 * ((x / 256) as u8) == x);
    }
    assert(units_of(b) =~= v);
}

/// Scanning records `m..n` of the long-name records, then a regular record,
/// gathers the whole name.
proof fn lemma_scan_lfn(name: Seq<u8>, n: nat, data: Seq<u8>, m: nat)
    requires
        1 <= n <= 20,
        m <= n,
        name.len() == LFN_CHUNK * n,
        data.len() >= RECORD_SIZE * n + RECORD_SIZE,
        data.subrange(0, RECORD_SIZE * n as int) == lfn_records(name, n),
        data[RECORD_SIZE * n as int] != END_OF_DIR,
        data[RECORD_SIZE * n as int] != DELETED,
        data[RECORD_SIZE * n + 11] != ATTR_LFN,
    ensures
        scan(data, m, lfn_buffer_after(name, n, m)) == (Some((n, name)), n + 1),
    decreases n - m,
{
    let at = RECORD_SIZE * m;
    if m == n {
        assert(lfn_buffer_after(name, n, n) =~= name);
    } else {
        let k = n - m;
        let last = m == 0;
        assert forall|j: int| 0 <= j < 32 implies #[trigger] data[at + j] == lfn_record_byte(name, k, last, j) by {
            lemma_record_index(m as int, j);
            assert(data[at + j] == data.subrange(0, RECORD_SIZE * n as int)[at + j]);
        }
        assert(data[at + 0] == lfn_record_byte(name, k, last, 0));
        let first = data[at];
        let kk = k as u8;
        assert(first == if last { (kk + 0x40) as u8 } else { kk });
        assert(((kk + 0x40) as u8) & 0x1F == kk && kk & 0x1F == kk) by (bit_vector)
            requires
                1 <= kk <= 20,
        ;
        assert(lfn_seq(data, at) == k);
        let before = lfn_buffer_after(name, n, m);
        let after = lfn_apply(before, data, at);
        assert forall|p: int| 0 <= p < after.len() implies #[trigger] after[p] == lfn_buffer_after(name, n, m + 1)[p] by {
            let start = LFN_CHUNK * (k - 1);
            if start <= p < start + LFN_CHUNK {
                let j = p - start;
                if j < 10 {
                    let jj = 1 + j;
                    assert(data[at + jj] == lfn_record_byte(name, k, last, jj));
                    assert(data[at + 1 + j] == data[at + jj]);
                } else if j < 22 {
                    let jj = 14 + (j - 10);
                    assert(data[at + jj] == lfn_record_byte(name, k, last, jj));
                    assert(data[at + 14 + (j - 10)] == data[at + jj]);
                } else {
                    let jj = 28 + (j - 22);
                    assert(data[at + jj] == lfn_record_byte(name, k, last, jj));
                    assert(data[at + 28 + (j - 22)] == data[at + jj]);
                }
            }
        }
        assert(after =~= lfn_buffer_after(name, n, m + 1));
        lemma_scan_lfn(name, n, data, m + 1);
    }
}

/// A long name written as `n` long-file-name records, last part first,
/// followed by its regular record, reads back as the same name; its 8.3 name
/// is that of the regular record.
pub proof fn lemma_lfn_round_trip(u: Seq<u16>, n: nat, reg: Seq<u8>, rest: Seq<u8>)
    requires
        1 <= n <= 20,
        u.len() <= 13 * n,
        forall|i: int| 0 <= i < u.len() ==> !is_terminator(#[trigger] u[i]),
        reg.len() == RECORD_SIZE,
        reg[0] != END_OF_DIR,
        reg[0] != DELETED,
        reg[11] != ATTR_LFN,
    ensures
        ({
            let data = lfn_records(bytes_of_units(padded_units(u, n)), n) + reg + rest;
            &&& scan(data, 0, Seq::empty()) matches (Some((k, lfn)), next)
            &&& k == n
            &&& next == n + 1
            &&& lfn_units(lfn) == u
            &&& short_name_bytes(data, RECORD_SIZE * k) == short_name_bytes(reg, 0)
        }),
{
    let padded = padded_units(u, n);
    let name = bytes_of_units(padded);
    let data = lfn_records(name, n) + reg + rest;
    let end = RECORD_SIZE * n as int;
    assert(data.subrange(0, end) =~= lfn_records(name, n));
    assert(data[end] == reg[0]);
    assert(data[end + 11] == reg[11]);
    lemma_scan_lfn(name, n, data, 0);
    assert(lfn_buffer_after(name, n, 0) =~= Seq::<u8>::empty());
    lemma_units_round_trip(padded);
    lemma_until_terminator_prefix(padded, u.len() as int);
    let tail = padded.subrange(u.len() as int, padded.len() as int);
    if u.len() < 13 * n {
        assert(tail[0] == 0);
    } else {
        assert(tail.len() == 0);
    }
    assert(padded.subrange(0, u.len() as int) =~= u);
    assert(u + Seq::<u16>::empty() =~= u);
    assert(data.subrange(end, end + 8) =~= reg.subrange(0, 8));
    assert(data.subrange(end + 8, end + 11) =~= reg.subrange(8, 11));
}

/// Long-file-name records with different sequence numbers may be gathered
/// in either order: each places its part at a position fixed by its own
/// sequence number, so the name buffer comes out the same.
pub proof fn lemma_lfn_apply_commutes(buf: Seq<u8>, data: Seq<u8>, a: int, b: int)
    requires
        0 <= a,
        a + RECORD_SIZE <= data.len(),
        0 <= b,
        b + RECORD_SIZE <= data.len(),
        lfn_seq(data, a) != lfn_seq(data, b),
    ensures
        lfn_apply(lfn_apply(buf, data, a), data, b) == lfn_apply(lfn_apply(buf, data, b), data, a),
{
    let x = lfn_apply(lfn_apply(buf, data, a), data, b);
    let y = lfn_apply(lfn_apply(buf, data, b), data, a);
    let sa = lfn_seq(data, a);
    let sb = lfn_seq(data, b);
    assert(x.len() == y.len());
    assert forall|i: int| 0 <= i < x.len() implies x[i] == y[i] by {
        let start_a = (sa - 1) * LFN_CHUNK;
        let start_b = (sb - 1) * LFN_CHUNK;
        if sa != 0 && sb != 0 {
            assert(start_a + LFN_CHUNK <= start_b || start_b + LFN_CHUNK <= start_a);
        }
    }
    assert(x =~= y);
}

} // verus!
