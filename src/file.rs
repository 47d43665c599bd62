use vstd::prelude::*;

use crate::cluster::Cluster;
use crate::device::BlockDevice;
use crate::dir::File;
use crate::error::Error;
use crate::fat::Status;
use crate::vfat::VFat;

verus! {

/// A position to seek to, counted from one of three anchors.
#[derive(Copy, Clone, Debug, PartialEq, Eq, Structural)]
pub enum SeekFrom {
    /// Bytes from the start of the file.
    Start(u64),
    /// Bytes from the end of the file; negative values point before it.
    End(i64),
    /// Bytes from the current position.
    Current(i64),
}

/// Byte `p` of the file whose chain begins at `first`.
pub open spec fn file_byte<D: BlockDevice>(fs: &VFat<D>, first: Cluster, p: int) -> u8 {
    fs.cluster_byte(fs.walk(first, (p / fs.cluster_size() as int) as nat), p % fs.cluster_size() as int)
}

/// Every cluster at an index in `[a, b)` of the chain from `first` links to
/// a next cluster.
pub open spec fn links_data<D: BlockDevice>(fs: &VFat<D>, first: Cluster, a: int, b: int) -> bool {
    forall|q: int| a <= q < b ==> #[trigger] fs.fat_status(fs.walk(first, q as nat)) is Data
}

/// A FAT status that neither links to a cluster nor ends the chain.
pub open spec fn is_bad_link(st: Status) -> bool {
    !(st is Data) && !(st is Eoc)
}

/// Reads from byte `o` of `cluster` into `buf[at..]`, at most `want` bytes,
/// and returns the number read.
fn read_piece<D: BlockDevice>(
    fs: &mut VFat<D>,
    cluster: Cluster,
    o: usize,
    buf: &mut [u8],
    at: usize,
    want: usize,
) -> (r: Result<usize, Error>)
    requires
        old(fs).wf(),
        o < old(fs).cluster_size(),
        0 < want,
        at + want <= old(buf)@.len(),
    ensures
        final(fs).wf(),
        final(fs).same_volume(old(fs)),
        final(buf)@.len() == old(buf)@.len(),
        r matches Ok(n) ==> {
            &&& n == vstd::math::min(want as int, old(fs).cluster_size() - o)
            &&& cluster.0 >= 2
            &&& forall|i: int| 0 <= i < at ==> #[trigger] final(buf)@[i] == old(buf)@[i]
            &&& forall|k: int| 0 <= k < n ==> #[trigger] final(buf)@[at + k] == old(fs).cluster_byte(cluster, o + k)
            &&& forall|i: int| at + n <= i < old(buf)@.len() ==> #[trigger] final(buf)@[i] == old(buf)@[i]
        },
        r matches Err(e) ==> e is Io || (e is InvalidData && cluster.0 < 2),
{
    let mut tmp: Vec<u8> = vec![0u8; want];
    let n = fs.read_cluster(cluster, o, tmp.as_mut_slice())?;
    let buf_len = buf.len();
    let mut j: usize = 0;
    while j < n
        invariant
            j <= n,
            n <= want,
            at + want <= buf@.len(),
            buf_len == buf@.len(),
            buf@.len() == old(buf)@.len(),
            tmp@.len() == want,
            forall|i: int| 0 <= i < at ==> #[trigger] buf@[i] == old(buf)@[i],
            forall|k: int| 0 <= k < j ==> #[trigger] buf@[at + k] == tmp@[k],
            forall|i: int| at + j <= i < buf@.len() ==> #[trigger] buf@[i] == old(buf)@[i],
        decreases n - j,
    {
        buf[at + j] = tmp[j];
        j += 1;
    }
    proof {
        assert forall|k: int| 0 <= k < n implies #[trigger] buf@[at + k] == old(fs).cluster_byte(cluster, o + k) by {
            assert(buf@[at + k] == tmp@[k]);
        }
    }
    Ok(n)
}

/// The bytes just read from offset `o` of the cluster that holds file
/// position `off + read` are the file's bytes from that position on.
proof fn lemma_copied_bytes<D: BlockDevice>(
    fs: &VFat<D>,
    first: Cluster,
    off: int,
    read: int,
    r: int,
    o: int,
    cluster: Cluster,
    before: Seq<u8>,
    buf: Seq<u8>,
)
    requires
        fs.cluster_size() > 0,
        0 <= off,
        0 <= read,
        0 <= o,
        o + r <= fs.cluster_size(),
        o == (off + read) % fs.cluster_size() as int,
        cluster == fs.walk(first, ((off + read) / fs.cluster_size() as int) as nat),
        forall|i: int| 0 <= i < read ==> #[trigger] before[i] == file_byte(fs, first, off + i),
        forall|i: int| 0 <= i < read ==> #[trigger] buf[i] == before[i],
        forall|k: int| 0 <= k < r ==> #[trigger] buf[read + k] == fs.cluster_byte(cluster, o + k),
    ensures
        forall|i: int| 0 <= i < read + r ==> #[trigger] buf[i] == file_byte(fs, first, off + i),
{
    let bpc = fs.cluster_size() as int;
    let pos = off + read;
    let q = pos / bpc;
    vstd::arithmetic::div_mod::lemma_fundamental_div_mod(pos, bpc);
    assert forall|i: int| 0 <= i < read + r implies #[trigger] buf[i] == file_byte(fs, first, off + i) by {
        if i >= read {
            let k = i - read;
            assert(buf[read + k] == fs.cluster_byte(cluster, o + k));
            vstd::arithmetic::div_mod::lemma_fundamental_div_mod_converse(off + i, bpc, q, o + k);
        } else {
            assert(buf[i] == before[i]);
        }
    }
}

/// A read that reaches the end of the cluster holding `off + read` moves to
/// the next cluster index, which lies within the range the read asks for.
proof fn lemma_boundary(off: int, read: int, r: int, o: int, bpc: int, m: int)
    requires
        bpc > 0,
        0 <= off,
        0 <= read,
        read + r <= m,
        o == (off + read) % bpc,
        r + o == bpc,
    ensures
        (off + read + r) / bpc == (off + read) / bpc + 1,
        (off + read + r) % bpc == 0,
        (off + read) / bpc + 1 <= (off + m) / bpc,
        off / bpc <= (off + read) / bpc,
{
    let pos = off + read;
    let q = pos / bpc;
    vstd::arithmetic::div_mod::lemma_fundamental_div_mod(pos, bpc);
    assert(pos + r == (q + 1) * bpc) by (nonlinear_arith)
        requires
            pos == bpc * q + o,
            r + o == bpc,
    ;
    vstd::arithmetic::div_mod::lemma_fundamental_div_mod_converse(pos + r, bpc, q + 1, 0);
    vstd::arithmetic::div_mod::lemma_div_is_ordered(pos + r, off + m, bpc);
    vstd::arithmetic::div_mod::lemma_div_is_ordered(off, pos, bpc);
}

/// Where a read stops: the clusters it crossed link onwards, and the file
/// position it reached is held by the cluster it stopped in.
proof fn lemma_read_end<D: BlockDevice>(fs: &VFat<D>, first: Cluster, off: int, read: int, bpc: int, q0: int, exit: bool)
    requires
        bpc > 0,
        0 <= off,
        0 <= read,
        q0 == off / bpc,
        !exit ==> links_data(fs, first, q0, (off + read) / bpc),
        exit ==> (off + read) % bpc == 0 && read > 0 && links_data(fs, first, q0, (off + read) / bpc - 1)
            && fs.fat_status(fs.walk(first, ((off + read) / bpc - 1) as nat)) is Eoc,
    ensures
        read > 0 ==> links_data(fs, first, q0, (off + read - 1) / bpc),
        exit ==> fs.walk(first, ((off + read) / bpc) as nat) == fs.walk(first, ((off + read) / bpc - 1) as nat),
{
    let x = off + read;
    vstd::arithmetic::div_mod::lemma_fundamental_div_mod(x, bpc);
    if read > 0 {
        vstd::arithmetic::div_mod::lemma_div_is_ordered(x - 1, x, bpc);
    }
    if exit {
        assert(x / bpc >= 1) by (nonlinear_arith)
            requires
                x == bpc * (x / bpc) + 0,
                x > 0,
                bpc > 0,
        ;
        assert(x - 1 == (x / bpc - 1) * bpc + (bpc - 1)) by (nonlinear_arith)
            requires
                x == bpc * (x / bpc) + 0,
        ;
        vstd::arithmetic::div_mod::lemma_fundamental_div_mod_converse(x - 1, bpc, x / bpc - 1, bpc - 1);
        let k = (x / bpc - 1) as nat;
        assert(fs.walk(first, k + 1) == fs.walk(first, k));
        assert((k + 1) as int == x / bpc);
    }
}

impl File {
    /// The read position of this file is consistent with volume `fs`: it lies
    /// within the file and `current_cluster` holds it.
    pub open spec fn cursor_ok<D: BlockDevice>(&self, fs: &VFat<D>) -> bool {
        &&& self.bytes_per_cluster == fs.cluster_size()
        &&& self.current_offset <= self.size
        &&& self.current_cluster == fs.walk(self.first_cluster, (self.current_offset / self.bytes_per_cluster) as nat)
    }

    /// The number of bytes a read into a buffer of `buf_len` bytes asks for.
    pub open spec fn read_len(&self, buf_len: nat) -> int {
        vstd::math::min(buf_len as int, self.size - self.current_offset)
    }

    /// A read into a buffer of `buf_len` bytes reaches the end of a cluster,
    /// linked to from the read position, whose entry is a bad link.
    pub open spec fn bad_link_crossed<D: BlockDevice>(&self, fs: &VFat<D>, buf_len: nat) -> bool {
        let bpc = self.bytes_per_cluster as int;
        let off = self.current_offset as int;
        exists|q: int| #![trigger fs.fat_status(fs.walk(self.first_cluster, q as nat))]
            off / bpc <= q < (off + self.read_len(buf_len)) / bpc
            && links_data(fs, self.first_cluster, off / bpc, q)
            && is_bad_link(fs.fat_status(fs.walk(self.first_cluster, q as nat)))
    }

    /// The absolute position that `pos` designates in this file.
    pub open spec fn target(&self, pos: SeekFrom) -> int {
        match pos {
            SeekFrom::Start(x) => x as int,
            SeekFrom::Current(x) => self.current_offset + x,
            SeekFrom::End(x) => self.size + x,
        }
    }

    /// Returns the size of the file in bytes.
    pub fn size(&self) -> (r: u64)
        ensures
            r == self.size,
    {
        self.size as u64
    }

    /// Moves the read position to `pos` and returns it, counted from the
    /// start of the file.
    ///
    /// Fails with `InvalidInput` if the position lies before the start of the
    /// file or at or past its end, or if the file's chain has fewer clusters
    /// than the position needs; with `Io` if the device fails.
    #[verifier::rlimit(100)]
    pub fn seek<D: BlockDevice>(&mut self, fs: &mut VFat<D>, pos: SeekFrom) -> (r: Result<u64, Error>)
        requires
            old(fs).wf(),
            old(self).bytes_per_cluster == old(fs).cluster_size(),
        ensures
            final(fs).wf(),
            final(fs).same_volume(old(fs)),
            final(self).first_cluster == old(self).first_cluster,
            final(self).size == old(self).size,
            final(self).bytes_per_cluster == old(self).bytes_per_cluster,
            final(self).meta == old(self).meta,
            final(self).short_file_name == old(self).short_file_name,
            final(self).lfn == old(self).lfn,
            r matches Ok(p) ==> {
                &&& p == old(self).target(pos)
                &&& final(self).current_offset == p
                &&& final(self).cursor_ok(old(fs))
                &&& old(fs).linked(old(self).first_cluster, (p as int / old(self).bytes_per_cluster as int) as nat)
            },
            r is Err ==> final(self).current_offset == old(self).current_offset
                && final(self).current_cluster == old(self).current_cluster,
            r matches Err(e) ==> e is Io || e is InvalidInput,
            (old(self).target(pos) < 0 || old(self).target(pos) >= old(self).size) ==> r matches Err(Error::InvalidInput),
            (0 <= old(self).target(pos) < old(self).size && old(fs).linked(
                old(self).first_cluster,
                (old(self).target(pos) / old(self).bytes_per_cluster as int) as nat,
            )) ==> !(r matches Err(Error::InvalidInput)),
    {
        let ghost fs0 = *old(fs);
        let t: i128 = match pos {
            SeekFrom::Start(x) => x as i128,
            SeekFrom::Current(x) => self.current_offset as i128 + x as i128,
            SeekFrom::End(x) => self.size as i128 + x as i128,
        };
        if t < 0 || t >= self.size as i128 {
            return Err(Error::InvalidInput);
        }
        let p = t as usize;
        proof {
            assert(fs0.cluster_size() > 0) by (nonlinear_arith)
                requires
                    fs0.bytes_per_sector > 0,
                    fs0.sectors_per_cluster > 0,
            ;
        }
        let n = p / self.bytes_per_cluster;
        let mut cluster = self.first_cluster;
        let mut i: usize = 0;
        while i < n
            invariant
                fs0 == *old(fs),
                *self == *old(self),
                p == old(self).target(pos),
                0 <= p < old(self).size,
                n == p / old(self).bytes_per_cluster,
                fs.wf(),
                fs.same_volume(&fs0),
                i <= n,
                cluster == fs0.walk(self.first_cluster, i as nat),
                fs0.linked(self.first_cluster, i as nat),
            decreases n - i,
        {
            let ghost before = *fs;
            let e = fs.fat_entry(cluster)?;
            proof {
                fs0.lemma_same_volume(&before);
            }
            match e.status() {
                Status::Data(x) => {
                    proof {
                        assert(fs0.fat_status(fs0.walk(self.first_cluster, i as nat)) is Data);
                    }
                    cluster = x;
                },
                _ => {
                    proof {
                        if fs0.linked(self.first_cluster, n as nat) {
                            assert(fs0.fat_status(fs0.walk(self.first_cluster, i as nat)) is Data);
                        }
                    }
                    return Err(Error::InvalidInput);
                },
            }
            proof {
                assert(fs0.linked(self.first_cluster, (i + 1) as nat));
            }
            i += 1;
        }
        self.current_offset = p;
        self.current_cluster = cluster;
        Ok(p as u64)
    }

    /// Reads from the read position into `buf`: as many bytes as fit in
    /// `buf` and remain in the file, or fewer if the file's chain ends first.
    /// Returns the number of bytes read and moves the position past them.
    ///
    /// Fails with `InvalidData` if the read position lies in a cluster below
    /// 2, or if a cluster whose end the read reaches links to a free,
    /// reserved or bad cluster; with `Io` if the device fails.
    #[verifier::rlimit(100)]
    pub fn read<D: BlockDevice>(&mut self, fs: &mut VFat<D>, buf: &mut [u8]) -> (r: Result<usize, Error>)
        requires
            old(fs).wf(),
            old(self).cursor_ok(old(fs)),
        ensures
            final(fs).wf(),
            final(fs).same_volume(old(fs)),
            final(buf)@.len() == old(buf)@.len(),
            final(self).first_cluster == old(self).first_cluster,
            final(self).size == old(self).size,
            final(self).bytes_per_cluster == old(self).bytes_per_cluster,
            final(self).meta == old(self).meta,
            old(self).read_len(old(buf)@.len()) == 0 ==> r == Ok::<usize, Error>(0),
            r matches Ok(n) ==> {
                let off = old(self).current_offset as int;
                let bpc = old(self).bytes_per_cluster as int;
                let m = old(self).read_len(old(buf)@.len());
                &&& n <= m
                &&& (n == m || ((off + n) % bpc == 0 && old(fs).fat_status(
                    old(fs).walk(old(self).first_cluster, ((off + n) / bpc - 1) as nat),
                ) is Eoc))
                &&& (n > 0 ==> links_data(old(fs), old(self).first_cluster, off / bpc, (off + n - 1) / bpc))
                &&& forall|i: int| 0 <= i < n ==> #[trigger] final(buf)@[i] == file_byte(old(fs), old(self).first_cluster, off + i)
                &&& forall|i: int| n <= i < old(buf)@.len() ==> #[trigger] final(buf)@[i] == old(buf)@[i]
                &&& final(self).current_offset == off + n
                &&& final(self).cursor_ok(old(fs))
            },
            r matches Err(e) ==> e is Io || e is InvalidData,
            r matches Err(Error::InvalidData) ==> old(self).read_len(old(buf)@.len()) > 0 && (
                old(self).current_cluster.0 < 2 || old(self).bad_link_crossed(old(fs), old(buf)@.len())),
            (old(self).read_len(old(buf)@.len()) > 0 ==> old(self).current_cluster.0 >= 2)
                && !old(self).bad_link_crossed(old(fs), old(buf)@.len()) ==> !(r matches Err(Error::InvalidData)),
    {
        let ghost fs0 = *old(fs);
        let bpc = self.bytes_per_cluster;
        let bytes_left = self.size - self.current_offset;
        let len_read_max = if buf.len() < bytes_left { buf.len() } else { bytes_left };
        let off = self.current_offset;
        let ghost q0 = off as int / bpc as int;
        proof {
            assert(bpc > 0) by (nonlinear_arith)
                requires
                    bpc == fs0.bytes_per_sector as nat * fs0.sectors_per_cluster as nat,
                    fs0.bytes_per_sector > 0,
                    fs0.sectors_per_cluster > 0,
            ;
            vstd::arithmetic::div_mod::lemma_fundamental_div_mod(off as int, bpc as int);
        }
        let mut offset_in_cluster = off % bpc;
        let mut cluster = self.current_cluster;
        let mut read: usize = 0;
        let mut exit = false;
        while read < len_read_max && !exit
            invariant
                fs0 == *old(fs),
                fs.wf(),
                fs.same_volume(&fs0),
                bpc == fs0.cluster_size(),
                bpc == old(self).bytes_per_cluster,
                bpc > 0,
                off == old(self).current_offset,
                off <= old(self).size,
                q0 == off as int / bpc as int,
                len_read_max == old(self).read_len(old(buf)@.len()),
                read <= len_read_max,
                buf@.len() == old(buf)@.len(),
                read == 0 ==> !exit && cluster == old(self).current_cluster,
                read > 0 ==> cluster.0 >= 2,
                !exit && read < len_read_max ==> offset_in_cluster == (off + read) % (bpc as int),
                !exit ==> cluster == fs0.walk(self.first_cluster, ((off + read) / bpc as int) as nat),
                !exit ==> links_data(&fs0, self.first_cluster, q0, (off + read) / bpc as int),
                exit ==> (off + read) % (bpc as int) == 0 && read > 0 && cluster == fs0.walk(
                    self.first_cluster,
                    ((off + read) / bpc as int - 1) as nat,
                ) && fs0.fat_status(cluster) is Eoc,
                exit ==> links_data(&fs0, self.first_cluster, q0, (off + read) / bpc as int - 1),
                self.first_cluster == old(self).first_cluster,
                forall|i: int| 0 <= i < read ==> #[trigger] buf@[i] == file_byte(&fs0, self.first_cluster, off + i),
                forall|i: int| read <= i < buf@.len() ==> #[trigger] buf@[i] == old(buf)@[i],
            decreases len_read_max - read, (if exit { 0int } else { 1int }),
        {
            let ghost before = *fs;
            let ghost old_buf = buf@;
            let r = match read_piece(fs, cluster, offset_in_cluster, buf, read, len_read_max - read) {
                Ok(r) => r,
                Err(e) => {
                    return Err(e);
                },
            };
            let ghost pos = off + read;
            let ghost q = pos / bpc as int;
            proof {
                fs0.lemma_same_volume(&before);
                lemma_copied_bytes(&fs0, self.first_cluster, off as int, read as int, r as int, offset_in_cluster as int, cluster, old_buf, buf@);
                vstd::arithmetic::div_mod::lemma_fundamental_div_mod(pos, bpc as int);
            }
            if r + offset_in_cluster == bpc {
                proof {
                    lemma_boundary(off as int, read as int, r as int, offset_in_cluster as int, bpc as int, len_read_max as int);
                }
                let ghost before2 = *fs;
                let next = match fs.follow_link(Some(cluster)) {
                    Ok(next) => next,
                    Err(e) => {
                        proof {
                            fs0.lemma_same_volume(&before2);
                            if e is InvalidData {
                                assert(old(self).bad_link_crossed(old(fs), old(buf)@.len()) ) by {
                                    assert(q0 <= q < (off + len_read_max) / bpc as int);
                                    assert(links_data(&fs0, self.first_cluster, q0, q));
                                }
                            }
                        }
                        return Err(e);
                    },
                };
                proof {
                    fs0.lemma_same_volume(&before2);
                }
                match next {
                    Some(x) => {
                        proof {
                            assert(fs0.fat_status(fs0.walk(self.first_cluster, q as nat)) is Data);
                            fs0.lemma_linked_target(self.first_cluster, q as nat);
                            assert(links_data(&fs0, self.first_cluster, q0, q + 1));
                        }
                        cluster = x;
                    },
                    None => {
                        exit = true;
                    },
                }
            } else {
                proof {
                    vstd::arithmetic::div_mod::lemma_fundamental_div_mod_converse(
                        pos + r,
                        bpc as int,
                        q,
                        offset_in_cluster + r,
                    );
                }
            }
            read += r;
            offset_in_cluster = 0;
        }
        proof {
            lemma_read_end(&fs0, self.first_cluster, off as int, read as int, bpc as int, q0, exit);
        }
        self.current_cluster = cluster;
        self.current_offset = off + read;
        Ok(read)
    }

    /// Writing is not supported by this read-only filesystem.
    pub fn write(&mut self, buf: &[u8]) -> (r: Result<usize, Error>)
        ensures
            r matches Err(Error::Unsupported),
    {
        Err(Error::Unsupported)
    }

    /// Flushing is not supported by this read-only filesystem.
    pub fn flush(&mut self) -> (r: Result<(), Error>)
        ensures
            r matches Err(Error::Unsupported),
    {
        Err(Error::Unsupported)
    }

    /// Syncing is not supported by this read-only filesystem.
    pub fn sync(&mut self) -> (r: Result<(), Error>)
        ensures
            r matches Err(Error::Unsupported),
    {
        Err(Error::Unsupported)
    }
}

} // verus!
