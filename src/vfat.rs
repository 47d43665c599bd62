use vstd::prelude::*;

use crate::bytes::{le16, le32, read_u32_le};
use crate::cache::{CachedDevice, Partition};
use crate::cluster::Cluster;
use crate::device::{same_disk, BlockDevice};
use crate::error::Error;
use crate::ebpb::{boot_signature_ok, BiosParameterBlock, EBPB_SIZE};
use crate::fat::{status_of, FatEntry, Status};
use crate::mbr::{self, entry_offset, indicators_ok, signature_ok, MasterBootRecord};

verus! {

/// Largest sector number the volume's geometry can produce, exclusive.
pub const SECTOR_LIMIT: u64 = 0x400_0000_0000;

/// Bound on the number of links followed in one chain: more links than there
/// are cluster numbers can only come from a cycle.
pub const MAX_CHAIN_LINKS: u64 = 0x1000_0000;

/// A partition type of FAT32: 0x0B (CHS) or 0x0C (LBA).
pub open spec fn is_fat32_type(t: u8) -> bool {
    t == 0x0B || t == 0x0C
}

/// The type byte of partition entry `i` of master boot record `b`.
pub open spec fn part_type(b: Seq<u8>, i: int) -> u8 {
    b[entry_offset(i) + 4]
}

/// The first sector of partition entry `i` of master boot record `b`.
pub open spec fn part_start(b: Seq<u8>, i: int) -> int {
    le32(b, entry_offset(i) + 8)
}

/// Entry `i` is the first FAT32 entry of the partition table in `b`.
pub open spec fn first_fat32(b: Seq<u8>, i: int) -> bool {
    &&& 0 <= i < 4
    &&& is_fat32_type(part_type(b, i))
    &&& forall|j: int| 0 <= j < i ==> !is_fat32_type(#[trigger] part_type(b, j))
}

/// A boot sector geometry the driver can read: sectors of a positive multiple
/// of 4 bytes that is a multiple of the device's sector size `ss`, and
/// clusters of at least one sector.
pub open spec fn geometry_valid(bps: int, spc: int, ss: nat) -> bool {
    &&& ss > 0
    &&& bps > 0
    &&& bps % 4 == 0
    &&& bps >= ss
    &&& bps % (ss as int) == 0
    &&& spc > 0
}

/// A mounted FAT32 volume: its geometry and the sector cache it reads through.
pub struct VFat<D: BlockDevice> {
    pub device: CachedDevice<D>,
    pub bytes_per_sector: u16,
    pub sectors_per_cluster: u8,
    pub sectors_per_fat: u32,
    pub fat_start_sector: u64,
    pub data_start_sector: u64,
    pub root_dir_cluster: Cluster,
}

impl<D: BlockDevice> VFat<D> {
    /// Mounts the first FAT32 partition of `device`.
    ///
    /// Reads the master boot record, takes the first partition entry of type
    /// 0x0B or 0x0C and reads its boot sector. Fails with `Mbr(_)` if the
    /// master boot record is invalid, `NotFound` if no FAT32 entry exists,
    /// `Ebpb` or `BadSignature` if the boot sector is short or unsigned,
    /// `BadGeometry` if its sizes cannot describe a volume on this device, and
    /// `Io` if the device fails.
    #[verifier::loop_isolation(false)]
    pub fn from(mut device: D) -> (r: Result<VFat<D>, Error>)
        ensures
            ({
                let b0 = device.sector_content(0);
                let ss = device.spec_sector_size();
                match r {
                    Ok(v) => {
                        &&& v.wf()
                        &&& same_disk(&v.device.device, &device)
                        &&& v.device.cached() == Map::<u64, (Seq<u8>, bool)>::empty()
                        &&& signature_ok(b0) && indicators_ok(b0)
                        &&& exists|i: int| {
                            &&& #[trigger] first_fat32(b0, i)
                            &&& ({
                                let st = part_start(b0, i);
                                let b1 = device.sector_content(st as u64);
                                let sectors = if le16(b1, 22) == 0 { le32(b1, 36) } else { le16(b1, 22) };
                                &&& b1.len() >= EBPB_SIZE && boot_signature_ok(b1)
                                &&& geometry_valid(le16(b1, 11), b1[13] as int, ss)
                                &&& v.device.partition == (Partition { start: st as u64, sector_size: le16(b1, 11) as u64 })
                                &&& v.bytes_per_sector == le16(b1, 11)
                                &&& v.sectors_per_cluster == b1[13]
                                &&& v.sectors_per_fat == sectors
                                &&& v.fat_start_sector == st + le16(b1, 14)
                                &&& v.data_start_sector == st + le16(b1, 14) + sectors * b1[16]
                                &&& v.root_dir_cluster.0 == (le32(b1, 44) as u32) & 0x0FFF_FFFFu32
                            })
                        }
                    },
                    Err(Error::Mbr(mbr::Error::BadSignature)) => !signature_ok(b0),
                    Err(Error::Mbr(mbr::Error::UnknownBootIndicator(_))) => signature_ok(b0) && !indicators_ok(b0),
                    Err(Error::NotFound) => signature_ok(b0) && indicators_ok(b0)
                        && forall|i: int| 0 <= i < 4 ==> !is_fat32_type(#[trigger] part_type(b0, i)),
                    Err(Error::Ebpb) => exists|i: int| #[trigger] first_fat32(b0, i)
                        && device.sector_content(part_start(b0, i) as u64).len() < EBPB_SIZE,
                    Err(Error::BadSignature) => exists|i: int| #[trigger] first_fat32(b0, i)
                        && !boot_signature_ok(device.sector_content(part_start(b0, i) as u64)),
                    Err(Error::BadGeometry) => ss > usize::MAX || exists|i: int| #[trigger] first_fat32(b0, i) && {
                        let b1 = device.sector_content(part_start(b0, i) as u64);
                        !geometry_valid(le16(b1, 11), b1[13] as int, ss)
                    },
                    Err(Error::Io(_)) => true,
                    Err(Error::Mbr(mbr::Error::Io(_))) => true,
                    Err(_) => false,
                }
            }),
    {
        let ghost dev0 = device;
        let ss = device.sector_size();
        if ss > usize::MAX as u64 {
            return Err(Error::BadGeometry);
        }
        let mbr = match MasterBootRecord::from(&mut device) {
            Ok(m) => m,
            Err(e) => {
                return Err(Error::Mbr(e));
            },
        };
        let ghost b0 = dev0.sector_content(0);
        let mut i: usize = 0;
        while i < 4
            invariant
                0 <= i <= 4,
                same_disk(&device, &dev0),
                ss == dev0.spec_sector_size(),
                ss <= usize::MAX,
                mbr::mbr_holds(mbr, b0),
                b0.len() >= mbr::MBR_SIZE,
                forall|j: int| 0 <= j < i ==> !is_fat32_type(#[trigger] part_type(b0, j)),
            decreases 4 - i,
        {
            let entry = mbr.table_entries[i];
            proof {
                assert(mbr::entry_holds(mbr.table_entries@[i as int], b0, entry_offset(i as int)));
            }
            if entry.partition_type == 0x0B || entry.partition_type == 0x0C {
                let st = entry.relative_sector as u64;
                let ghost b1 = dev0.sector_content(st);
                proof {
                    assert(first_fat32(b0, i as int));
                    assert(st == part_start(b0, i as int));
                    assert(device.sector_content(st) == b1);
                }
                let bpb = match BiosParameterBlock::from(&mut device, st) {
                    Ok(p) => p,
                    Err(e) => {
                        proof {
                            if e is Ebpb {
                                assert(b1.len() < EBPB_SIZE);
                                assert(first_fat32(b0, i as int) && dev0.sector_content(part_start(b0, i as int) as u64).len() < EBPB_SIZE);
                            }
                        }
                        return Err(e);
                    },
                };
                proof {
                    assert(crate::ebpb::ebpb_holds(bpb, b1));
                }
                let bps = bpb.num_bytes_per_sector;
                let spc = bpb.num_sectors_per_cluster;
                if ss == 0 || bps == 0 || bps % 4 != 0 || (bps as u64) < ss || (bps as u64) % ss != 0 || spc == 0 {
                    proof {
                        assert(!geometry_valid(le16(b1, 11), b1[13] as int, ss as nat));
                        assert(first_fat32(b0, i as int));
                        assert(exists|j: int| #[trigger] first_fat32(b0, j) && {
                            let b1 = dev0.sector_content(part_start(b0, j) as u64);
                            !geometry_valid(le16(b1, 11), b1[13] as int, dev0.spec_sector_size())
                        });
                    }
                    return Err(Error::BadGeometry);
                }
                let sectors: u32 = if bpb.num_sectors_per_fat == 0 {
                    bpb.sectors_per_fat
                } else {
                    bpb.num_sectors_per_fat as u32
                };
                let partition = Partition { start: st, sector_size: bps as u64 };
                let cache = CachedDevice::new(device, partition);
                let fat_start_sector = st + bpb.num_reserved_sectors as u64;
                proof {
                    assert((sectors as int) * (bpb.num_file_allocation_tables as int) <= 0x1_0000_0000 * 256) by (nonlinear_arith)
                        requires
                            sectors < 0x1_0000_0000,
                            bpb.num_file_allocation_tables < 256,
                    ;
                }
                let data_start_sector = fat_start_sector + (sectors as u64) * (bpb.num_file_allocation_tables as u64);
                let vfat = VFat {
                    device: cache,
                    bytes_per_sector: bps,
                    sectors_per_cluster: spc,
                    sectors_per_fat: sectors,
                    fat_start_sector,
                    data_start_sector,
                    root_dir_cluster: Cluster::from(bpb.cluster_num_root_dir),
                };
                proof {
                    assert(first_fat32(b0, i as int));
                    assert(vfat.root_dir_cluster.0 == bpb.cluster_num_root_dir & 0x0FFF_FFFFu32);
                    assert(vfat.device.wf());
                    assert(vfat.wf());
                }
                return Ok(vfat);
            }
            i += 1;
        }
        Err(Error::NotFound)
    }

    /// The geometry is usable and the cache is well formed.
    pub open spec fn wf(&self) -> bool {
        &&& self.device.wf()
        &&& self.device.partition.sector_size == self.bytes_per_sector as u64
        &&& self.bytes_per_sector > 0
        &&& self.bytes_per_sector % 4 == 0
        &&& self.sectors_per_cluster > 0
        &&& self.device.partition.start <= self.fat_start_sector
        &&& self.fat_start_sector <= self.data_start_sector
        &&& self.data_start_sector < 0x200_0000_0000
    }

    /// `self` and `other` describe the same volume on the same disk.
    pub open spec fn same_volume(&self, other: &Self) -> bool {
        &&& same_disk(&self.device.device, &other.device.device)
        &&& self.device.partition == other.device.partition
        &&& self.bytes_per_sector == other.bytes_per_sector
        &&& self.sectors_per_cluster == other.sectors_per_cluster
        &&& self.sectors_per_fat == other.sectors_per_fat
        &&& self.fat_start_sector == other.fat_start_sector
        &&& self.data_start_sector == other.data_start_sector
        &&& self.root_dir_cluster == other.root_dir_cluster
    }

    /// Size in bytes of a cluster.
    pub open spec fn cluster_size(&self) -> nat {
        self.bytes_per_sector as nat * self.sectors_per_cluster as nat
    }

    /// The first sector of data cluster `c`.
    pub open spec fn cluster_sector(&self, c: Cluster) -> int {
        self.data_start_sector + (c.0 - 2) * self.sectors_per_cluster
    }

    /// Byte `o` of cluster `c`.
    pub open spec fn cluster_byte(&self, c: Cluster, o: int) -> u8 {
        self.device.sector_view(
            (self.cluster_sector(c) + o / self.bytes_per_sector as int) as u64,
        )[o % self.bytes_per_sector as int]
    }

    /// The raw FAT word of cluster `c`.
    pub open spec fn fat_word(&self, c: Cluster) -> u32 {
        let at = c.0 * 4;
        le32(
            self.device.sector_view(
                (self.fat_start_sector + at / self.bytes_per_sector as int) as u64,
            ),
            at % self.bytes_per_sector as int,
        ) as u32
    }

    /// The status of cluster `c` in the FAT.
    pub open spec fn fat_status(&self, c: Cluster) -> Status {
        status_of(self.fat_word(c))
    }

    pub proof fn lemma_same_volume(&self, other: &Self)
        requires
            self.same_volume(other),
        ensures
            forall|c: Cluster, o: int| #[trigger] self.cluster_byte(c, o) == other.cluster_byte(c, o),
            forall|c: Cluster| #[trigger] self.fat_word(c) == other.fat_word(c),
            forall|c: Cluster| #[trigger] self.fat_status(c) == other.fat_status(c),
    {
        assert forall|c: Cluster, o: int| #[trigger] self.cluster_byte(c, o) == other.cluster_byte(c, o) by {
            self.device.lemma_view_same_disk(
                &other.device,
                (self.cluster_sector(c) + o / self.bytes_per_sector as int) as u64,
            );
        }
        assert forall|c: Cluster| #[trigger] self.fat_word(c) == other.fat_word(c) by {
            self.device.lemma_view_same_disk(
                &other.device,
                (self.fat_start_sector + (c.0 * 4) / self.bytes_per_sector as int) as u64,
            );
        }
    }

    /// A sector below `SECTOR_LIMIT` at or after the partition start is a
    /// whole logical sector whose physical sectors can be numbered.
    proof fn lemma_sector_ok(&self, s: u64)
        requires
            self.wf(),
            self.device.partition.start <= s < SECTOR_LIMIT,
        ensures
            self.device.in_range(s),
            self.device.span(s) * self.device.phys_size() == self.bytes_per_sector,
    {
        let ss = self.device.phys_size();
        let f = self.device.factor();
        let st = self.device.partition.start;
        let bps = self.bytes_per_sector as nat;
        assert(f * ss == bps) by (nonlinear_arith)
            requires
                f == bps / ss,
                bps % ss == 0,
                ss > 0,
        ;
        assert(f <= 65536) by (nonlinear_arith)
            requires
                f * ss == bps,
                bps < 65536,
                ss > 0,
        ;
        assert((s - st) * f <= 0x400_0000_0000 * 65536) by (nonlinear_arith)
            requires
                0 <= s - st < 0x400_0000_0000,
                f <= 65536,
        ;
    }

    /// Reads from byte `offset` of cluster `cluster` into `buf`, as many bytes
    /// as fit in `buf` and remain in the cluster, and returns that number.
    ///
    /// Fails with `InvalidData` if `cluster` is not a data cluster (below 2),
    /// and with `Io` if the device fails.
    pub fn read_cluster(&mut self, cluster: Cluster, offset: usize, buf: &mut [u8]) -> (r: Result<usize, Error>)
        requires
            old(self).wf(),
            offset <= old(self).cluster_size(),
        ensures
            final(self).wf(),
            final(self).same_volume(old(self)),
            final(buf)@.len() == old(buf)@.len(),
            r matches Ok(n) ==> {
                &&& n == vstd::math::min(old(buf)@.len() as int, old(self).cluster_size() - offset)
                &&& forall|i: int| 0 <= i < n ==> #[trigger] final(buf)@[i] == old(self).cluster_byte(cluster, offset + i)
                &&& forall|i: int| n <= i < old(buf)@.len() ==> #[trigger] final(buf)@[i] == old(buf)@[i]
            },
            r matches Err(e) ==> e is Io || (e is InvalidData && cluster.0 < 2),
            cluster.0 < 2 ==> r matches Err(Error::InvalidData),
    {
        if cluster.0 < 2 {
            return Err(Error::InvalidData);
        }
        let ghost start = *self;
        let bps = self.bytes_per_sector as usize;
        let spc = self.sectors_per_cluster as usize;
        proof {
            assert(bps * spc < 0x100_0000) by (nonlinear_arith)
                requires
                    bps < 0x1_0000,
                    spc < 0x100,
            ;
            assert((cluster.0 - 2) * spc <= 0x1_0000_0000 * 256) by (nonlinear_arith)
                requires
                    cluster.0 < 0x1_0000_0000,
                    spc < 256,
            ;
        }
        let len_bytes_cluster = bps * spc;
        let first_sector = self.data_start_sector + ((cluster.0 - 2) as u64) * (spc as u64);
        let mut sector: u64 = first_sector + (offset / bps) as u64;
        let len_to_read = if buf.len() < len_bytes_cluster - offset {
            buf.len()
        } else {
            len_bytes_cluster - offset
        };
        let mut bytes_remain: usize = offset % bps;
        let mut read: usize = 0;
        proof {
            assert(offset / bps <= spc) by (nonlinear_arith)
                requires
                    offset <= bps * spc,
                    bps > 0,
            ;
            assert((cluster.0 - 2) * spc <= 0x1_0000_0000 * 256) by (nonlinear_arith)
                requires
                    cluster.0 < 0x1_0000_0000,
                    spc < 256,
            ;
            vstd::arithmetic::div_mod::lemma_fundamental_div_mod(offset as int, bps as int);
        }
        while read < len_to_read
            invariant
                start == *old(self),
                self.wf(),
                self.same_volume(&start),
                start.wf(),
                bps == start.bytes_per_sector,
                spc == start.sectors_per_cluster,
                len_bytes_cluster == start.cluster_size(),
                cluster.0 >= 2,
                first_sector == start.cluster_sector(cluster),
                first_sector < 0x200_0000_0000 + 0x1_0000_0000 * 256,
                len_to_read == vstd::math::min(old(buf)@.len() as int, len_bytes_cluster - offset),
                offset <= len_bytes_cluster,
                read <= len_to_read,
                buf@.len() == old(buf)@.len(),
                read < len_to_read ==> sector == first_sector + (offset + read) / (bps as int),
                read < len_to_read ==> bytes_remain == (offset + read) % (bps as int),
                forall|i: int| 0 <= i < read ==> #[trigger] buf@[i] == start.cluster_byte(cluster, offset + i),
                forall|i: int| read <= i < buf@.len() ==> #[trigger] buf@[i] == old(buf)@[i],
            decreases len_to_read - read,
        {
            proof {
                assert((offset + read) / (bps as int) < spc) by (nonlinear_arith)
                    requires
                        offset + read < bps * spc,
                        bps > 0,
                ;
                start.lemma_sector_ok(sector);
                start.lemma_same_volume(self);
            }
            let sector_data = match self.device.get(sector) {
                Ok(d) => d,
                Err(e) => {
                    proof {
                        assert(self.same_volume(&start));
                    }
                    return Err(e);
                },
            };
            let len_copy = if len_to_read - read < bps - bytes_remain {
                len_to_read - read
            } else {
                bps - bytes_remain
            };
            let mut j: usize = 0;
            while j < len_copy
                invariant
                    j <= len_copy,
                    len_copy <= bps - bytes_remain,
                    read + len_copy <= len_to_read,
                    len_to_read <= buf@.len(),
                    bytes_remain < bps,
                    sector_data@.len() == bps,
                    buf@.len() == old(buf)@.len(),
                    forall|i: int| 0 <= i < read ==> #[trigger] buf@[i] == start.cluster_byte(cluster, offset + i),
                    forall|i: int| 0 <= i < j ==> #[trigger] buf@[read + i] == sector_data@[bytes_remain + i],
                    forall|i: int| read + j <= i < buf@.len() ==> #[trigger] buf@[i] == old(buf)@[i],
                decreases len_copy - j,
            {
                buf[read + j] = sector_data[bytes_remain + j];
                j += 1;
            }
            proof {
                start.lemma_same_volume(self);
                assert forall|i: int| 0 <= i < read + len_copy implies #[trigger] buf@[i] == start.cluster_byte(
                    cluster,
                    offset + i,
                ) by {
                    if i >= read {
                        let k = i - read;
                        assert(buf@[read + k] == sector_data@[bytes_remain + k]);
                        let q = (offset + read) / (bps as int);
                        vstd::arithmetic::div_mod::lemma_fundamental_div_mod(offset + read, bps as int);
                        vstd::arithmetic::div_mod::lemma_fundamental_div_mod_converse(
                            offset + i,
                            bps as int,
                            q,
                            bytes_remain + k,
                        );
                    }
                }
                let old_pos = offset + read;
                let new_pos = offset + read + len_copy;
                if read + len_copy < len_to_read {
                    assert(len_copy == bps - bytes_remain);
                    vstd::arithmetic::div_mod::lemma_fundamental_div_mod(old_pos, bps as int);
                    let q = old_pos / (bps as int);
                    assert(new_pos == (q + 1) * bps) by (nonlinear_arith)
                        requires
                            old_pos == bps * q + bytes_remain,
                            new_pos == old_pos + bps - bytes_remain,
                    ;
                    vstd::arithmetic::div_mod::lemma_fundamental_div_mod_converse(
                        new_pos,
                        bps as int,
                        old_pos / (bps as int) + 1,
                        0,
                    );
                }
            }
            bytes_remain = 0;
            sector = sector + 1;
            read = read + len_copy;
        }
        Ok(read)
    }

    /// Returns the FAT entry of `cluster`, read through the cache.
    ///
    /// Fails only with `Io`, if the device fails.
    pub fn fat_entry(&mut self, cluster: Cluster) -> (r: Result<FatEntry, Error>)
        requires
            old(self).wf(),
        ensures
            final(self).wf(),
            final(self).same_volume(old(self)),
            r matches Ok(e) ==> e.0 == old(self).fat_word(cluster),
            r matches Err(e) ==> e is Io,
    {
        let bps = self.bytes_per_sector as u64;
        let at = (cluster.0 as u64) * 4;
        let sector_whole = at / bps;
        let bytes_remainder = (at % bps) as usize;
        let sector = self.fat_start_sector + sector_whole;
        proof {
            assert(sector_whole <= at);
            self.lemma_sector_ok(sector);
            let q = at as int / bps as int;
            let m = bps as int / 4;
            vstd::arithmetic::div_mod::lemma_fundamental_div_mod(at as int, bps as int);
            vstd::arithmetic::div_mod::lemma_fundamental_div_mod(bps as int, 4);
            let k = cluster.0 - m * q;
            assert(bytes_remainder == 4 * k) by (nonlinear_arith)
                requires
                    at == bps * q + bytes_remainder,
                    at == cluster.0 * 4,
                    bps == 4 * m,
                    k == cluster.0 - m * q,
            ;
            assert(bytes_remainder + 4 <= bps);
        }
        let ghost before = *self;
        let data = self.device.get(sector)?;
        let word = read_u32_le(data, bytes_remainder);
        proof {
            before.lemma_same_volume(self);
        }
        Ok(FatEntry(word))
    }
}


impl<D: BlockDevice> VFat<D> {
    /// Cluster `i` of the chain that begins at `start`, following `Data` links.
    pub open spec fn walk(&self, start: Cluster, i: nat) -> Cluster
        decreases i,
    {
        if i == 0 {
            start
        } else {
            match self.fat_status(self.walk(start, (i - 1) as nat)) {
                Status::Data(n) => n,
                _ => self.walk(start, (i - 1) as nat),
            }
        }
    }

    /// The first `n` clusters of the chain from `start` each link to a next one.
    pub open spec fn linked(&self, start: Cluster, n: nat) -> bool {
        forall|i: nat| i < n ==> #[trigger] self.fat_status(self.walk(start, i)) is Data
    }

    /// The chain from `start` has exactly `len` clusters: each but the last
    /// links to the next, and the last ends the chain.
    pub open spec fn chain_has_len(&self, start: Cluster, len: nat) -> bool {
        &&& len >= 1
        &&& self.linked(start, (len - 1) as nat)
        &&& self.fat_status(self.walk(start, (len - 1) as nat)) is Eoc
    }

    /// No cluster occurs twice among the first `len` clusters of the chain.
    pub open spec fn chain_distinct(&self, start: Cluster, len: nat) -> bool {
        forall|i: nat, j: nat| i < j < len ==> #[trigger] self.walk(start, i) != #[trigger] self.walk(start, j)
    }

    /// The chain from `start` is a valid file chain of `len` clusters: it
    /// begins at a data cluster, ends, and has no cycle.
    pub open spec fn valid_chain(&self, start: Cluster, len: nat) -> bool {
        &&& start.0 >= 2
        &&& self.chain_has_len(start, len)
        &&& self.chain_distinct(start, len)
    }

    /// The bytes of the first `len` clusters of the chain from `start`.
    pub open spec fn chain_bytes(&self, start: Cluster, len: nat) -> Seq<u8> {
        Seq::new(
            len * self.cluster_size(),
            |i: int| self.cluster_byte(self.walk(start, (i / self.cluster_size() as int) as nat), i % self.cluster_size() as int),
        )
    }

    proof fn lemma_walk_same_volume(&self, other: &Self, start: Cluster, i: nat)
        requires
            self.same_volume(other),
        ensures
            self.walk(start, i) == other.walk(start, i),
        decreases i,
    {
        self.lemma_same_volume(other);
        if i > 0 {
            self.lemma_walk_same_volume(other, start, (i - 1) as nat);
        }
    }

    /// Chains, their lengths and their bytes are the same on two views of
    /// one volume.
    pub proof fn lemma_same_chains(&self, other: &Self, c: Cluster)
        requires
            self.same_volume(other),
        ensures
            self.cluster_size() == other.cluster_size(),
            forall|len: nat| #[trigger] self.chain_has_len(c, len) == other.chain_has_len(c, len),
            forall|len: nat| #[trigger] self.chain_bytes(c, len) == other.chain_bytes(c, len),
    {
        self.lemma_walks_same(other, c);
        self.lemma_same_volume(other);
        assert forall|len: nat| #[trigger] self.chain_has_len(c, len) == other.chain_has_len(c, len) by {
            if len >= 1 {
                assert(self.walk(c, (len - 1) as nat) == other.walk(c, (len - 1) as nat));
                let n = (len - 1) as nat;
                if self.linked(c, n) {
                    assert forall|i: nat| i < n implies #[trigger] other.fat_status(other.walk(c, i)) is Data by {
                        assert(self.walk(c, i) == other.walk(c, i));
                        assert(self.fat_status(self.walk(c, i)) is Data);
                    }
                }
                if other.linked(c, n) {
                    assert forall|i: nat| i < n implies #[trigger] self.fat_status(self.walk(c, i)) is Data by {
                        assert(self.walk(c, i) == other.walk(c, i));
                        assert(other.fat_status(other.walk(c, i)) is Data);
                    }
                }
            }
        }
        assert forall|len: nat| #[trigger] self.chain_bytes(c, len) == other.chain_bytes(c, len) by {
            assert(self.chain_bytes(c, len) =~= other.chain_bytes(c, len));
        }
    }

    /// Valid chains are the same on two views of one volume.
    pub proof fn lemma_same_valid_chain(&self, other: &Self, c: Cluster, len: nat)
        requires
            self.same_volume(other),
        ensures
            self.valid_chain(c, len) == other.valid_chain(c, len),
    {
        self.lemma_same_chains(other, c);
        self.lemma_walks_same(other, c);
        assert(self.chain_has_len(c, len) == other.chain_has_len(c, len));
        if self.chain_distinct(c, len) {
            assert forall|i: nat, j: nat| i < j < len implies #[trigger] other.walk(c, i) != #[trigger] other.walk(c, j) by {
                assert(self.walk(c, i) != self.walk(c, j));
            }
        }
        if other.chain_distinct(c, len) {
            assert forall|i: nat, j: nat| i < j < len implies #[trigger] self.walk(c, i) != #[trigger] self.walk(c, j) by {
                assert(other.walk(c, i) != other.walk(c, j));
            }
        }
    }

    proof fn lemma_walks_same(&self, other: &Self, c: Cluster)
        requires
            self.same_volume(other),
        ensures
            forall|i: nat| #[trigger] self.walk(c, i) == other.walk(c, i),
    {
        assert forall|i: nat| #[trigger] self.walk(c, i) == other.walk(c, i) by {
            self.lemma_walk_same_volume(other, c, i);
        }
    }

    /// A chain that ends has one length only.
    pub proof fn lemma_chain_len_unique(&self, c: Cluster, a: nat, b: nat)
        requires
            self.chain_has_len(c, a),
            self.chain_has_len(c, b),
        ensures
            a == b,
    {
        if a < b {
            assert(self.fat_status(self.walk(c, (a - 1) as nat)) is Data);
        } else if b < a {
            assert(self.fat_status(self.walk(c, (b - 1) as nat)) is Data);
        }
    }

    /// A cluster reached through a link is a data cluster below 2^28.
    pub proof fn lemma_linked_target(&self, start: Cluster, i: nat)
        requires
            self.fat_status(self.walk(start, i)) is Data,
        ensures
            2 <= self.walk(start, i + 1).0 < MAX_CHAIN_LINKS,
    {
        let raw = self.fat_word(self.walk(start, i));
        assert(raw & 0x0FFF_FFFFu32 <= 0x0FFF_FFFFu32) by (bit_vector);
    }

    /// A chain without repeats cannot be longer than there are cluster numbers.
    proof fn lemma_chain_bound(&self, start: Cluster, len: nat)
        requires
            self.chain_has_len(start, len),
            self.chain_distinct(start, len),
        ensures
            len <= MAX_CHAIN_LINKS + 1,
    {
        let s = Seq::new((len - 1) as nat, |i: int| self.walk(start, (i + 1) as nat).0 as int);
        assert(s.no_duplicates()) by {
            assert forall|i: int, j: int| 0 <= i < s.len() && 0 <= j < s.len() && i != j implies s[i] != s[j] by {
                if i < j {
                    assert(self.walk(start, (i + 1) as nat) != self.walk(start, (j + 1) as nat));
                } else {
                    assert(self.walk(start, (j + 1) as nat) != self.walk(start, (i + 1) as nat));
                }
            }
        }
        s.unique_seq_to_set();
        let range = vstd::set_lib::set_int_range(0, MAX_CHAIN_LINKS as int);
        vstd::set_lib::lemma_int_range(0, MAX_CHAIN_LINKS as int);
        assert forall|x: int| s.to_set().contains(x) implies range.contains(x) by {
            let i = choose|i: int| 0 <= i < s.len() && s[i] == x;
            assert(self.fat_status(self.walk(start, i as nat)) is Data);
            self.lemma_linked_target(start, i as nat);
        }
        vstd::set_lib::lemma_len_subset(s.to_set(), range);
    }

    /// No position before `n` holds the same cluster as the position the
    /// fast cursor of the cycle check reaches from it, `2 * t + 1`.
    pub open spec fn no_meet(&self, start: Cluster, n: nat) -> bool {
        forall|t: nat| t < n ==> #[trigger] self.walk(start, t) != self.walk(start, 2 * t + 1)
    }

    proof fn lemma_walk_shift(&self, start: Cluster, i: nat, j: nat)
        requires
            self.walk(start, i) == self.walk(start, j),
        ensures
            self.walk(start, i + 1) == self.walk(start, j + 1),
    {
        assert(((i + 1) - 1) as nat == i);
        assert(((j + 1) - 1) as nat == j);
    }

    proof fn lemma_walk_step_period(&self, start: Cluster, j: nat, p: nat, m: nat)
        requires
            self.walk(start, j) == self.walk(start, j + p),
        ensures
            self.walk(start, j + m) == self.walk(start, j + m + p),
        decreases m,
    {
        if m > 0 {
            self.lemma_walk_step_period(start, j, p, (m - 1) as nat);
            self.lemma_walk_shift(start, (j + m - 1) as nat, (j + m - 1 + p) as nat);
        }
    }

    proof fn lemma_walk_periodic(&self, start: Cluster, j: nat, p: nat, m: nat, k: nat)
        requires
            self.walk(start, j) == self.walk(start, j + p),
        ensures
            self.walk(start, j + m) == self.walk(start, j + m + k * p),
        decreases k,
    {
        if k == 0 {
            assert(k * p == 0) by (nonlinear_arith)
                requires
                    k == 0,
            ;
        } else {
            self.lemma_walk_periodic(start, j, p, m, (k - 1) as nat);
            let x: nat = m + ((k - 1) as nat) * p;
            self.lemma_walk_step_period(start, j, p, x);
            assert(j + x + p == j + m + k * p) by (nonlinear_arith)
                requires
                    x == m + (k - 1) * p,
            ;
        }
    }

    /// If a cluster repeats at positions `j < i`, the cycle check finds a
    /// position `t` with `j <= t < i` whose cluster the fast cursor also holds.
    proof fn lemma_floyd_meet(&self, start: Cluster, j: nat, i: nat) -> (t: nat)
        requires
            j < i,
            self.walk(start, j) == self.walk(start, i),
        ensures
            j <= t < i,
            self.walk(start, t) == self.walk(start, 2 * t + 1),
    {
        let p = (i - j) as nat;
        let k = (j / p + 1) as nat;
        let t = (k * p - 1) as nat;
        vstd::arithmetic::div_mod::lemma_fundamental_div_mod(j as int, p as int);
        assert(j < k * p <= j + p) by (nonlinear_arith)
            requires
                j == p * (j / p) + j % p,
                0 <= j % p < p,
                k == j / p + 1,
        ;
        let m = (t - j) as nat;
        assert(self.walk(start, j) == self.walk(start, j + p));
        self.lemma_walk_periodic(start, j, p, m, k);
        assert(j + m + k * p == 2 * t + 1);
        t
    }

    /// Positions before `n` hold different clusters when the cycle check met
    /// at none of them.
    pub proof fn lemma_no_meet_distinct(&self, start: Cluster, n: nat)
        requires
            self.no_meet(start, n),
        ensures
            self.chain_distinct(start, n),
    {
        assert forall|a: nat, b: nat| a < b < n implies #[trigger] self.walk(start, a) != #[trigger] self.walk(start, b) by {
            if self.walk(start, a) == self.walk(start, b) {
                let t = self.lemma_floyd_meet(start, a, b);
                assert(self.walk(start, t) != self.walk(start, 2 * t + 1));
            }
        }
    }

    /// Where the slow cursor of the cycle check stands, at `t`, after the
    /// check found no meeting there, positions up to `t` hold different
    /// clusters; `some` tells whether the fast cursor, at `hp`, is still on
    /// the chain.
    proof fn lemma_cursor_distinct(&self, start: Cluster, t: nat, hp: nat, some: bool)
        requires
            some ==> hp == 2 * t + 1 && self.no_meet(start, t) && self.walk(start, t) != self.walk(start, hp),
            !some ==> self.chain_has_len(start, hp + 1) && t <= hp,
        ensures
            self.chain_distinct(start, t + 1),
            some ==> self.no_meet(start, t + 1),
    {
        if some {
            assert(self.no_meet(start, t + 1));
            self.lemma_no_meet_distinct(start, t + 1);
        } else {
            self.lemma_ended_distinct(start, hp + 1);
        }
    }

    /// A chain that ends has no repeated cluster before its end.
    pub proof fn lemma_ended_distinct(&self, start: Cluster, len: nat)
        requires
            self.chain_has_len(start, len),
        ensures
            self.chain_distinct(start, len),
    {
        assert forall|a: nat, b: nat| a < b < len implies #[trigger] self.walk(start, a) != #[trigger] self.walk(start, b) by {
            if self.walk(start, a) == self.walk(start, b) {
                let p = (b - a) as nat;
                let e = (len - 1) as nat;
                let k = ((e - a) / (p as int)) as nat;
                let m = ((e - a) % (p as int)) as nat;
                vstd::arithmetic::div_mod::lemma_fundamental_div_mod((e - a) as int, p as int);
                assert(k >= 1) by (nonlinear_arith)
                    requires
                        e - a == p * k + m,
                        m < p,
                        e - a >= p,
                ;
                assert(self.walk(start, a) == self.walk(start, a + p));
                self.lemma_walk_periodic(start, a, p, m, k);
                assert(a + m + k * p == e) by (nonlinear_arith)
                    requires
                        e - a == p * k + m,
                ;
                assert(a + m < e) by (nonlinear_arith)
                    requires
                        k >= 1,
                        p >= 1,
                        e == a + m + k * p,
                ;
                assert(self.fat_status(self.walk(start, a + m)) is Data);
            }
        }
    }

    /// No valid chain from `start` passes a cluster whose entry neither links
    /// nor ends the chain.
    proof fn lemma_bad_link(&self, start: Cluster, p: nat)
        requires
            self.linked(start, p),
            !(self.fat_status(self.walk(start, p)) is Data),
            !(self.fat_status(self.walk(start, p)) is Eoc),
        ensures
            forall|len: nat| !#[trigger] self.valid_chain(start, len),
    {
        assert forall|len: nat| !#[trigger] self.valid_chain(start, len) by {
            if self.valid_chain(start, len) {
                if p + 1 < len {
                    assert(self.fat_status(self.walk(start, p)) is Data);
                } else if p + 1 > len {
                    assert(self.fat_status(self.walk(start, (len - 1) as nat)) is Data);
                }
            }
        }
    }

    /// No valid chain from `start` meets the same cluster at two positions.
    proof fn lemma_repeat(&self, start: Cluster, t: nat, p: nat)
        requires
            t < p,
            self.linked(start, p),
            self.walk(start, t) == self.walk(start, p),
        ensures
            forall|len: nat| !#[trigger] self.valid_chain(start, len),
    {
        assert forall|len: nat| !#[trigger] self.valid_chain(start, len) by {
            if self.valid_chain(start, len) {
                if p >= len {
                    assert(self.fat_status(self.walk(start, (len - 1) as nat)) is Data);
                }
                assert(self.walk(start, t) != self.walk(start, p));
            }
        }
    }

    /// No valid chain from `start` reaches a cluster numbered below 2.
    proof fn lemma_low_cluster(&self, start: Cluster, t: nat)
        requires
            self.linked(start, t),
            self.walk(start, t).0 < 2,
        ensures
            forall|len: nat| !#[trigger] self.valid_chain(start, len),
    {
        if t > 0 {
            assert(self.fat_status(self.walk(start, (t - 1) as nat)) is Data);
            self.lemma_linked_target(start, (t - 1) as nat);
        }
    }

    /// No valid chain from `start` has more than `t` links once `t` exceeds
    /// the number of cluster numbers.
    proof fn lemma_too_long(&self, start: Cluster, t: nat)
        requires
            self.linked(start, t),
            t > MAX_CHAIN_LINKS,
        ensures
            forall|len: nat| !#[trigger] self.valid_chain(start, len),
    {
        assert forall|len: nat| !#[trigger] self.valid_chain(start, len) by {
            if self.valid_chain(start, len) {
                self.lemma_chain_bound(start, len);
                assert(self.fat_status(self.walk(start, (len - 1) as nat)) is Data);
            }
        }
    }

    /// The bytes of a cluster, in order.
    pub open spec fn cluster_bytes(&self, c: Cluster) -> Seq<u8> {
        Seq::new(self.cluster_size(), |o: int| self.cluster_byte(c, o))
    }

    proof fn lemma_chain_bytes_step(&self, start: Cluster, t: nat)
        requires
            self.cluster_size() > 0,
        ensures
            self.chain_bytes(start, t + 1) == self.chain_bytes(start, t) + self.cluster_bytes(self.walk(start, t)),
    {
        let cs = self.cluster_size() as int;
        let a = self.chain_bytes(start, t + 1);
        let b = self.chain_bytes(start, t) + self.cluster_bytes(self.walk(start, t));
        assert(a.len() == b.len()) by (nonlinear_arith)
            requires
                a.len() == (t + 1) * cs,
                b.len() == t * cs + cs,
        ;
        assert forall|i: int| 0 <= i < a.len() implies a[i] == b[i] by {
            if i >= t * cs {
                vstd::arithmetic::div_mod::lemma_fundamental_div_mod_converse(i, cs, t as int, i - t * cs);
            }
        }
        assert(a =~= b);
    }

    /// Appends the bytes of cluster `c` to `buf`.
    fn append_cluster(&mut self, c: Cluster, buf: &mut Vec<u8>) -> (r: Result<(), Error>)
        requires
            old(self).wf(),
        ensures
            final(self).wf(),
            final(self).same_volume(old(self)),
            r is Ok ==> final(buf)@ == old(buf)@ + old(self).cluster_bytes(c),
            r is Err ==> final(buf)@ == old(buf)@,
            r matches Err(e) ==> e is Io || (e is InvalidData && c.0 < 2),
    {
        proof {
            assert((self.bytes_per_sector as nat) * (self.sectors_per_cluster as nat) < 0x100_0000) by (nonlinear_arith)
                requires
                    self.bytes_per_sector < 0x1_0000,
                    self.sectors_per_cluster < 0x100,
            ;
        }
        let cs = (self.bytes_per_sector as usize) * (self.sectors_per_cluster as usize);
        let mut tmp: Vec<u8> = vec![0u8; cs];
        self.read_cluster(c, 0, tmp.as_mut_slice())?;
        buf.extend_from_slice(tmp.as_slice());
        proof {
            assert(buf@ =~= old(buf)@ + old(self).cluster_bytes(c));
        }
        Ok(())
    }

    /// Classifies the FAT entry of `cluster`.
    fn status_of_cluster(&mut self, cluster: Cluster) -> (r: Result<Status, Error>)
        requires
            old(self).wf(),
        ensures
            final(self).wf(),
            final(self).same_volume(old(self)),
            r matches Ok(st) ==> st == old(self).fat_status(cluster),
            r matches Err(e) ==> e is Io,
    {
        let e = self.fat_entry(cluster)?;
        Ok(e.status())
    }

    /// Moves a cursor on a chain one link forward: to the next cluster, or to
    /// `None` past the end of the chain. Fails with `InvalidData` on a link to
    /// a free, reserved or bad cluster.
    pub(crate) fn follow_link(&mut self, hare: Option<Cluster>) -> (r: Result<Option<Cluster>, Error>)
        requires
            old(self).wf(),
        ensures
            final(self).wf(),
            final(self).same_volume(old(self)),
            hare is None ==> r == Ok::<Option<Cluster>, Error>(None),
            hare matches Some(h) ==> match r {
                Ok(Some(n)) => old(self).fat_status(h) == Status::Data(n),
                Ok(None) => old(self).fat_status(h) is Eoc,
                Err(e) => e is Io || (e is InvalidData && !(old(self).fat_status(h) is Data)
                    && !(old(self).fat_status(h) is Eoc)),
            },
    {
        match hare {
            None => Ok(None),
            Some(h) => {
                match self.status_of_cluster(h)? {
                    Status::Data(n) => Ok(Some(n)),
                    Status::Eoc(_) => Ok(None),
                    _ => Err(Error::InvalidData),
                }
            },
        }
    }

    /// Reads every cluster of the chain that begins at `start` into `buf`,
    /// which is cleared first, and returns the number of bytes read.
    ///
    /// A second cursor moves two links for each link of the first; if the two
    /// ever meet, the chain has a cycle and reading fails with `InvalidData`,
    /// as it does on a link to a free, reserved or bad cluster. A chain that
    /// has followed more links than there are cluster numbers must repeat a
    /// cluster and fails the same way; this bounds the loop, and a chain
    /// without repeats never reaches it. On failure `buf` holds the first
    /// clusters of the chain, none of them twice: it never grows past the
    /// clusters the chain reaches.
    #[verifier::rlimit(100)]
    pub fn read_chain(&mut self, start: Cluster, buf: &mut Vec<u8>) -> (r: Result<usize, Error>)
        requires
            old(self).wf(),
        ensures
            final(self).wf(),
            final(self).same_volume(old(self)),
            r matches Ok(n) ==> exists|len: nat| {
                &&& #[trigger] old(self).chain_has_len(start, len)
                &&& n == len * old(self).cluster_size()
                &&& final(buf)@ == old(self).chain_bytes(start, len)
            },
            r matches Err(e) ==> e is Io || e is InvalidData,
            r is Err ==> exists|t: nat| {
                &&& t <= MAX_CHAIN_LINKS + 1
                &&& final(buf)@ == #[trigger] old(self).chain_bytes(start, t)
                &&& old(self).chain_distinct(start, t)
            },
            forall|len: nat| #[trigger] old(self).valid_chain(start, len) ==> !(r matches Err(Error::InvalidData)),
    {
        let ghost fs = *old(self);
        buf.clear();
        proof {
            assert(buf@ =~= fs.chain_bytes(start, 0));
        }
        let mut current = start;
        let mut hare: Option<Cluster> = None;
        let ghost mut hp: nat = 0;
        match self.status_of_cluster(current)? {
            Status::Data(x) => {
                hare = Some(x);
                proof {
                    hp = 1;
                }
            },
            Status::Eoc(_) => {},
            _ => {
                proof {
                    fs.lemma_bad_link(start, 0);
                }
                return Err(Error::InvalidData);
            },
        }
        proof {
            assert(buf@ =~= fs.chain_bytes(start, 0));
            assert(fs.cluster_size() > 0) by (nonlinear_arith)
                requires
                    fs.bytes_per_sector > 0,
                    fs.sectors_per_cluster > 0,
            ;
        }
        let mut t: u64 = 0;
        loop
            invariant
                fs == *old(self),
                self.wf(),
                self.same_volume(&fs),
                fs.cluster_size() > 0,
                t <= MAX_CHAIN_LINKS + 1,
                current == fs.walk(start, t as nat),
                fs.linked(start, t as nat),
                buf@ == fs.chain_bytes(start, t as nat),
                hare matches Some(h) ==> h == fs.walk(start, hp) && fs.linked(start, hp) && hp > t,
                hare is Some ==> hp == 2 * t + 1 && fs.no_meet(start, t as nat),
                hare is None ==> fs.chain_has_len(start, hp + 1) && t <= hp,
                fs.chain_distinct(start, t as nat),
            decreases MAX_CHAIN_LINKS + 1 - t,
        {
            if t > MAX_CHAIN_LINKS {
                proof {
                    fs.lemma_too_long(start, t as nat);
                }
                return Err(Error::InvalidData);
            }
            if let Some(h) = hare {
                if current.0 == h.0 {
                    proof {
                        fs.lemma_repeat(start, t as nat, hp);
                    }
                    return Err(Error::InvalidData);
                }
            }
            proof {
                fs.lemma_cursor_distinct(start, t as nat, hp, hare is Some);
            }
            let ghost before_read = *self;
            match self.append_cluster(current, buf) {
                Ok(()) => {},
                Err(e) => {
                    proof {
                        if e is InvalidData {
                            fs.lemma_low_cluster(start, t as nat);
                        }
                    }
                    return Err(e);
                },
            }
            proof {
                fs.lemma_same_volume(&before_read);
                assert(fs.cluster_bytes(current) =~= before_read.cluster_bytes(current));
                fs.lemma_chain_bytes_step(start, t as nat);
            }
            let ghost before_next = *self;
            match self.status_of_cluster(current)? {
                Status::Data(x) => {
                    current = x;
                },
                Status::Eoc(_) => {
                    proof {
                        fs.lemma_same_volume(&before_next);
                        assert(fs.chain_has_len(start, (t + 1) as nat));
                        assert(buf@.len() == (t + 1) as nat * fs.cluster_size());
                    }
                    return Ok(buf.len());
                },
                _ => {
                    proof {
                        fs.lemma_same_volume(&before_next);
                        fs.lemma_bad_link(start, t as nat);
                    }
                    return Err(Error::InvalidData);
                },
            }
            proof {
                fs.lemma_same_volume(&before_next);
                assert(fs.linked(start, (t + 1) as nat));
            }
            t = t + 1;
            let ghost before_hare = *self;
            hare = match self.follow_link(hare) {
                Ok(h) => h,
                Err(e) => {
                    proof {
                        fs.lemma_same_volume(&before_hare);
                        if e is InvalidData {
                            fs.lemma_bad_link(start, hp);
                        }
                    }
                    return Err(e);
                },
            };
            proof {
                fs.lemma_same_volume(&before_hare);
                if hare is Some {
                    hp = hp + 1;
                    assert(fs.linked(start, hp));
                }
            }
            let ghost before_hare2 = *self;
            hare = match self.follow_link(hare) {
                Ok(h) => h,
                Err(e) => {
                    proof {
                        fs.lemma_same_volume(&before_hare2);
                        if e is InvalidData {
                            fs.lemma_bad_link(start, hp);
                        }
                    }
                    return Err(e);
                },
            };
            proof {
                fs.lemma_same_volume(&before_hare2);
                if hare is Some {
                    hp = hp + 1;
                    assert(fs.linked(start, hp));
                }
            }
        }
    }
}

/// A chain in which cluster `a` links to `b` and `b` links back to `a`
/// never ends: no length describes it, so `read_chain` from `a` cannot
/// succeed and, having no cycle-free length, fails.
pub proof fn lemma_two_cycle_never_ends<D: BlockDevice>(fs: &VFat<D>, a: Cluster, b: Cluster)
    requires
        fs.fat_status(a) == Status::Data(b),
        fs.fat_status(b) == Status::Data(a),
    ensures
        forall|len: nat| !#[trigger] fs.chain_has_len(a, len),
{
    assert forall|i: nat| #[trigger] fs.walk(a, i) == a || fs.walk(a, i) == b by {
        lemma_two_cycle_walk(fs, a, b, i);
    }
    assert forall|len: nat| !#[trigger] fs.chain_has_len(a, len) by {
        if len >= 1 {
            let w = fs.walk(a, (len - 1) as nat);
            assert(w == a || w == b);
        }
    }
}

proof fn lemma_two_cycle_walk<D: BlockDevice>(fs: &VFat<D>, a: Cluster, b: Cluster, i: nat)
    requires
        fs.fat_status(a) == Status::Data(b),
        fs.fat_status(b) == Status::Data(a),
    ensures
        fs.walk(a, i) == a || fs.walk(a, i) == b,
    decreases i,
{
    if i > 0 {
        lemma_two_cycle_walk(fs, a, b, (i - 1) as nat);
    }
}

/// A chain has one length: `read_chain` on a chain of `len` clusters that
/// succeeds reads exactly `len` clusters' worth of bytes.
pub proof fn lemma_read_chain_length<D: BlockDevice>(fs: &VFat<D>, start: Cluster, len: nat, n: nat)
    requires
        fs.chain_has_len(start, len),
        exists|l: nat| #[trigger] fs.chain_has_len(start, l) && n == l * fs.cluster_size(),
    ensures
        n == len * fs.cluster_size(),
{
    let l = choose|l: nat| #[trigger] fs.chain_has_len(start, l) && n == l * fs.cluster_size();
    fs.lemma_chain_len_unique(start, l, len);
}

} // verus!
