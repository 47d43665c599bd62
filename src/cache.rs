use vstd::prelude::*;

use std::collections::HashMap;

use crate::device::{same_disk, BlockDevice};
use crate::error::Error;

verus! {

broadcast use vstd::std_specs::hash::group_hash_axioms;

/// Where a partition begins on the device and the size of its logical sectors.
#[derive(Copy, Clone, Debug, PartialEq, Eq, Structural)]
pub struct Partition {
    /// The physical sector where the partition begins.
    pub start: u64,
    /// The size, in bytes, of a logical sector in the partition.
    pub sector_size: u64,
}

/// A cached sector and whether it is marked for writing.
#[derive(Debug)]
pub struct CacheEntry {
    pub data: Vec<u8>,
    pub dirty: bool,
}

/// A block device whose sectors are read once and then kept in memory.
///
/// An access to a sector `n` before `partition.start` is made to physical
/// sector `n`, and cached at the device's sector size. An access to a sector
/// `n` at or after `partition.start` is made to the logical sector
/// `n - partition.start`: `factor` consecutive physical sectors, where
/// `factor` is the partition's sector size over the device's.
pub struct CachedDevice<D: BlockDevice> {
    pub device: D,
    pub cache: HashMap<u64, CacheEntry>,
    pub partition: Partition,
    /// The sectors read from this cache as a device, in order.
    pub served: Ghost<Seq<u64>>,
}

impl<D: BlockDevice> CachedDevice<D> {
    /// Size in bytes of a physical sector.
    pub open spec fn phys_size(&self) -> nat {
        self.device.spec_sector_size()
    }

    /// Number of physical sectors in a logical sector.
    pub open spec fn factor(&self) -> nat {
        self.partition.sector_size as nat / self.phys_size()
    }

    /// The first physical sector of sector `virt`.
    pub open spec fn first_physical(&self, virt: u64) -> int {
        if virt < self.partition.start {
            virt as int
        } else {
            self.partition.start + (virt - self.partition.start) * self.factor()
        }
    }

    /// Number of physical sectors that make up sector `virt`.
    pub open spec fn span(&self, virt: u64) -> nat {
        if virt < self.partition.start {
            1
        } else {
            self.factor()
        }
    }

    /// The physical sectors of `virt`, in order.
    pub open spec fn physical_run(&self, virt: u64) -> Seq<u64> {
        Seq::new(self.span(virt), |j: int| (self.first_physical(virt) + j) as u64)
    }

    /// Every physical sector of `virt` has a number that fits in a `u64`.
    pub open spec fn in_range(&self, virt: u64) -> bool {
        self.first_physical(virt) + self.span(virt) <= u64::MAX + 1
    }

    /// The bytes of sector `virt`: its physical sectors, one after another.
    pub open spec fn sector_view(&self, virt: u64) -> Seq<u8> {
        Seq::new(
            self.span(virt) * self.phys_size(),
            |i: int|
                self.device.sector_content(
                    (self.first_physical(virt) + i / self.phys_size() as int) as u64,
                )[i % self.phys_size() as int],
        )
    }

    /// The logical sector size is a positive multiple of the device's sector
    /// size, and a buffer of one logical sector can be allocated.
    pub open spec fn geometry_ok(&self) -> bool {
        &&& self.phys_size() > 0
        &&& self.partition.sector_size >= self.phys_size()
        &&& self.partition.sector_size as nat % self.phys_size() == 0
        &&& self.partition.sector_size <= usize::MAX
    }

    /// The cached sectors: their bytes and whether they are dirty.
    pub open spec fn cached(&self) -> Map<u64, (Seq<u8>, bool)> {
        Map::new(
            |k: u64| self.cache@.contains_key(k),
            |k: u64| (self.cache@[k].data@, self.cache@[k].dirty),
        )
    }

    /// Geometry holds and each cached sector holds the bytes of the device.
    pub open spec fn wf(&self) -> bool {
        &&& self.geometry_ok()
        &&& forall|k: u64| #[trigger] self.cached().contains_key(k) ==> self.cached()[k].0 == self.sector_view(k)
    }

    pub proof fn lemma_view_same_disk(&self, other: &Self, virt: u64)
        requires
            same_disk(&self.device, &other.device),
            self.partition == other.partition,
        ensures
            self.sector_view(virt) == other.sector_view(virt),
    {
        assert(self.sector_view(virt) =~= other.sector_view(virt));
    }

    /// Creates a cache in front of `device` for `partition`, with nothing cached.
    ///
    /// `partition.sector_size` must be a positive multiple of the device's
    /// sector size.
    pub fn new(device: D, partition: Partition) -> (r: CachedDevice<D>)
        requires
            device.spec_sector_size() > 0,
            partition.sector_size >= device.spec_sector_size(),
            partition.sector_size as nat % device.spec_sector_size() == 0,
            partition.sector_size <= usize::MAX,
        ensures
            r.wf(),
            r.device == device,
            r.partition == partition,
            r.cached() == Map::<u64, (Seq<u8>, bool)>::empty(),
    {
        let r = CachedDevice { device, cache: HashMap::new(), partition, served: Ghost(Seq::empty()) };
        assert(r.cached() =~= Map::<u64, (Seq<u8>, bool)>::empty());
        r
    }

    /// Maps a request for sector `virt` to its first physical sector and the
    /// number of physical sectors it spans; `None` if they do not fit in a `u64`.
    fn virtual_to_physical(&self, virt: u64) -> (r: Option<(u64, u64)>)
        requires
            self.geometry_ok(),
        ensures
            r is Some <==> self.in_range(virt),
            r matches Some(p) ==> p.0 == self.first_physical(virt) && p.1 == self.span(virt),
    {
        let ss = self.device.sector_size();
        if virt < self.partition.start {
            return Some((virt, 1));
        }
        let factor = self.partition.sector_size / ss;
        proof {
            assert(factor >= 1) by (nonlinear_arith)
                requires
                    factor == self.partition.sector_size / ss,
                    self.partition.sector_size >= ss,
                    ss > 0,
            ;
        }
        let logical_offset = virt - self.partition.start;
        match logical_offset.checked_mul(factor) {
            None => None,
            Some(physical_offset) => {
                match self.partition.start.checked_add(physical_offset) {
                    None => None,
                    Some(physical_sector) => {
                        if physical_sector.checked_add(factor - 1).is_some() {
                            Some((physical_sector, factor))
                        } else {
                            None
                        }
                    },
                }
            },
        }
    }

    /// Reads the physical sectors of `virt` into a fresh buffer.
    fn fetch(&mut self, virt: u64) -> (r: Result<Vec<u8>, Error>)
        requires
            old(self).geometry_ok(),
        ensures
            same_disk(&final(self).device, &old(self).device),
            final(self).partition == old(self).partition,
            final(self).cache == old(self).cache,
            final(self).served == old(self).served,
            r matches Err(e) ==> (e is Io || (e is InvalidInput && !old(self).in_range(virt))),
            !old(self).in_range(virt) ==> r matches Err(Error::InvalidInput),
            r matches Ok(v) ==> v@ == old(self).sector_view(virt),
            r is Ok ==> final(self).device.reads() == old(self).device.reads() + old(self).physical_run(virt),
    {
        let (physical_sector, factor) = match self.virtual_to_physical(virt) {
            Some(p) => p,
            None => {
                return Err(Error::InvalidInput);
            },
        };
        let ss = self.device.sector_size();
        let ghost ss_n = ss as int;
        let ghost start_dev = self.device;
        proof {
            assert(factor == old(self).span(virt));
            if virt < self.partition.start {
                assert(factor == 1);
                assert(factor * ss == ss);
            } else {
                assert(factor * ss <= self.partition.sector_size) by (nonlinear_arith)
                    requires
                        factor == self.partition.sector_size as nat / ss as nat,
                        ss > 0,
                ;
            }
        }
        let mut buf: Vec<u8> = Vec::new();
        let mut i: u64 = 0;
        while i < factor
            invariant
                self.geometry_ok(),
                same_disk(&self.device, &start_dev),
                self.partition == old(self).partition,
                self.cache == old(self).cache,
                self.served == old(self).served,
                self.device.reads() == start_dev.reads() + Seq::new(i as nat, |j: int| (physical_sector + j) as u64),
                ss == self.phys_size(),
                ss_n == ss,
                ss > 0,
                start_dev == old(self).device,
                i <= factor,
                factor * ss <= usize::MAX,
                physical_sector + factor <= u64::MAX + 1,
                physical_sector == old(self).first_physical(virt),
                factor == old(self).span(virt),
                buf@.len() == i * ss,
                forall|j: int|
                    0 <= j < buf@.len() ==> #[trigger] buf@[j] == start_dev.sector_content(
                        (physical_sector + j / ss_n) as u64,
                    )[j % ss_n],
            decreases factor - i,
        {
            proof {
                assert(i * ss + ss <= factor * ss) by (nonlinear_arith)
                    requires
                        i < factor,
                ;
            }
            let mut tmp: Vec<u8> = vec![0u8; ss as usize];
            match self.device.read_sector(physical_sector + i, tmp.as_mut_slice()) {
                Ok(_) => {},
                Err(e) => {
                    return Err(Error::Io(e));
                },
            }
            let ghost old_buf = buf@;
            proof {
                assert(start_dev.reads() + Seq::new((i + 1) as nat, |j: int| (physical_sector + j) as u64) =~= (
                start_dev.reads() + Seq::new(i as nat, |j: int| (physical_sector + j) as u64)).push((physical_sector + i) as u64));
            }
            buf.extend_from_slice(tmp.as_slice());
            proof {
                assert forall|j: int| 0 <= j < buf@.len() implies #[trigger] buf@[j] == start_dev.sector_content(
                    (physical_sector + j / ss_n) as u64,
                )[j % ss_n] by {
                    if j >= old_buf.len() {
                        let r = j - i * ss;
                        vstd::arithmetic::div_mod::lemma_fundamental_div_mod_converse(j, ss_n, i as int, r);
                        assert(buf@[j] == tmp@[r]);
                        assert(tmp@.subrange(0, ss as int)[r] == tmp@[r]);
                    } else {
                        assert(buf@[j] == old_buf[j]);
                    }
                }
            }
            i += 1;
            proof {
                assert(buf@.len() == i * ss) by (nonlinear_arith)
                    requires
                        buf@.len() == (i - 1) * ss + ss,
                ;
            }
        }
        proof {
            assert(buf@ =~= old(self).sector_view(virt));
            assert(Seq::new(factor as nat, |j: int| (physical_sector + j) as u64) =~= old(self).physical_run(virt));
        }
        Ok(buf)
    }

    /// Returns the bytes of sector `sector`, reading them from the device and
    /// caching them if the sector is not cached yet. A cached sector is served
    /// without touching the device.
    ///
    /// Fails with `Io` if the device fails, and with `InvalidInput` if the
    /// sector's physical sectors lie beyond the largest sector number.
    pub fn get(&mut self, sector: u64) -> (r: Result<&[u8], Error>)
        requires
            old(self).wf(),
        ensures
            final(self).wf(),
            same_disk(&final(self).device, &old(self).device),
            final(self).partition == old(self).partition,
            old(self).cached().contains_key(sector) ==> {
                &&& final(self).device == old(self).device
                &&& final(self).cached() == old(self).cached()
                &&& r is Ok
            },
            r matches Ok(b) ==> b@ == old(self).sector_view(sector),
            r is Ok ==> final(self).cached().contains_key(sector),
            r is Ok && !old(self).cached().contains_key(sector) ==> final(self).device.reads()
                == old(self).device.reads() + old(self).physical_run(sector),
            r is Ok && !old(self).cached().contains_key(sector) ==> final(self).cached()
                == old(self).cached().insert(sector, (old(self).sector_view(sector), false)),
            r is Err ==> final(self).cached() == old(self).cached(),
            r matches Err(e) ==> (e is Io || (e is InvalidInput && !old(self).in_range(sector))),
            !old(self).cached().contains_key(sector) && !old(self).in_range(sector) ==> r matches Err(
                Error::InvalidInput,
            ),
    {
        if !self.cache.contains_key(&sector) {
            let ghost before = *self;
            let data = match self.fetch(sector) {
                Ok(data) => data,
                Err(e) => {
                    proof {
                        assert(self.cached() =~= before.cached());
                        assert forall|k: u64| #[trigger] self.cached().contains_key(k) implies self.cached()[k].0
                            == self.sector_view(k) by {
                            before.lemma_view_same_disk(self, k);
                        }
                    }
                    return Err(e);
                },
            };
            proof {
                assert(self.cached() =~= before.cached());
            }
            self.cache.insert(sector, CacheEntry { data, dirty: false });
            proof {
                before.lemma_view_same_disk(self, sector);
                assert(self.cached() =~= before.cached().insert(sector, (before.sector_view(sector), false)));
                assert forall|k: u64| #[trigger] self.cached().contains_key(k) implies self.cached()[k].0
                    == self.sector_view(k) by {
                    before.lemma_view_same_disk(self, k);
                }
            }
        }
        proof {
            old(self).lemma_view_same_disk(self, sector);
            assert(self.cached().contains_key(sector));
            assert(self.cached()[sector].0 == old(self).sector_view(sector));
        }
        let entry = self.cache.get(&sector).unwrap();
        assert(entry.data@ == self.cached()[sector].0);
        Ok(entry.data.as_slice())
    }

    /// Returns the bytes of sector `sector` for writing, reading and caching
    /// them as `get` does, and marks the sector dirty; its cached bytes are
    /// not changed.
    pub fn get_mut(&mut self, sector: u64) -> (r: Result<&mut [u8], Error>)
        requires
            old(self).wf(),
        ensures
            same_disk(&final(self).device, &old(self).device),
            final(self).partition == old(self).partition,
            r matches Ok(b) ==> b@ == old(self).sector_view(sector),
            r matches Ok(b) ==> final(self).cached() == old(self).cached().insert(sector, (final(b)@, true)),
            r is Err ==> final(self).cached() == old(self).cached(),
            r matches Err(e) ==> (e is Io || (e is InvalidInput && !old(self).in_range(sector))),
            old(self).cached().contains_key(sector) ==> r is Ok,
            old(self).cached().contains_key(sector) ==> final(self).device == old(self).device,
    {
        let ghost before = *self;
        match self.get(sector) {
            Ok(_) => {},
            Err(e) => {
                return Err(e);
            },
        }
        proof {
            if before.cached().contains_key(sector) {
                assert(self.cached() == before.cached());
            } else {
                assert(self.cached() == before.cached().insert(sector, (before.sector_view(sector), false)));
            }
            assert(self.cached().contains_key(sector));
            assert(self.cached()[sector].0 == before.sector_view(sector));
        }
        let ghost mid = self.cache@;
        assert(mid.contains_key(sector));
        let entry = self.cache.entry(sector).or_insert(CacheEntry { data: Vec::new(), dirty: false });
        assert(entry.data@ == mid[sector].data@);
        entry.dirty = true;
        Ok(entry.data.as_mut_slice())
    }
}

/// Relies on `std::io::Error::new`: an error of kind `Interrupted` telling
/// that a sector is not in the cache.
#[verifier::external_body]
fn not_cached_error() -> std::io::Error {
    std::io::Error::new(std::io::ErrorKind::Interrupted, "sector not cached")
}

/// Relies on `std::io::Error::new`: an error of kind `Unsupported` telling
/// that the cache cannot be written.
#[verifier::external_body]
fn read_only_error() -> std::io::Error {
    std::io::Error::new(std::io::ErrorKind::Unsupported, "read-only cache")
}

/// The cache is itself a device of logical sectors, served from memory only.
impl<D: BlockDevice> BlockDevice for CachedDevice<D> {
    /// A sector of the cache is a logical sector of the partition.
    closed spec fn spec_sector_size(&self) -> nat {
        self.partition.sector_size as nat
    }

    /// A cached sector holds its cached bytes; any other holds the bytes
    /// that `get` would read for it.
    closed spec fn sector_content(&self, n: u64) -> Seq<u8> {
        if self.cache@.contains_key(n) {
            self.cache@[n].data@
        } else {
            self.sector_view(n)
        }
    }

    /// The sectors read from the cache as a device.
    closed spec fn reads(&self) -> Seq<u64> {
        self.served@
    }

    fn sector_size(&self) -> (r: u64) {
        self.partition.sector_size
    }

    /// Copies cached sector `n` into `buf`. Fails with an error of kind
    /// `Interrupted` if the sector is not cached or is not a whole logical
    /// sector (a sector before the partition).
    fn read_sector(&mut self, n: u64, buf: &mut [u8]) -> (r: Result<usize, std::io::Error>) {
        self.served = Ghost(self.served@.push(n));
        if !self.cache.contains_key(&n) {
            return Err(not_cached_error());
        }
        let entry = self.cache.get(&n).unwrap();
        let len = entry.data.len();
        if len as u64 != self.partition.sector_size {
            return Err(not_cached_error());
        }
        let mut i: usize = 0;
        while i < len
            invariant
                i <= len,
                len == entry.data@.len(),
                len <= buf@.len(),
                buf@.len() == old(buf)@.len(),
                forall|j: int| 0 <= j < i ==> #[trigger] buf@[j] == entry.data@[j],
            decreases len - i,
        {
            buf[i] = entry.data[i];
            i += 1;
        }
        proof {
            assert(buf@.subrange(0, len as int) =~= entry.data@);
        }
        Ok(len)
    }

    /// Writing is not supported: fails with an error of kind `Unsupported`.
    fn write_sector(&mut self, n: u64, buf: &[u8]) -> (r: Result<usize, std::io::Error>) {
        Err(read_only_error())
    }
}

} // verus!
