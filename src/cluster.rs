use vstd::prelude::*;

verus! {

/// Mask of the 28 low bits of a raw cluster value; the top 4 bits are reserved.
pub const CLUSTER_MASK: u32 = 0x0FFF_FFFF;

/// A cluster number of a FAT32 volume. Data clusters are numbered from 2.
#[derive(PartialEq, Eq, Structural, PartialOrd, Ord, Debug, Copy, Clone, Hash)]
pub struct Cluster(pub u32);

impl Cluster {
    /// The cluster number as an unbounded integer.
    pub open spec fn num(self) -> nat {
        self.0 as nat
    }

    /// Number of this cluster.
    pub fn cluster_num(&self) -> (r: usize)
        ensures
            r == self.num(),
    {
        self.0 as usize
    }
}

impl From<u32> for Cluster {
    /// Keeps the 28 low bits of `raw_num`.
    fn from(raw_num: u32) -> (r: Cluster)
        ensures
            r.0 == raw_num & CLUSTER_MASK,
    {
        Cluster(raw_num & CLUSTER_MASK)
    }
}

impl vstd::std_specs::convert::FromSpecImpl<u32> for Cluster {
    open spec fn obeys_from_spec() -> bool {
        true
    }

    open spec fn from_spec(v: u32) -> Cluster {
        Cluster(v & CLUSTER_MASK)
    }
}

} // verus!
