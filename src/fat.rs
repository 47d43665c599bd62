use vstd::prelude::*;

use crate::cluster::{Cluster, CLUSTER_MASK};

verus! {

/// What a FAT entry says about its cluster.
#[derive(PartialEq, Eq, Structural, Debug, Copy, Clone)]
pub enum Status {
    /// The cluster is unused.
    Free,
    /// The cluster is reserved.
    Reserved,
    /// The cluster holds data; the chain continues at the given cluster.
    Data(Cluster),
    /// The cluster is marked bad.
    Bad,
    /// The cluster holds data and ends its chain; the raw entry is kept.
    Eoc(u32),
}

/// Classification of a raw 32-bit FAT word; the 4 top bits are ignored.
pub open spec fn status_of(raw: u32) -> Status {
    let v = raw & CLUSTER_MASK;
    if v == 0 {
        Status::Free
    } else if v == 1 {
        Status::Reserved
    } else if v <= 0x0FFF_FFEF {
        Status::Data(Cluster(v))
    } else if v <= 0x0FFF_FFF6 {
        Status::Reserved
    } else if v == 0x0FFF_FFF7 {
        Status::Bad
    } else {
        Status::Eoc(raw)
    }
}

/// One 32-bit slot of the file allocation table.
#[derive(PartialEq, Eq, Structural, Debug, Copy, Clone)]
pub struct FatEntry(pub u32);

impl FatEntry {
    /// Returns the `Status` of the FAT entry `self`.
    pub fn status(&self) -> (r: Status)
        ensures
            r == status_of(self.0),
    {
        let raw = self.0;
        let val = raw & CLUSTER_MASK;
        if val == 0 {
            Status::Free
        } else if val == 1 {
            Status::Reserved
        } else if val <= 0x0FFF_FFEF {
            let c = Cluster::from(val);
            assert(val & CLUSTER_MASK == val) by (bit_vector)
                requires
                    val == raw & 0x0FFF_FFFFu32,
            ;
            Status::Data(c)
        } else if val <= 0x0FFF_FFF6 {
            Status::Reserved
        } else if val == 0x0FFF_FFF7 {
            Status::Bad
        } else {
            Status::Eoc(self.0)
        }
    }
}

} // verus!
