use vstd::prelude::*;

verus! {

/// `std::io::Error`, the failure a block device reports; carried through unchanged.
#[verifier::external_type_specification]
#[verifier::external_body]
pub struct ExIoError(std::io::Error);

/// `a` and `b` have the same sector size and hold the same bytes.
pub open spec fn same_disk<D: BlockDevice>(a: &D, b: &D) -> bool {
    &&& a.spec_sector_size() == b.spec_sector_size()
    &&& forall|k: u64| #[trigger] a.sector_content(k) == b.sector_content(k)
}

/// A device that can read and write whole sectors.
///
/// The device's contents are modelled by `sector_content`: the bytes of each
/// physical sector. Reading never changes the contents or the sector size.
///
/// The two model functions carry closed default bodies so that device types
/// written outside verified code need not define them; code generic over a
/// device never sees those bodies and knows the model only through the
/// contracts of the methods below.
pub trait BlockDevice {
    /// The size in bytes of a sector of this device.
    closed spec fn spec_sector_size(&self) -> nat {
        0
    }

    /// The bytes stored in physical sector `n`.
    closed spec fn sector_content(&self, n: u64) -> Seq<u8> {
        Seq::empty()
    }

    /// The physical sectors this device has been asked to read, in order.
    closed spec fn reads(&self) -> Seq<u64> {
        Seq::empty()
    }

    /// Sector size in bytes. Sizes are usually powers of 2 and at least 512.
    fn sector_size(&self) -> (r: u64)
        ensures
            r == self.spec_sector_size(),
    ;

    /// Reads sector `n` into `buf`, whose length must be at least one sector,
    /// and returns the number of bytes read: one whole sector.
    fn read_sector(&mut self, n: u64, buf: &mut [u8]) -> (r: Result<usize, std::io::Error>)
        requires
            old(buf)@.len() >= old(self).spec_sector_size(),
        ensures
            final(self).spec_sector_size() == old(self).spec_sector_size(),
            forall|k: u64| #[trigger] final(self).sector_content(k) == old(self).sector_content(k),
            final(self).reads() == old(self).reads().push(n),
            final(buf)@.len() == old(buf)@.len(),
            r is Ok ==> {
                &&& r->Ok_0 == old(self).spec_sector_size()
                &&& old(self).sector_content(n).len() == old(self).spec_sector_size()
                &&& final(buf)@.subrange(0, r->Ok_0 as int) == old(self).sector_content(n)
            },
    ;

    /// Reads sector `n` and appends its bytes to `vec`; returns the number of
    /// bytes appended: one whole sector.
    fn read_all_sector(&mut self, n: u64, vec: &mut Vec<u8>) -> (r: Result<usize, std::io::Error>)
        requires
            old(self).spec_sector_size() <= usize::MAX,
        ensures
            final(self).spec_sector_size() == old(self).spec_sector_size(),
            forall|k: u64| #[trigger] final(self).sector_content(k) == old(self).sector_content(k),
            final(self).reads() == old(self).reads().push(n),
            r is Ok ==> {
                &&& r->Ok_0 == old(self).spec_sector_size()
                &&& final(vec)@ == old(vec)@ + old(self).sector_content(n)
            },
    {
        let size = self.sector_size();
        let mut tmp: Vec<u8> = vec![0u8; size as usize];
        let r = self.read_sector(n, tmp.as_mut_slice());
        match r {
            Ok(read) => {
                proof {
                    assert(tmp@.subrange(0, read as int) == tmp@);
                }
                vec.extend_from_slice(tmp.as_slice());
                proof {
                    assert(vec@ == old(vec)@ + tmp@);
                }
                Ok(read)
            },
            Err(e) => Err(e),
        }
    }

    /// Writes one sector from `buf` to sector `n`; returns the number of bytes written.
    fn write_sector(&mut self, n: u64, buf: &[u8]) -> (r: Result<usize, std::io::Error>);
}

} // verus!
