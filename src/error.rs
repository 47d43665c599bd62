use vstd::prelude::*;

use crate::mbr;

verus! {

/// Ways mounting or reading the filesystem can fail.
#[derive(Debug)]
pub enum Error {
    /// The block device reported a failure.
    Io(std::io::Error),
    /// The master boot record could not be read.
    Mbr(mbr::Error),
    /// The boot sector of the partition does not end in 0x55, 0xAA.
    BadSignature,
    /// Fewer bytes than a whole boot sector were read.
    Ebpb,
    /// The geometry in the boot sector cannot describe a FAT32 volume.
    BadGeometry,
    /// No FAT32 partition, no such path, or no such directory entry.
    NotFound,
    /// A path that is not absolute, or a seek outside the file.
    InvalidInput,
    /// A corrupt or cyclic cluster chain.
    InvalidData,
    /// The operation would write to this read-only filesystem.
    Unsupported,
}

} // verus!
