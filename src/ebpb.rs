use vstd::prelude::*;

use crate::bytes::{le16, le32, read_u16_le, read_u32_le};
use crate::device::BlockDevice;
use crate::error::Error;

verus! {

/// Size in bytes of the boot sector that holds the parameter block.
pub const EBPB_SIZE: usize = 512;

/// The FAT32 extended BIOS parameter block, as read from a partition's first sector.
#[derive(Copy, Clone, Debug)]
pub struct BiosParameterBlock {
    pub num_bytes_per_sector: u16,
    pub num_sectors_per_cluster: u8,
    pub num_reserved_sectors: u16,
    pub num_file_allocation_tables: u8,
    pub num_sectors_per_fat: u16,
    pub sectors_per_fat: u32,
    pub cluster_num_root_dir: u32,
    pub drive_num: u8,
    pub signature: u8,
    pub bootable_partition_signature: [u8; 2],
}

/// `p` holds the fields of the boot sector `b` at their standard offsets.
pub open spec fn ebpb_holds(p: BiosParameterBlock, b: Seq<u8>) -> bool {
    &&& p.num_bytes_per_sector == le16(b, 11)
    &&& p.num_sectors_per_cluster == b[13]
    &&& p.num_reserved_sectors == le16(b, 14)
    &&& p.num_file_allocation_tables == b[16]
    &&& p.num_sectors_per_fat == le16(b, 22)
    &&& p.sectors_per_fat == le32(b, 36)
    &&& p.cluster_num_root_dir == le32(b, 44)
    &&& p.drive_num == b[64]
    &&& p.signature == b[66]
    &&& p.bootable_partition_signature@ == b.subrange(510, 512)
}

/// The boot sector ends in the magic bytes 0x55, 0xAA.
pub open spec fn boot_signature_ok(b: Seq<u8>) -> bool {
    b[510] == 0x55 && b[511] == 0xAA
}

impl BiosParameterBlock {
    /// Decodes the parameter block from the bytes of a partition's boot sector.
    ///
    /// Fails with `Ebpb` if fewer than 512 bytes are given and with
    /// `BadSignature` if the sector does not end in 0x55, 0xAA.
    pub fn parse(b: &[u8]) -> (r: Result<BiosParameterBlock, Error>)
        ensures
            r matches Err(Error::Ebpb) <==> b@.len() < EBPB_SIZE,
            r matches Err(Error::BadSignature) <==> b@.len() >= EBPB_SIZE && !boot_signature_ok(b@),
            r is Ok <==> b@.len() >= EBPB_SIZE && boot_signature_ok(b@),
            r matches Ok(p) ==> ebpb_holds(p, b@),
    {
        if b.len() < EBPB_SIZE {
            return Err(Error::Ebpb);
        }
        if b[510] != 0x55 || b[511] != 0xAA {
            return Err(Error::BadSignature);
        }
        let p = BiosParameterBlock {
            num_bytes_per_sector: read_u16_le(b, 11),
            num_sectors_per_cluster: b[13],
            num_reserved_sectors: read_u16_le(b, 14),
            num_file_allocation_tables: b[16],
            num_sectors_per_fat: read_u16_le(b, 22),
            sectors_per_fat: read_u32_le(b, 36),
            cluster_num_root_dir: read_u32_le(b, 44),
            drive_num: b[64],
            signature: b[66],
            bootable_partition_signature: [b[510], b[511]],
        };
        assert(p.bootable_partition_signature@ =~= b@.subrange(510, 512));
        Ok(p)
    }

    /// Reads the FAT32 extended BIOS parameter block from sector `sector` of
    /// `device`.
    ///
    /// Fails with `Io(err)` if the device fails to read the sector; otherwise
    /// the result is that of `parse` on the sector's bytes.
    pub fn from<T: BlockDevice>(device: &mut T, sector: u64) -> (r: Result<BiosParameterBlock, Error>)
        requires
            old(device).spec_sector_size() <= usize::MAX,
        ensures
            final(device).spec_sector_size() == old(device).spec_sector_size(),
            forall|k: u64| #[trigger] final(device).sector_content(k) == old(device).sector_content(k),
            !(r matches Err(Error::Io(_))) ==> {
                let b = old(device).sector_content(sector);
                &&& (r matches Err(Error::Ebpb)) <==> b.len() < EBPB_SIZE
                &&& (r matches Err(Error::BadSignature)) <==> b.len() >= EBPB_SIZE && !boot_signature_ok(b)
                &&& r is Ok <==> b.len() >= EBPB_SIZE && boot_signature_ok(b)
                &&& (r matches Ok(p) ==> ebpb_holds(p, b))
            },
    {
        let mut buf: Vec<u8> = Vec::new();
        match device.read_all_sector(sector, &mut buf) {
            Ok(_) => {},
            Err(e) => {
                return Err(Error::Io(e));
            },
        }
        assert(buf@ =~= old(device).sector_content(sector));
        BiosParameterBlock::parse(buf.as_slice())
    }
}

} // verus!
