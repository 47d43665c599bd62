use vstd::prelude::*;

use crate::bytes::{le32, read_u32_le};
use crate::device::BlockDevice;

verus! {

/// Size in bytes of a master boot record.
pub const MBR_SIZE: usize = 512;

/// Offset of the partition table within the master boot record.
pub const TABLE_OFFSET: usize = 446;

/// Size in bytes of one partition table entry.
pub const ENTRY_SIZE: usize = 16;

/// A cylinder-head-sector address as stored in a partition entry.
#[derive(Copy, Clone, Debug)]
pub struct CHS {
    pub starting_head: u8,
    pub starting_sector_cylinder: [u8; 2],
}

/// One of the four entries of the partition table.
#[derive(Copy, Clone, Debug)]
pub struct PartitionEntry {
    pub boot_indicator: u8,
    pub first_chs: CHS,
    pub partition_type: u8,
    pub last_chs: CHS,
    pub relative_sector: u32,
    pub total_sectors_in_partition: u32,
}

/// The master boot record (MBR).
#[derive(Clone, Debug)]
pub struct MasterBootRecord {
    pub bootstrap: Vec<u8>,
    pub disk_id: [u8; 10],
    pub table_entries: [PartitionEntry; 4],
    pub signature: [u8; 2],
}

/// Ways reading a master boot record can fail.
#[derive(Debug)]
pub enum Error {
    /// There was an I/O error while reading the MBR.
    Io(std::io::Error),
    /// Partition `.0` (0-indexed) contains an invalid or unknown boot indicator.
    UnknownBootIndicator(u8),
    /// The MBR magic signature was invalid.
    BadSignature,
}

/// `c` holds the three bytes of `b` starting at `at`.
pub open spec fn chs_holds(c: CHS, b: Seq<u8>, at: int) -> bool {
    &&& c.starting_head == b[at]
    &&& c.starting_sector_cylinder@ == b.subrange(at + 1, at + 3)
}

/// `e` holds the sixteen bytes of `b` starting at `at`, field by field.
pub open spec fn entry_holds(e: PartitionEntry, b: Seq<u8>, at: int) -> bool {
    &&& e.boot_indicator == b[at]
    &&& chs_holds(e.first_chs, b, at + 1)
    &&& e.partition_type == b[at + 4]
    &&& chs_holds(e.last_chs, b, at + 5)
    &&& e.relative_sector == le32(b, at + 8)
    &&& e.total_sectors_in_partition == le32(b, at + 12)
}

/// Offset of partition entry `i` in the sector.
pub open spec fn entry_offset(i: int) -> int {
    TABLE_OFFSET + ENTRY_SIZE * i
}

/// `m` holds the bytes of sector `b`, field by field.
pub open spec fn mbr_holds(m: MasterBootRecord, b: Seq<u8>) -> bool {
    &&& m.bootstrap@ == b.subrange(0, 436)
    &&& m.disk_id@ == b.subrange(436, 446)
    &&& forall|i: int| 0 <= i < 4 ==> entry_holds(#[trigger] m.table_entries@[i], b, entry_offset(i))
    &&& m.signature@ == b.subrange(510, 512)
}

/// The sector is long enough and ends in the magic bytes 0x55, 0xAA.
pub open spec fn signature_ok(b: Seq<u8>) -> bool {
    b.len() >= MBR_SIZE && b[510] == 0x55 && b[511] == 0xAA
}

/// A boot indicator is 0x00 (inactive) or 0x80 (active).
pub open spec fn indicator_ok(x: u8) -> bool {
    x == 0x00 || x == 0x80
}

/// The boot indicator of partition entry `i` in sector `b`.
pub open spec fn indicator(b: Seq<u8>, i: int) -> u8 {
    b[entry_offset(i)]
}

/// All four partition entries carry a valid boot indicator.
pub open spec fn indicators_ok(b: Seq<u8>) -> bool {
    forall|i: int| 0 <= i < 4 ==> indicator_ok(#[trigger] indicator(b, i))
}

/// `i` is the first partition entry whose boot indicator is invalid.
pub open spec fn first_bad_indicator(b: Seq<u8>, i: int) -> bool {
    &&& 0 <= i < 4
    &&& !indicator_ok(indicator(b, i))
    &&& forall|j: int| 0 <= j < i ==> indicator_ok(#[trigger] indicator(b, j))
}

fn parse_chs(b: &[u8], at: usize) -> (c: CHS)
    requires
        at + 3 <= b@.len(),
    ensures
        chs_holds(c, b@, at as int),
{
    let c = CHS { starting_head: b[at], starting_sector_cylinder: [b[at + 1], b[at + 2]] };
    assert(c.starting_sector_cylinder@ =~= b@.subrange(at + 1, at + 3));
    c
}

fn parse_entry(b: &[u8], at: usize) -> (e: PartitionEntry)
    requires
        at + 16 <= b@.len(),
    ensures
        entry_holds(e, b@, at as int),
{
    PartitionEntry {
        boot_indicator: b[at],
        first_chs: parse_chs(b, at + 1),
        partition_type: b[at + 4],
        last_chs: parse_chs(b, at + 5),
        relative_sector: read_u32_le(b, at + 8),
        total_sectors_in_partition: read_u32_le(b, at + 12),
    }
}

fn copy_range(b: &[u8], from: usize, to: usize) -> (r: Vec<u8>)
    requires
        from <= to <= b@.len(),
    ensures
        r@ == b@.subrange(from as int, to as int),
{
    let mut r: Vec<u8> = Vec::new();
    let mut i: usize = from;
    while i < to
        invariant
            from <= i <= to <= b@.len(),
            r@ == b@.subrange(from as int, i as int),
        decreases to - i,
    {
        r.push(b[i]);
        i += 1;
        assert(r@ =~= b@.subrange(from as int, i as int));
    }
    r
}

impl MasterBootRecord {
    /// Decodes a master boot record from the bytes of sector 0.
    ///
    /// Fails with `BadSignature` when the sector is shorter than 512 bytes or
    /// does not end in 0x55, 0xAA, and otherwise with `UnknownBootIndicator(i)`
    /// for the first partition entry `i` whose boot indicator is invalid.
    pub fn parse(b: &[u8]) -> (r: Result<MasterBootRecord, Error>)
        ensures
            r is Ok <==> signature_ok(b@) && indicators_ok(b@),
            r matches Ok(m) ==> mbr_holds(m, b@),
            r matches Err(Error::BadSignature) <==> !signature_ok(b@),
            r matches Err(Error::UnknownBootIndicator(i)) ==> signature_ok(b@)
                && first_bad_indicator(b@, i as int),
            !(r matches Err(Error::Io(_))),
    {
        if b.len() < MBR_SIZE || b[510] != 0x55 || b[511] != 0xAA {
            return Err(Error::BadSignature);
        }
        let mut i: usize = 0;
        while i < 4
            invariant
                i <= 4,
                signature_ok(b@),
                forall|j: int| 0 <= j < i ==> indicator_ok(#[trigger] indicator(b@, j)),
            decreases 4 - i,
        {
            let x = b[TABLE_OFFSET + ENTRY_SIZE * i];
            if x != 0x00 && x != 0x80 {
                assert(x == indicator(b@, i as int));
                return Err(Error::UnknownBootIndicator(i as u8));
            }
            i += 1;
        }
        let table_entries = [
            parse_entry(b, TABLE_OFFSET),
            parse_entry(b, TABLE_OFFSET + ENTRY_SIZE),
            parse_entry(b, TABLE_OFFSET + 2 * ENTRY_SIZE),
            parse_entry(b, TABLE_OFFSET + 3 * ENTRY_SIZE),
        ];
        let m = MasterBootRecord {
            bootstrap: copy_range(b, 0, 436),
            disk_id: [b[436], b[437], b[438], b[439], b[440], b[441], b[442], b[443], b[444], b[445]],
            table_entries,
            signature: [b[510], b[511]],
        };
        assert(m.disk_id@ =~= b@.subrange(436, 446));
        assert(m.signature@ =~= b@.subrange(510, 512));
        assert forall|i: int| 0 <= i < 4 implies entry_holds(#[trigger] m.table_entries@[i], b@, entry_offset(i)) by {
            if i == 0 {} else if i == 1 {} else if i == 2 {} else {}
        }
        Ok(m)
    }

    /// Reads and returns the master boot record (MBR) from sector 0 of `device`.
    ///
    /// Fails with `Io(err)` if the device fails to read the sector; otherwise
    /// the result is that of `parse` on the sector's bytes.
    pub fn from<T: BlockDevice>(device: &mut T) -> (r: Result<MasterBootRecord, Error>)
        requires
            old(device).spec_sector_size() <= usize::MAX,
        ensures
            final(device).spec_sector_size() == old(device).spec_sector_size(),
            forall|k: u64| #[trigger] final(device).sector_content(k) == old(device).sector_content(k),
            !(r matches Err(Error::Io(_))) ==> (r is Ok <==> signature_ok(old(device).sector_content(0))
                && indicators_ok(old(device).sector_content(0))),
            r matches Ok(m) ==> mbr_holds(m, old(device).sector_content(0)),
            r matches Err(Error::BadSignature) ==> !signature_ok(old(device).sector_content(0)),
            r matches Err(Error::UnknownBootIndicator(i)) ==> signature_ok(old(device).sector_content(0))
                && first_bad_indicator(old(device).sector_content(0), i as int),
    {
        let mut buf: Vec<u8> = Vec::new();
        match device.read_all_sector(0, &mut buf) {
            Ok(_) => {},
            Err(e) => {
                return Err(Error::Io(e));
            },
        }
        assert(buf@ =~= old(device).sector_content(0));
        MasterBootRecord::parse(buf.as_slice())
    }
}

} // verus!
