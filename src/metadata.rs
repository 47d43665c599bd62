use vstd::prelude::*;

use crate::bytes::{le16, read_u16_le};

verus! {

/// A date as represented in FAT32 on-disk structures.
#[derive(Default, Debug, Copy, Clone, PartialEq, Eq, Structural)]
pub struct Date(pub u16);

/// Time as represented in FAT32 on-disk structures.
#[derive(Default, Debug, Copy, Clone, PartialEq, Eq, Structural)]
pub struct Time(pub u16);

/// File attributes as represented in FAT32 on-disk structures.
#[derive(Default, Debug, Copy, Clone, PartialEq, Eq, Structural)]
pub struct Attributes(pub u8);

/// A structure containing a date and time.
#[derive(Default, Copy, Clone, Debug, PartialEq, Eq, Structural)]
pub struct Timestamp {
    pub time: Time,
    pub date: Date,
}

/// Size in bytes of the metadata part of a directory record.
pub const METADATA_SIZE: usize = 17;

/// Metadata of a directory entry, as stored from byte 11 of its record.
#[derive(Debug, Clone, Copy, PartialEq, Eq, Structural)]
pub struct Metadata {
    pub attrib: Attributes,
    pub reserved: u8,
    pub creation_time_tenth_second: u8,
    pub time_creation: u16,
    pub date_creation: u16,
    pub date_last_access: u16,
    pub first_cluster_num_h: u16,
    pub time_modify: u16,
    pub date_modify: u16,
    pub first_cluster_num_l: u16,
}

/// Attribute bits.
pub const ATTR_READ_ONLY: u8 = 0x01;
pub const ATTR_HIDDEN: u8 = 0x02;
pub const ATTR_SYSTEM: u8 = 0x04;
pub const ATTR_VOLUME_ID: u8 = 0x08;
pub const ATTR_DIRECTORY: u8 = 0x10;
pub const ATTR_ARCHIVE: u8 = 0x20;

/// Attribute value of a long-file-name record: read-only, hidden, system and volume-id.
pub const ATTR_LFN: u8 = 0x0F;

/// Bit `mask` is set in the attribute byte `a`.
pub open spec fn has_attr(a: u8, mask: u8) -> bool {
    a & mask != 0
}

/// `m` holds the 17 bytes of `b` starting at `at`, field by field.
pub open spec fn metadata_holds(m: Metadata, b: Seq<u8>, at: int) -> bool {
    &&& m.attrib.0 == b[at]
    &&& m.reserved == b[at + 1]
    &&& m.creation_time_tenth_second == b[at + 2]
    &&& m.time_creation == le16(b, at + 3)
    &&& m.date_creation == le16(b, at + 5)
    &&& m.date_last_access == le16(b, at + 7)
    &&& m.first_cluster_num_h == le16(b, at + 9)
    &&& m.time_modify == le16(b, at + 11)
    &&& m.date_modify == le16(b, at + 13)
    &&& m.first_cluster_num_l == le16(b, at + 15)
}

/// The first cluster number of `m`, high and low halves combined.
pub open spec fn first_cluster_of(m: Metadata) -> int {
    m.first_cluster_num_h as int * 65536 + m.first_cluster_num_l as int
}

impl Default for Metadata {
    /// Metadata with every field zero.
    fn default() -> (r: Metadata)
        ensures
            r == Metadata::zero(),
    {
        Metadata {
            attrib: Attributes(0),
            reserved: 0,
            creation_time_tenth_second: 0,
            time_creation: 0,
            date_creation: 0,
            date_last_access: 0,
            first_cluster_num_h: 0,
            time_modify: 0,
            date_modify: 0,
            first_cluster_num_l: 0,
        }
    }
}

impl Metadata {
    /// Metadata with every field zero.
    pub open spec fn zero() -> Metadata {
        Metadata {
            attrib: Attributes(0),
            reserved: 0,
            creation_time_tenth_second: 0,
            time_creation: 0,
            date_creation: 0,
            date_last_access: 0,
            first_cluster_num_h: 0,
            time_modify: 0,
            date_modify: 0,
            first_cluster_num_l: 0,
        }
    }

    /// Decodes the metadata stored in `b[at..at + 17]`.
    pub fn parse(b: &[u8], at: usize) -> (m: Metadata)
        requires
            at + METADATA_SIZE <= b@.len(),
        ensures
            metadata_holds(m, b@, at as int),
    {
        Metadata {
            attrib: Attributes(b[at]),
            reserved: b[at + 1],
            creation_time_tenth_second: b[at + 2],
            time_creation: read_u16_le(b, at + 3),
            date_creation: read_u16_le(b, at + 5),
            date_last_access: read_u16_le(b, at + 7),
            first_cluster_num_h: read_u16_le(b, at + 9),
            time_modify: read_u16_le(b, at + 11),
            date_modify: read_u16_le(b, at + 13),
            first_cluster_num_l: read_u16_le(b, at + 15),
        }
    }

    /// Whether the associated entry is read only.
    pub fn read_only(&self) -> (r: bool)
        ensures
            r == has_attr(self.attrib.0, ATTR_READ_ONLY),
    {
        self.attrib.0 & ATTR_READ_ONLY != 0
    }

    /// Whether the entry should be hidden from directory traversals.
    pub fn hidden(&self) -> (r: bool)
        ensures
            r == has_attr(self.attrib.0, ATTR_HIDDEN),
    {
        self.attrib.0 & ATTR_HIDDEN != 0
    }

    /// Whether the entry belongs to the system.
    pub fn system(&self) -> (r: bool)
        ensures
            r == has_attr(self.attrib.0, ATTR_SYSTEM),
    {
        self.attrib.0 & ATTR_SYSTEM != 0
    }

    /// Whether the entry is the volume label.
    pub fn volume_id(&self) -> (r: bool)
        ensures
            r == has_attr(self.attrib.0, ATTR_VOLUME_ID),
    {
        self.attrib.0 & ATTR_VOLUME_ID != 0
    }

    /// Whether the read-only, hidden, system and volume-id bits are all set,
    /// which marks a long-file-name record.
    pub fn is_lfn_entry(&self) -> (r: bool)
        ensures
            r == (has_attr(self.attrib.0, ATTR_READ_ONLY) && has_attr(self.attrib.0, ATTR_HIDDEN)
                && has_attr(self.attrib.0, ATTR_SYSTEM) && has_attr(self.attrib.0, ATTR_VOLUME_ID)),
    {
        self.read_only() && self.hidden() && self.system() && self.volume_id()
    }

    /// Whether the entry is a directory.
    pub fn is_directory(&self) -> (r: bool)
        ensures
            r == has_attr(self.attrib.0, ATTR_DIRECTORY),
    {
        self.attrib.0 & ATTR_DIRECTORY != 0
    }

    /// Whether the entry is marked for archiving.
    pub fn is_archive(&self) -> (r: bool)
        ensures
            r == has_attr(self.attrib.0, ATTR_ARCHIVE),
    {
        self.attrib.0 & ATTR_ARCHIVE != 0
    }

    /// The timestamp when the entry was created.
    pub fn created(&self) -> (r: Timestamp)
        ensures
            r == (Timestamp { time: Time(self.time_creation), date: Date(self.date_creation) }),
    {
        Timestamp { time: Time(self.time_creation), date: Date(self.date_creation) }
    }

    /// The timestamp of the entry's last access; only its date is recorded.
    pub fn accessed(&self) -> (r: Timestamp)
        ensures
            r == (Timestamp { time: Time(0), date: Date(self.date_last_access) }),
    {
        Timestamp { time: Time(0), date: Date(self.date_last_access) }
    }

    /// The timestamp of the entry's last modification.
    pub fn modified(&self) -> (r: Timestamp)
        ensures
            r == (Timestamp { time: Time(self.time_modify), date: Date(self.date_modify) }),
    {
        Timestamp { time: Time(self.time_modify), date: Date(self.date_modify) }
    }

    /// The entry's first cluster number, from its high and low 16-bit halves.
    pub fn first_cluster_num(&self) -> (r: u32)
        ensures
            r == first_cluster_of(*self),
    {
        let h = self.first_cluster_num_h as u32;
        let l = self.first_cluster_num_l as u32;
        assert((h << 16u32) | l == h * 65536 + l) by (bit_vector)
            requires
                h < 65536,
                l < 65536,
        ;
        (h << 16u32) | l
    }
}

impl Timestamp {
    /// The calendar year: bits 15-9 of the date count years from 1980.
    pub fn year(&self) -> (r: usize)
        ensures
            r == self.date.0 / 512 + 1980,
    {
        let d = self.date.0;
        assert((d >> 9u16) & 0x7F == d / 512) by (bit_vector);
        (((d >> 9u16) & 0x7F) as usize) + 1980
    }

    /// The calendar month, bits 8-5 of the date; 1 is January.
    pub fn month(&self) -> (r: u8)
        ensures
            r == (self.date.0 / 32) % 16,
    {
        let d = self.date.0;
        assert((d >> 5u16) & 0xF == (d / 32) % 16) by (bit_vector);
        ((d >> 5u16) & 0xF) as u8
    }

    /// The calendar day, bits 4-0 of the date.
    pub fn day(&self) -> (r: u8)
        ensures
            r == self.date.0 % 32,
    {
        let d = self.date.0;
        assert(d & 0x1F == d % 32) by (bit_vector);
        (d & 0x1F) as u8
    }

    /// The hour of a 24-hour clock, bits 15-11 of the time.
    pub fn hour(&self) -> (r: u8)
        ensures
            r == self.time.0 / 2048,
    {
        let t = self.time.0;
        assert(t >> 11u16 == t / 2048) by (bit_vector);
        (t >> 11u16) as u8
    }

    /// The minute, bits 10-5 of the time.
    pub fn minute(&self) -> (r: u8)
        ensures
            r == (self.time.0 / 32) % 64,
    {
        let t = self.time.0;
        assert((t >> 5u16) & 0x3F == (t / 32) % 64) by (bit_vector);
        ((t >> 5u16) & 0x3F) as u8
    }

    /// The second: bits 4-0 of the time count two-second steps.
    pub fn second(&self) -> (r: u8)
        ensures
            r == (self.time.0 % 32) * 2,
    {
        let t = self.time.0;
        assert(t & 0x1F == t % 32) by (bit_vector);
        ((t & 0x1F) * 2) as u8
    }
}

} // verus!
