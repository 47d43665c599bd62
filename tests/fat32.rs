use std::cell::Cell;
use std::io;
use std::rc::Rc;

use fat32::align::{align_down, align_up, check_align};
use fat32::cache::{CachedDevice, Partition};
use fat32::cluster::Cluster;
use fat32::device::BlockDevice;
use fat32::dir::{Dir, Entry, VFatDirEntry, VFatEntryIterator};
use fat32::ebpb::BiosParameterBlock;
use fat32::error::Error;
use fat32::fat::{FatEntry, Status};
use fat32::file::SeekFrom;
use fat32::mbr::{self, MasterBootRecord};
use fat32::metadata::{Date, Metadata, Time, Timestamp};
use fat32::path::{components, Component};
use fat32::text::{bytes_eq_ignore_ascii_case, text_from_utf16};
use fat32::vfat::VFat;

const SECTOR: usize = 512;

/// An in-memory disk that counts the sectors read from it.
struct MemDisk {
    sector_size: u64,
    data: Vec<u8>,
    reads: Rc<Cell<usize>>,
}

impl MemDisk {
    fn new(sector_size: u64, data: Vec<u8>) -> MemDisk {
        MemDisk { sector_size, data, reads: Rc::new(Cell::new(0)) }
    }
}

impl BlockDevice for MemDisk {
    fn sector_size(&self) -> u64 {
        self.sector_size
    }

    fn read_sector(&mut self, n: u64, buf: &mut [u8]) -> Result<usize, io::Error> {
        self.reads.set(self.reads.get() + 1);
        let ss = self.sector_size as usize;
        let start = n as usize * ss;
        for i in 0..ss {
            buf[i] = if start + i < self.data.len() { self.data[start + i] } else { 0 };
        }
        Ok(ss)
    }

    fn write_sector(&mut self, _n: u64, _buf: &[u8]) -> Result<usize, io::Error> {
        Err(io::Error::new(io::ErrorKind::Other, "read only"))
    }
}

/// A device whose reads all fail.
struct BrokenDisk;

impl BlockDevice for BrokenDisk {
    fn sector_size(&self) -> u64 {
        512
    }

    fn read_sector(&mut self, _n: u64, _buf: &mut [u8]) -> Result<usize, io::Error> {
        Err(io::Error::new(io::ErrorKind::Other, "broken"))
    }

    fn write_sector(&mut self, _n: u64, _buf: &[u8]) -> Result<usize, io::Error> {
        Err(io::Error::new(io::ErrorKind::Other, "broken"))
    }
}

fn put_u16(b: &mut [u8], at: usize, v: u16) {
    b[at..at + 2].copy_from_slice(&v.to_le_bytes());
}

fn put_u32(b: &mut [u8], at: usize, v: u32) {
    b[at..at + 4].copy_from_slice(&v.to_le_bytes());
}

fn mbr_sector(types: [u8; 4], starts: [u32; 4]) -> Vec<u8> {
    let mut s = vec![0u8; SECTOR];
    for i in 0..4 {
        let at = 446 + 16 * i;
        s[at] = if i == 0 { 0x80 } else { 0x00 };
        s[at + 1] = 1;
        s[at + 2] = 2;
        s[at + 3] = 3;
        s[at + 4] = types[i];
        s[at + 5] = 4;
        s[at + 6] = 5;
        s[at + 7] = 6;
        put_u32(&mut s, at + 8, starts[i]);
        put_u32(&mut s, at + 12, 1000 + i as u32);
    }
    s[436] = 0xDE;
    s[445] = 0xAD;
    s[510] = 0x55;
    s[511] = 0xAA;
    s
}

fn ebpb_sector(bps: u16, spc: u8, reserved: u16, fats: u8, spf: u32, root: u32) -> Vec<u8> {
    let mut s = vec![0u8; SECTOR];
    s[0] = 0xEB;
    s[2] = 0x90;
    put_u16(&mut s, 11, bps);
    s[13] = spc;
    put_u16(&mut s, 14, reserved);
    s[16] = fats;
    put_u16(&mut s, 22, 0);
    put_u32(&mut s, 36, spf);
    put_u32(&mut s, 44, root);
    s[64] = 0x80;
    s[66] = 0x29;
    s[510] = 0x55;
    s[511] = 0xAA;
    s
}

/// A disk with one FAT32 partition at sector 1: 512-byte sectors, one
/// sector per cluster, one reserved sector, one FAT of 4 sectors, root
/// directory at cluster 2. Cluster `c` lies at sector `7 + c - 2`.
struct Image {
    bytes: Vec<u8>,
}

const FAT_START: usize = 2;
const DATA_START: usize = 6;

impl Image {
    fn new() -> Image {
        let mut bytes = vec![0u8; SECTOR * 64];
        bytes[..SECTOR].copy_from_slice(&mbr_sector([0x0C, 0, 0, 0], [1, 0, 0, 0]));
        bytes[SECTOR..2 * SECTOR].copy_from_slice(&ebpb_sector(512, 1, 1, 1, 4, 2));
        let mut img = Image { bytes };
        img.set_fat(0, 0x0FFF_FFF8);
        img.set_fat(1, 0x0FFF_FFFF);
        img.set_fat(2, 0x0FFF_FFFF);
        img
    }

    fn set_fat(&mut self, c: u32, v: u32) {
        let at = FAT_START * SECTOR + 4 * c as usize;
        put_u32(&mut self.bytes, at, v);
    }

    fn chain(&mut self, clusters: &[u32]) {
        for w in clusters.windows(2) {
            self.set_fat(w[0], w[1]);
        }
        self.set_fat(*clusters.last().unwrap(), 0x0FFF_FFFF);
    }

    fn cluster_at(c: u32) -> usize {
        (DATA_START + c as usize - 2) * SECTOR
    }

    fn write(&mut self, c: u32, off: usize, data: &[u8]) {
        let at = Image::cluster_at(c) + off;
        if self.bytes.len() < at + data.len() {
            self.bytes.resize(at + data.len(), 0);
        }
        self.bytes[at..at + data.len()].copy_from_slice(data);
    }

    fn disk(&self) -> MemDisk {
        MemDisk::new(512, self.bytes.clone())
    }
}

fn short_record(name: &[u8; 11], attr: u8, cluster: u32, size: u32) -> Vec<u8> {
    let mut r = vec![0u8; 32];
    r[..11].copy_from_slice(name);
    r[11] = attr;
    put_u16(&mut r, 14, 0x5A3C);
    put_u16(&mut r, 16, 0x4A21);
    put_u16(&mut r, 20, (cluster >> 16) as u16);
    put_u16(&mut r, 26, (cluster & 0xFFFF) as u16);
    put_u32(&mut r, 28, size);
    r
}

/// The long-file-name records of `name`, last part first.
fn lfn_records(name: &str) -> Vec<u8> {
    let mut units: Vec<u16> = name.encode_utf16().collect();
    let n = (units.len() + 12) / 13;
    if units.len() < 13 * n {
        units.push(0);
    }
    while units.len() < 13 * n {
        units.push(0xFFFF);
    }
    let mut out = Vec::new();
    for k in (1..=n).rev() {
        let mut r = vec![0u8; 32];
        r[0] = k as u8 | if k == n { 0x40 } else { 0 };
        r[11] = 0x0F;
        let part = &units[13 * (k - 1)..13 * k];
        let mut bytes = Vec::new();
        for u in part {
            bytes.extend_from_slice(&u.to_le_bytes());
        }
        r[1..11].copy_from_slice(&bytes[0..10]);
        r[14..26].copy_from_slice(&bytes[10..22]);
        r[28..32].copy_from_slice(&bytes[22..26]);
        out.extend_from_slice(&r);
    }
    out
}

fn mount(img: &Image) -> VFat<MemDisk> {
    match VFat::from(img.disk()) {
        Ok(v) => v,
        Err(e) => panic!("mount failed: {:?}", e),
    }
}

#[test]
fn mbr_parses_partition_table_bytes() {
    let s = mbr_sector([0x0C, 0x83, 0, 0x0B], [1, 2048, 0, 4096]);
    let m = MasterBootRecord::parse(&s).unwrap();
    assert_eq!(m.table_entries[0].boot_indicator, 0x80);
    assert_eq!(m.table_entries[1].boot_indicator, 0x00);
    assert_eq!(m.table_entries[0].partition_type, 0x0C);
    assert_eq!(m.table_entries[1].partition_type, 0x83);
    assert_eq!(m.table_entries[1].relative_sector, 2048);
    assert_eq!(m.table_entries[3].relative_sector, 4096);
    assert_eq!(m.table_entries[2].total_sectors_in_partition, 1002);
    assert_eq!(m.table_entries[0].first_chs.starting_head, 1);
    assert_eq!(m.table_entries[0].first_chs.starting_sector_cylinder, [2, 3]);
    assert_eq!(m.table_entries[0].last_chs.starting_sector_cylinder, [5, 6]);
    assert_eq!(m.disk_id[0], 0xDE);
    assert_eq!(m.disk_id[9], 0xAD);
    assert_eq!(m.signature, [0x55, 0xAA]);
    assert_eq!(m.bootstrap.len(), 436);
}

#[test]
fn mbr_rejects_bad_signature() {
    let mut s = mbr_sector([0x0C, 0, 0, 0], [1, 0, 0, 0]);
    s[511] = 0xAB;
    assert!(matches!(MasterBootRecord::parse(&s), Err(mbr::Error::BadSignature)));
    assert!(matches!(MasterBootRecord::parse(&s[..300]), Err(mbr::Error::BadSignature)));
}

#[test]
fn mbr_rejects_unknown_boot_indicator() {
    let mut s = mbr_sector([0x0C, 0, 0, 0], [1, 0, 0, 0]);
    s[446 + 16 * 2] = 0x12;
    s[446 + 16 * 3] = 0x01;
    assert!(matches!(MasterBootRecord::parse(&s), Err(mbr::Error::UnknownBootIndicator(2))));
}

#[test]
fn mbr_reads_sector_zero_of_device() {
    let img = Image::new();
    let mut d = img.disk();
    let m = MasterBootRecord::from(&mut d).unwrap();
    assert_eq!(m.table_entries[0].relative_sector, 1);
    let mut broken = BrokenDisk;
    assert!(matches!(MasterBootRecord::from(&mut broken), Err(mbr::Error::Io(_))));
}

#[test]
fn ebpb_parses_fields() {
    let s = ebpb_sector(512, 8, 32, 2, 1234, 2);
    let p = BiosParameterBlock::parse(&s).unwrap();
    assert_eq!(p.num_bytes_per_sector, 512);
    assert_eq!(p.num_sectors_per_cluster, 8);
    assert_eq!(p.num_reserved_sectors, 32);
    assert_eq!(p.num_file_allocation_tables, 2);
    assert_eq!(p.sectors_per_fat, 1234);
    assert_eq!(p.cluster_num_root_dir, 2);
    assert_eq!(p.signature, 0x29);
}

#[test]
fn ebpb_errors() {
    let mut s = ebpb_sector(512, 8, 32, 2, 1234, 2);
    assert!(matches!(BiosParameterBlock::parse(&s[..511]), Err(Error::Ebpb)));
    s[510] = 0;
    assert!(matches!(BiosParameterBlock::parse(&s), Err(Error::BadSignature)));
}

#[test]
fn fat_status_classification() {
    assert_eq!(FatEntry(0).status(), Status::Free);
    assert_eq!(FatEntry(1).status(), Status::Reserved);
    assert_eq!(FatEntry(2).status(), Status::Data(Cluster(2)));
    assert_eq!(FatEntry(0x0FFF_FFEF).status(), Status::Data(Cluster(0x0FFF_FFEF)));
    assert_eq!(FatEntry(0x0FFF_FFF0).status(), Status::Reserved);
    assert_eq!(FatEntry(0x0FFF_FFF6).status(), Status::Reserved);
    assert_eq!(FatEntry(0x0FFF_FFF7).status(), Status::Bad);
    assert_eq!(FatEntry(0x0FFF_FFF8).status(), Status::Eoc(0x0FFF_FFF8));
    assert_eq!(FatEntry(0x0FFF_FFFF).status(), Status::Eoc(0x0FFF_FFFF));
    assert_eq!(FatEntry(0xF000_0005).status(), Status::Data(Cluster(5)));
    assert_eq!(FatEntry(0xFFFF_FFFF).status(), Status::Eoc(0xFFFF_FFFF));
    assert_eq!(FatEntry(0x1000_0000).status(), Status::Free);
}

#[test]
fn cluster_from_masks_top_bits() {
    assert_eq!(Cluster::from(0xF000_0007), Cluster(7));
    assert_eq!(Cluster::from(0x0ABC_DEF0).cluster_num(), 0x0ABC_DEF0);
}

#[test]
fn metadata_and_timestamps() {
    let r = short_record(b"HELLO   TXT", 0x21, 0x0012_0034, 77);
    let m = Metadata::parse(&r, 11);
    assert!(m.read_only());
    assert!(!m.hidden());
    assert!(m.is_archive());
    assert!(!m.is_directory());
    assert!(!m.is_lfn_entry());
    assert_eq!(m.first_cluster_num(), 0x0012_0034);
    let c = m.created();
    assert_eq!(c.time, Time(0x5A3C));
    assert_eq!(c.date, Date(0x4A21));
    // 0x4A21: year 37 after 1980, month 1, day 1.
    assert_eq!(c.year(), 2017);
    assert_eq!(c.month(), 1);
    assert_eq!(c.day(), 1);
    // 0x5A3C: 11 h, 17 min, 28 * 2 s.
    assert_eq!(c.hour(), 11);
    assert_eq!(c.minute(), 17);
    assert_eq!(c.second(), 56);
    let lfn = Metadata::parse(&[0u8, 0, 0, 0, 0, 0, 0, 0, 0, 0, 0, 0x0F, 0, 0, 0, 0, 0, 0, 0, 0, 0, 0, 0, 0, 0, 0, 0, 0], 11);
    assert!(lfn.is_lfn_entry());
    assert_eq!(Metadata::default().accessed(), Timestamp { time: Time(0), date: Date(0) });
}

#[test]
fn cache_reads_a_sector_once() {
    let img = Image::new();
    let disk = img.disk();
    let reads = disk.reads.clone();
    let mut cd = CachedDevice::new(disk, Partition { start: 1, sector_size: 512 });
    let first = cd.get(2).unwrap().to_vec();
    assert_eq!(reads.get(), 1);
    let second = cd.get(2).unwrap().to_vec();
    assert_eq!(reads.get(), 1);
    assert_eq!(first, second);
    assert_eq!(&first[..], &img.bytes[2 * SECTOR..3 * SECTOR]);
}

#[test]
fn cache_get_mut_marks_dirty_and_keeps_bytes() {
    let img = Image::new();
    let disk = img.disk();
    let reads = disk.reads.clone();
    let mut cd = CachedDevice::new(disk, Partition { start: 1, sector_size: 512 });
    let before = cd.get(0).unwrap().to_vec();
    assert!(!cd.cache.get(&0).unwrap().dirty);
    let now = cd.get_mut(0).unwrap().to_vec();
    assert_eq!(before, now);
    assert!(cd.cache.get(&0).unwrap().dirty);
    assert_eq!(reads.get(), 1);
}

#[test]
fn cache_assembles_logical_sectors() {
    let mut bytes = vec![0u8; 8 * SECTOR];
    for (i, b) in bytes.iter_mut().enumerate() {
        *b = (i / SECTOR) as u8;
    }
    let disk = MemDisk::new(512, bytes);
    let reads = disk.reads.clone();
    let mut cd = CachedDevice::new(disk, Partition { start: 2, sector_size: 1024 });
    // Before the partition: physical sector 1 itself.
    let s1 = cd.get(1).unwrap().to_vec();
    assert_eq!(s1.len(), 512);
    assert!(s1.iter().all(|b| *b == 1));
    // Logical sector 3 is partition sector 1: physical sectors 4 and 5.
    let s3 = cd.get(3).unwrap().to_vec();
    assert_eq!(s3.len(), 1024);
    assert!(s3[..512].iter().all(|b| *b == 4));
    assert!(s3[512..].iter().all(|b| *b == 5));
    assert_eq!(reads.get(), 3);
}

#[test]
fn cache_rejects_sectors_past_the_largest_number() {
    let disk = MemDisk::new(512, vec![0u8; SECTOR]);
    let mut cd = CachedDevice::new(disk, Partition { start: 0, sector_size: 1024 });
    assert!(matches!(cd.get(u64::MAX), Err(Error::InvalidInput)));
}

#[test]
fn mount_reads_geometry() {
    let img = Image::new();
    let fs = mount(&img);
    assert_eq!(fs.bytes_per_sector, 512);
    assert_eq!(fs.sectors_per_cluster, 1);
    assert_eq!(fs.fat_start_sector, 2);
    assert_eq!(fs.data_start_sector, 6);
    assert_eq!(fs.root_dir_cluster, Cluster(2));
}

#[test]
fn mount_without_fat32_partition_is_not_found() {
    let mut img = Image::new();
    img.bytes[..SECTOR].copy_from_slice(&mbr_sector([0x83, 0x07, 0, 0], [1, 0, 0, 0]));
    assert!(matches!(VFat::from(img.disk()), Err(Error::NotFound)));
}

#[test]
fn mount_reports_boot_sector_errors() {
    let mut img = Image::new();
    img.bytes[SECTOR + 511] = 0;
    assert!(matches!(VFat::from(img.disk()), Err(Error::BadSignature)));
    let mut img = Image::new();
    put_u16(&mut img.bytes, SECTOR + 11, 0);
    assert!(matches!(VFat::from(img.disk()), Err(Error::BadGeometry)));
    let mut img = Image::new();
    img.bytes[510] = 0;
    assert!(matches!(VFat::from(img.disk()), Err(Error::Mbr(mbr::Error::BadSignature))));
    assert!(matches!(VFat::from(BrokenDisk), Err(Error::Mbr(mbr::Error::Io(_)))));
}

#[test]
fn fat_entry_reads_the_table() {
    let mut img = Image::new();
    img.set_fat(9, 10);
    let mut fs = mount(&img);
    assert_eq!(fs.fat_entry(Cluster(9)).unwrap().status(), Status::Data(Cluster(10)));
    assert_eq!(fs.fat_entry(Cluster(2)).unwrap().status(), Status::Eoc(0x0FFF_FFFF));
    assert_eq!(fs.fat_entry(Cluster(11)).unwrap().status(), Status::Free);
}

#[test]
fn read_cluster_from_offset() {
    let mut img = Image::new();
    let data: Vec<u8> = (0..512).map(|i| (i % 251) as u8).collect();
    img.write(5, 0, &data);
    let mut fs = mount(&img);
    let mut buf = vec![0xEEu8; 100];
    assert_eq!(fs.read_cluster(Cluster(5), 500, &mut buf).unwrap(), 12);
    assert_eq!(&buf[..12], &data[500..512]);
    assert!(buf[12..].iter().all(|b| *b == 0xEE));
    assert!(matches!(fs.read_cluster(Cluster(1), 0, &mut buf), Err(Error::InvalidData)));
}

#[test]
fn read_chain_reads_every_cluster() {
    let mut img = Image::new();
    img.chain(&[8, 9, 12]);
    img.write(8, 0, &[1u8; 512]);
    img.write(9, 0, &[2u8; 512]);
    img.write(12, 0, &[3u8; 512]);
    let mut fs = mount(&img);
    let mut buf = vec![9u8; 7];
    assert_eq!(fs.read_chain(Cluster(8), &mut buf).unwrap(), 3 * 512);
    assert_eq!(buf.len(), 3 * 512);
    assert!(buf[..512].iter().all(|b| *b == 1));
    assert!(buf[512..1024].iter().all(|b| *b == 2));
    assert!(buf[1024..].iter().all(|b| *b == 3));
}

#[test]
fn read_chain_detects_a_cycle() {
    let mut img = Image::new();
    img.set_fat(6, 7);
    img.set_fat(7, 6);
    let mut fs = mount(&img);
    let mut buf = Vec::new();
    assert!(matches!(fs.read_chain(Cluster(6), &mut buf), Err(Error::InvalidData)));
    let mut img = Image::new();
    img.chain(&[3, 4, 5]);
    img.set_fat(5, 4);
    let mut fs = mount(&img);
    assert!(matches!(fs.read_chain(Cluster(3), &mut buf), Err(Error::InvalidData)));
}

#[test]
fn read_chain_rejects_bad_links() {
    let mut img = Image::new();
    img.set_fat(6, 7);
    img.set_fat(7, 0);
    let mut fs = mount(&img);
    let mut buf = Vec::new();
    assert!(matches!(fs.read_chain(Cluster(6), &mut buf), Err(Error::InvalidData)));
    img.set_fat(7, 0x0FFF_FFF7);
    let mut fs = mount(&img);
    assert!(matches!(fs.read_chain(Cluster(6), &mut buf), Err(Error::InvalidData)));
}

fn iterator_over(records: Vec<u8>) -> VFatEntryIterator {
    let mut data = records;
    data.resize(1024, 0);
    VFatEntryIterator { idx: 0, data, bytes_per_cluster: 512 }
}

#[test]
fn long_name_round_trip() {
    for name in ["a", "exactly13char", "exactly13charX", "A much longer name, with spaces.txt", "ünïcödé ñame ☃ end"] {
        let mut recs = lfn_records(name);
        recs.extend_from_slice(&short_record(b"SHORT   TXT", 0x20, 9, 10));
        let mut it = iterator_over(recs);
        match it.next() {
            Some(Entry::File(f)) => {
                assert_eq!(f.lfn, name);
                assert_eq!(f.short_file_name, "SHORT.TXT");
                assert_eq!(f.size, 10);
                assert_eq!(f.first_cluster, Cluster(9));
            },
            other => panic!("unexpected {:?}", other),
        }
        assert!(it.next().is_none());
    }
}

#[test]
fn long_name_of_twenty_records() {
    let name: String = std::iter::repeat("abcdefghijklm").take(20).collect();
    let mut recs = lfn_records(&name);
    assert_eq!(recs.len(), 20 * 32);
    recs.extend_from_slice(&short_record(b"LONGNA~1   ", 0x10, 4, 0));
    let mut it = iterator_over(recs);
    match it.next() {
        Some(Entry::Dir(d)) => {
            assert_eq!(d.lfn, name);
            assert_eq!(d.short_file_name, "LONGNA~1");
        },
        other => panic!("unexpected {:?}", other),
    }
}

#[test]
fn directory_skips_deleted_and_stops_at_end() {
    let mut recs = Vec::new();
    let mut deleted = short_record(b"GONE    TXT", 0x20, 3, 1);
    deleted[0] = 0xE5;
    recs.extend_from_slice(&deleted);
    recs.extend_from_slice(&short_record(b"KEEP       ", 0x20, 4, 2));
    recs.extend_from_slice(&vec![0u8; 32]);
    recs.extend_from_slice(&short_record(b"AFTER      ", 0x20, 5, 3));
    let mut it = iterator_over(recs);
    let e = it.next().unwrap();
    assert_eq!(e.name(), "KEEP");
    assert!(e.as_file().is_some());
    assert!(e.as_dir().is_none());
    assert!(it.next().is_none());
    assert!(it.next().is_none());
}

/// Root holds directory `A`; `A` holds directory `B` and file `Café.txt`
/// (short name `CAFE~1.TXT`); `B` is empty.
fn tree() -> Image {
    let mut img = Image::new();
    let mut root = short_record(b"A          ", 0x10, 3, 0);
    root.extend_from_slice(&short_record(b"README  MD ", 0x20, 6, 5));
    img.write(2, 0, &root);
    img.write(6, 0, b"hello");
    let mut a = short_record(b"B          ", 0x10, 4, 0);
    a.extend_from_slice(&lfn_records("Café.txt"));
    a.extend_from_slice(&short_record(b"CAFE~1  TXT", 0x20, 5, 3));
    img.write(3, 0, &a);
    img.write(5, 0, b"abc");
    img.chain(&[3]);
    img.chain(&[4]);
    img.chain(&[5]);
    img.chain(&[6]);
    img
}

#[test]
fn find_ignores_ascii_case() {
    let img = tree();
    let mut fs = mount(&img);
    let root = Dir::new_dir(&fs);
    let a = root.find(&mut fs, "a").unwrap().into_dir().unwrap();
    assert_eq!(a.first_cluster, Cluster(3));
    let f = a.find(&mut fs, "cafe~1.txt").unwrap();
    assert_eq!(f.name(), "Café.txt");
    let g = a.find(&mut fs, "CAFé.TXT").unwrap();
    assert_eq!(g.name(), "Café.txt");
    assert!(matches!(a.find(&mut fs, "CAFÉ.TXT"), Err(Error::NotFound)));
    assert!(matches!(root.find(&mut fs, "missing"), Err(Error::NotFound)));
}

#[test]
fn open_resolves_parent_components() {
    let img = tree();
    let mut fs = mount(&img);
    let x = fs.open("/a/b/../Café.txt").unwrap();
    let y = fs.open("/a/Café.txt").unwrap();
    assert_eq!(x.name(), y.name());
    let (xf, yf) = (x.into_file().unwrap(), y.into_file().unwrap());
    assert_eq!(xf.first_cluster, yf.first_cluster);
    assert_eq!(xf.size, yf.size);
    let z = fs.open("//A/./B/../../a/CAFE~1.TXT/").unwrap();
    assert_eq!(z.name(), "Café.txt");
}

#[test]
fn open_root_and_errors() {
    let img = tree();
    let mut fs = mount(&img);
    let r = fs.open("/").unwrap();
    assert!(r.as_dir().is_some());
    assert_eq!(r.as_dir().unwrap().first_cluster, Cluster(2));
    let r = fs.open("/..").unwrap();
    assert_eq!(r.as_dir().unwrap().first_cluster, Cluster(2));
    assert!(matches!(fs.open("a/b"), Err(Error::InvalidInput)));
    assert!(matches!(fs.open(""), Err(Error::InvalidInput)));
    assert!(matches!(fs.open("/nothing"), Err(Error::NotFound)));
    assert!(matches!(fs.open("/readme.md/x"), Err(Error::NotFound)));
}

#[test]
fn seek_then_read_stops_at_end_of_file() {
    let mut img = Image::new();
    let clusters: Vec<u32> = (10..20).collect();
    img.chain(&clusters);
    let content: Vec<u8> = (0..5120).map(|i| (i % 253) as u8).collect();
    for (k, c) in clusters.iter().enumerate() {
        img.write(*c, 0, &content[512 * k..512 * (k + 1)]);
    }
    let mut root = short_record(b"BIG     BIN", 0x20, 10, 5000);
    root.extend_from_slice(&vec![0u8; 32]);
    img.write(2, 0, &root);
    let mut fs = mount(&img);
    let mut f = fs.open("/big.bin").unwrap().into_file().unwrap();
    assert_eq!(f.size(), 5000);
    assert_eq!(f.seek(&mut fs, SeekFrom::Start(4600)).unwrap(), 4600);
    let mut buf = vec![0u8; 500];
    assert_eq!(f.read(&mut fs, &mut buf).unwrap(), 400);
    assert_eq!(&buf[..400], &content[4600..5000]);
    assert_eq!(f.read(&mut fs, &mut buf).unwrap(), 0);
    assert_eq!(f.seek(&mut fs, SeekFrom::End(-5000)).unwrap(), 0);
    let mut all = vec![0u8; 6000];
    assert_eq!(f.read(&mut fs, &mut all).unwrap(), 5000);
    assert_eq!(&all[..5000], &content[..5000]);
    assert_eq!(f.seek(&mut fs, SeekFrom::Start(1000)).unwrap(), 1000);
    assert_eq!(f.seek(&mut fs, SeekFrom::Current(24)).unwrap(), 1024);
    let mut small = vec![0u8; 3];
    assert_eq!(f.read(&mut fs, &mut small).unwrap(), 3);
    assert_eq!(&small[..], &content[1024..1027]);
}

#[test]
fn seek_outside_the_file_is_invalid_input() {
    let mut img = Image::new();
    img.chain(&[10, 11]);
    let mut root = short_record(b"TWO     BIN", 0x20, 10, 1000);
    root.extend_from_slice(&short_record(b"SHORT   BIN", 0x20, 12, 1000));
    img.write(2, 0, &root);
    let mut fs = mount(&img);
    let mut f = fs.open("/two.bin").unwrap().into_file().unwrap();
    assert!(matches!(f.seek(&mut fs, SeekFrom::Start(1000)), Err(Error::InvalidInput)));
    assert!(matches!(f.seek(&mut fs, SeekFrom::End(0)), Err(Error::InvalidInput)));
    assert!(matches!(f.seek(&mut fs, SeekFrom::Current(-1)), Err(Error::InvalidInput)));
    assert_eq!(f.seek(&mut fs, SeekFrom::End(-1)).unwrap(), 999);
    // Cluster 12 ends its chain at once: a position in a second cluster cannot be reached.
    img.set_fat(12, 0x0FFF_FFFF);
    let mut fs = mount(&img);
    let mut g = fs.open("/short.bin").unwrap().into_file().unwrap();
    assert!(matches!(g.seek(&mut fs, SeekFrom::Start(600)), Err(Error::InvalidInput)));
    assert_eq!(g.seek(&mut fs, SeekFrom::Start(100)).unwrap(), 100);
}

#[test]
fn writes_are_unsupported() {
    let img = tree();
    let mut fs = mount(&img);
    let mut f = fs.open("/readme.md").unwrap().into_file().unwrap();
    assert!(matches!(f.write(b"x"), Err(Error::Unsupported)));
    assert!(matches!(f.flush(), Err(Error::Unsupported)));
    assert!(matches!(f.sync(), Err(Error::Unsupported)));
    let mut buf = vec![0u8; 16];
    assert_eq!(f.read(&mut fs, &mut buf).unwrap(), 5);
    assert_eq!(&buf[..5], b"hello");
}

#[test]
fn path_components_follow_segments() {
    let c = components("/a//./b/../c/");
    assert_eq!(
        c,
        vec![
            Component::RootDir,
            Component::Normal(b"a".to_vec()),
            Component::Normal(b"b".to_vec()),
            Component::ParentDir,
            Component::Normal(b"c".to_vec()),
        ]
    );
}

#[test]
fn ascii_case_comparison() {
    assert!(bytes_eq_ignore_ascii_case(b"Hello.TXT", b"hELLO.txt"));
    assert!(!bytes_eq_ignore_ascii_case(b"Hello", b"Hell"));
    assert!(!bytes_eq_ignore_ascii_case(b"a[", b"A{"));
}

#[test]
fn align_helpers() {
    assert!(check_align(8));
    assert!(!check_align(1));
    assert!(!check_align(12));
    assert_eq!(align_down(0x1234, 0x100), 0x1200);
    assert_eq!(align_down(0x1200, 0x100), 0x1200);
    assert_eq!(align_up(0x1201, 0x100), 0x1300);
    assert_eq!(align_up(0x1200, 0x100), 0x1200);
    assert_eq!(align_up(0, 16), 0);
}

#[test]
fn cache_serves_as_a_device_of_cached_sectors() {
    let img = Image::new();
    let mut cd = CachedDevice::new(img.disk(), Partition { start: 1, sector_size: 512 });
    let mut buf = vec![0u8; 512];
    assert!(cd.read_sector(2, &mut buf).is_err());
    let bytes = cd.get(2).unwrap().to_vec();
    assert_eq!(cd.read_sector(2, &mut buf).unwrap(), 512);
    assert_eq!(buf, bytes);
    assert_eq!(BlockDevice::sector_size(&cd), 512);
    assert!(cd.write_sector(2, &buf).is_err());
}

#[test]
fn record_kinds_are_told_apart() {
    let mut recs = lfn_records("x");
    recs.extend_from_slice(&short_record(b"X          ", 0x20, 7, 1));
    let mut deleted = short_record(b"Y          ", 0x20, 8, 1);
    deleted[0] = 0xE5;
    recs.extend_from_slice(&deleted);
    assert!(matches!(VFatDirEntry::decode(&recs, 0), VFatDirEntry::LongFileName(l) if l.sequence_num == 0x41 && l.name_chars_0[0] == b'x'));
    assert!(matches!(VFatDirEntry::decode(&recs, 32), VFatDirEntry::Regular(r) if r.size_file == 1 && r.file_name == *b"X       "));
    assert!(matches!(VFatDirEntry::decode(&recs, 64), VFatDirEntry::Unknown(u) if u.first_byte == 0xE5));
}

#[test]
fn read_across_a_bad_link_is_invalid_data() {
    let mut img = Image::new();
    img.set_fat(10, 11);
    img.set_fat(11, 0x0FFF_FFF7);
    let mut root = short_record(b"BAD     BIN", 0x20, 10, 2000);
    root.extend_from_slice(&short_record(b"ZERO    BIN", 0x20, 0, 100));
    img.write(2, 0, &root);
    let mut fs = mount(&img);
    let mut f = fs.open("/bad.bin").unwrap().into_file().unwrap();
    let mut buf = vec![0u8; 600];
    // Crosses the end of cluster 10, whose link is to 11: fine.
    assert_eq!(f.read(&mut fs, &mut buf).unwrap(), 600);
    // Crosses the end of cluster 11, which is marked bad.
    let mut rest = vec![0u8; 1000];
    assert!(matches!(f.read(&mut fs, &mut rest), Err(Error::InvalidData)));
    // A file whose first cluster is 0 cannot be read, but an empty read succeeds.
    let mut z = fs.open("/zero.bin").unwrap().into_file().unwrap();
    assert_eq!(z.read(&mut fs, &mut []).unwrap(), 0);
    assert!(matches!(z.read(&mut fs, &mut buf), Err(Error::InvalidData)));
}

#[test]
fn read_stops_early_when_the_chain_ends() {
    let mut img = Image::new();
    img.chain(&[10]);
    img.write(10, 0, &[7u8; 512]);
    let mut root = short_record(b"CUT     BIN", 0x20, 10, 2000);
    root.extend_from_slice(&vec![0u8; 32]);
    img.write(2, 0, &root);
    let mut fs = mount(&img);
    let mut f = fs.open("/cut.bin").unwrap().into_file().unwrap();
    let mut buf = vec![0u8; 1500];
    assert_eq!(f.read(&mut fs, &mut buf).unwrap(), 512);
    assert!(buf[..512].iter().all(|b| *b == 7));
}

#[test]
fn open_root_reads_nothing() {
    let img = tree();
    let disk = img.disk();
    let reads = disk.reads.clone();
    let mut fs = VFat::from(disk).unwrap();
    let before = reads.get();
    assert!(fs.open("/").unwrap().as_dir().is_some());
    assert!(fs.open("/./..").unwrap().as_dir().is_some());
    assert_eq!(reads.get(), before);
    assert!(matches!(fs.open("a"), Err(Error::InvalidInput)));
    assert_eq!(reads.get(), before);
}

#[test]
fn utf16_decoding_is_lossy_on_unpaired_surrogates() {
    assert_eq!(text_from_utf16(&[0x61, 0xD800, 0x62]), "a\u{FFFD}b");
    assert_eq!(text_from_utf16(&[0xDC00, 0x63]), "\u{FFFD}c");
    assert_eq!(text_from_utf16(&[0xD83D, 0xDE00]), "\u{1F600}");
    assert_eq!(text_from_utf16(&[]), "");
}
