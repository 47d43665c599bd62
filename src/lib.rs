//! A read-only FAT32 ("VFAT") filesystem driver over an abstract block device.
//!
//! The driver locates the first FAT32 partition in the master boot record,
//! reads its boot sector, caches sectors, follows cluster chains through the
//! file allocation table, decodes directory records (long file names
//! included), resolves absolute paths and reads files.
//!
//! Every executable function is verified against its contract. Contracts are
//! stated over byte-level models: the bytes of each sector of the device
//! (`BlockDevice::sector_content`), the logical sectors the cache serves
//! (`CachedDevice::sector_view`), the bytes of each cluster
//! (`VFat::cluster_byte`) and the status of each FAT entry
//! (`VFat::fat_status`).

pub mod align;
pub mod bytes;
pub mod cache;
pub mod cluster;
pub mod device;
pub mod dir;
pub mod ebpb;
pub mod entry;
pub mod error;
pub mod fat;
pub mod file;
pub mod mbr;
pub mod metadata;
pub mod path;
pub mod resolve;
pub mod text;
pub mod vfat;

pub use cache::{CachedDevice, Partition};
pub use cluster::Cluster;
pub use device::BlockDevice;
pub use dir::{Dir, Entry, File};
pub use error::Error;
pub use fat::{FatEntry, Status};
pub use file::SeekFrom;
pub use mbr::MasterBootRecord;
pub use vfat::VFat;
