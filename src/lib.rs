//! The data-access core of a two-stage x86 BIOS boot loader: disk access over
//! the BIOS (LBA or CHS, within real-mode addressing), a FAT32 reader that
//! finds a file in the root directory and copies it out through a cached FAT
//! and coalesced sector runs, and the CRC32C check of the loaded image.

pub mod boot;
pub mod chain;
pub mod console;
pub mod crc32c;
pub mod directory;
pub mod disk;
pub mod error;
pub mod fat32;
pub mod memdisk;
pub mod num_to_str;
pub mod reads;
