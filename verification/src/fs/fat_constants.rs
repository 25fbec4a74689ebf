//! Constants for the FAT12-style filesystem, kept in a small module so
//! tests and parsers can import them.

use vstd::prelude::*;

verus! {

pub const BYTES_PER_SECTOR: u16 = 512;

pub const SECTORS_PER_CLUSTER_DEFAULT: u8 = 1;

/// Single FAT copy for simplicity.
pub const NUM_FATS: u8 = 1;

/// Common floppy default.
pub const FAT12_MAX_ROOT_DIR_ENTRIES: u16 = 224;

/// Fewer clusters than this means FAT12.
pub const FAT12_MAX_CLUSTERS: u32 = 4084;

/// Fewer clusters than this means FAT16.
pub const FAT16_MAX_CLUSTERS: u32 = 65524;

/// Offset of the two-byte boot signature inside the boot sector.
pub const BOOT_SIG_OFFSET: usize = 510;

pub const BOOT_SIG_LEAD: u8 = 0x55;

pub const BOOT_SIG_TRAIL: u8 = 0xAA;

} // verus!
