//! The FAT12-style storage engine: boot sector, allocation table,
//! root directory and the orchestrating filesystem.

pub mod block_device;
pub mod boot_sector;
pub mod fat_table;
pub mod fs;
pub mod bytes;
pub mod directory;
pub mod fat_constants;
pub mod mock_device;
