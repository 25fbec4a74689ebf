//! A small FAT12-style filesystem over a sector-addressed block device,
//! together with the skeleton of a network stack.
//!
//! The filesystem core translates byte-addressed file operations
//! (list/read/write/delete) into manipulation of a 12-bit packed
//! allocation table, fixed-size directory records and multi-sector
//! cluster reads and writes, all against an abstract
//! [`fs::block_device::BlockDevice`].

pub mod fs;
pub mod network;
