//! Parsing and serialization of the volume parameter block, with the
//! derived region start addresses.

use vstd::prelude::*;

use crate::fs::fat_constants::{BOOT_SIG_LEAD, BOOT_SIG_TRAIL};

verus! {

#[derive(Clone, Copy, Debug, PartialEq, Eq, Structural)]
pub enum FatError {
    InvalidLength,
    InvalidSignature,
}

#[derive(Clone, Copy, Debug, PartialEq, Eq, Structural)]
pub struct BootSector {
    pub bytes_per_sector: u16,
    pub sectors_per_cluster: u8,
    pub reserved_sectors: u16,
    pub num_fats: u8,
    pub max_root_dir_entries: u16,
    pub total_sectors: u16,
    pub sectors_per_fat: u16,
    pub fat_start_lba: u32,
    pub root_dir_start_lba: u32,
    pub data_start_lba: u32,
}

/// The value of a little-endian 16-bit word with bytes `lo`, `hi`.
pub open spec fn le16(lo: u8, hi: u8) -> int {
    lo + 256 * hi
}

/// Low byte of a little-endian 16-bit word.
pub open spec fn lo_byte(x: int) -> u8 {
    (x % 256) as u8
}

/// High byte of a little-endian 16-bit word.
pub open spec fn hi_byte(x: int) -> u8 {
    ((x / 256) % 256) as u8
}

/// A buffer at least 512 bytes long whose trailing signature bytes are
/// `0x55, 0xAA`.
pub open spec fn boot_signed(b: Seq<u8>) -> bool {
    b.len() >= 512 && b[510] == 0x55 && b[511] == 0xAA
}

/// Number of sectors covered by a root directory of `max_root` 32-byte
/// slots, rounded up.
pub open spec fn spec_root_dir_sectors(max_root: int, bps: int) -> int
    recommends
        bps > 0,
{
    (max_root * 32 + (bps - 1)) / bps
}

/// The boot sector record read from a signed buffer, including the three
/// derived region start addresses.
pub open spec fn spec_parse(b: Seq<u8>) -> BootSector
    recommends
        boot_signed(b),
        le16(b[11], b[12]) != 0,
{
    let bps = le16(b[11], b[12]);
    let reserved = le16(b[14], b[15]);
    let mre = le16(b[17], b[18]);
    let spf = le16(b[22], b[23]);
    let fat_start = reserved;
    let root_start = fat_start + b[16] * spf;
    let data_start = root_start + spec_root_dir_sectors(mre, bps);
    BootSector {
        bytes_per_sector: bps as u16,
        sectors_per_cluster: b[13],
        reserved_sectors: reserved as u16,
        num_fats: b[16],
        max_root_dir_entries: mre as u16,
        total_sectors: le16(b[19], b[20]) as u16,
        sectors_per_fat: spf as u16,
        fat_start_lba: fat_start as u32,
        root_dir_start_lba: root_start as u32,
        data_start_lba: data_start as u32,
    }
}

/// `b` with the persisted boot-sector fields and the signature written at
/// their fixed offsets; all other bytes are left as they were.
pub open spec fn spec_serialize(bs: BootSector, b: Seq<u8>) -> Seq<u8>
    recommends
        b.len() >= 512,
{
    b.update(11, lo_byte(bs.bytes_per_sector as int)).update(12, hi_byte(bs.bytes_per_sector as int)).update(
        13,
        bs.sectors_per_cluster,
    ).update(14, lo_byte(bs.reserved_sectors as int)).update(15, hi_byte(bs.reserved_sectors as int)).update(
        16,
        bs.num_fats,
    ).update(17, lo_byte(bs.max_root_dir_entries as int)).update(
        18,
        hi_byte(bs.max_root_dir_entries as int),
    ).update(19, lo_byte(bs.total_sectors as int)).update(20, hi_byte(bs.total_sectors as int)).update(
        22,
        lo_byte(bs.sectors_per_fat as int),
    ).update(23, hi_byte(bs.sectors_per_fat as int)).update(510, 0x55u8).update(511, 0xAAu8)
}

/// Splitting a 16-bit value into its little-endian bytes and reading them
/// back yields the value again.
pub proof fn lemma_le16_of_bytes(x: int)
    requires
        0 <= x < 65536,
    ensures
        le16(lo_byte(x), hi_byte(x)) == x,
{
    vstd::arithmetic::div_mod::lemma_fundamental_div_mod(x, 256);
    assert(0 <= x % 256 < 256) by (nonlinear_arith)
        requires
            0 <= x,
    ;
    assert(0 <= x / 256 < 256) by (nonlinear_arith)
        requires
            0 <= x < 65536,
    ;
    assert((x / 256) % 256 == x / 256) by (nonlinear_arith)
        requires
            0 <= x / 256 < 256,
    ;
}

impl BootSector {
    /// Read the volume parameter block from a raw boot-sector buffer.
    ///
    /// A buffer shorter than 512 bytes is rejected as `InvalidLength`, one
    /// without the `0x55, 0xAA` trailing signature as `InvalidSignature`;
    /// anything signed parses successfully.  A signed buffer whose
    /// bytes-per-sector word is zero is excluded up front, since no sector
    /// count can be derived from it.
    pub fn parse(buf: &[u8]) -> (r: Result<BootSector, FatError>)
        requires
            boot_signed(buf@) ==> le16(buf@[11], buf@[12]) != 0,
        ensures
            buf@.len() < 512 ==> r == Err::<BootSector, FatError>(FatError::InvalidLength),
            buf@.len() >= 512 && !(buf@[510] == 0x55 && buf@[511] == 0xAA) ==> r == Err::<
                BootSector,
                FatError,
            >(FatError::InvalidSignature),
            boot_signed(buf@) ==> r == Ok::<BootSector, FatError>(spec_parse(buf@)),
    {
        if buf.len() < 512 {
            return Err(FatError::InvalidLength);
        }
        if buf[510] != BOOT_SIG_LEAD || buf[511] != BOOT_SIG_TRAIL {
            return Err(FatError::InvalidSignature);
        }
        let bytes_per_sector: u16 = buf[11] as u16 + 256 * (buf[12] as u16);
        let sectors_per_cluster: u8 = buf[13];
        let reserved_sectors: u16 = buf[14] as u16 + 256 * (buf[15] as u16);
        let num_fats: u8 = buf[16];
        let max_root_dir_entries: u16 = buf[17] as u16 + 256 * (buf[18] as u16);
        let total_sectors: u16 = buf[19] as u16 + 256 * (buf[20] as u16);
        let sectors_per_fat: u16 = buf[22] as u16 + 256 * (buf[23] as u16);

        let fat_start_lba: u32 = reserved_sectors as u32;
        proof {
            assert((num_fats as int) * (sectors_per_fat as int) <= 255 * 65535) by (nonlinear_arith)
                requires
                    num_fats <= 255,
                    sectors_per_fat <= 65535,
            ;
        }
        let root_dir_start_lba: u32 = fat_start_lba + (num_fats as u32) * (sectors_per_fat as u32);
        let root_dir_sectors: u32 = ((max_root_dir_entries as u32) * 32 + (bytes_per_sector as u32
            - 1)) / (bytes_per_sector as u32);
        let data_start_lba: u32 = root_dir_start_lba + root_dir_sectors;

        Ok(
            BootSector {
                bytes_per_sector,
                sectors_per_cluster,
                reserved_sectors,
                num_fats,
                max_root_dir_entries,
                total_sectors,
                sectors_per_fat,
                fat_start_lba,
                root_dir_start_lba,
                data_start_lba,
            },
        )
    }

    /// Write the persisted fields and the boot signature back into `buf`.
    ///
    /// Only the fields listed in `spec_serialize` are round-tripped; the
    /// derived region addresses are recomputed by `parse`.
    pub fn serialize(&self, buf: &mut Vec<u8>) -> (r: Result<(), FatError>)
        ensures
            old(buf)@.len() < 512 ==> r == Err::<(), FatError>(FatError::InvalidLength)
                && final(buf)@ == old(buf)@,
            old(buf)@.len() >= 512 ==> r == Ok::<(), FatError>(())
                && final(buf)@ == spec_serialize(*self, old(buf)@),
    {
        if buf.len() < 512 {
            return Err(FatError::InvalidLength);
        }
        buf[11] = (self.bytes_per_sector % 256) as u8;
        buf[12] = (self.bytes_per_sector / 256) as u8;
        buf[13] = self.sectors_per_cluster;
        buf[14] = (self.reserved_sectors % 256) as u8;
        buf[15] = (self.reserved_sectors / 256) as u8;
        buf[16] = self.num_fats;
        buf[17] = (self.max_root_dir_entries % 256) as u8;
        buf[18] = (self.max_root_dir_entries / 256) as u8;
        buf[19] = (self.total_sectors % 256) as u8;
        buf[20] = (self.total_sectors / 256) as u8;
        buf[22] = (self.sectors_per_fat % 256) as u8;
        buf[23] = (self.sectors_per_fat / 256) as u8;
        buf[510] = BOOT_SIG_LEAD;
        buf[511] = BOOT_SIG_TRAIL;
        proof {
            assert(final(buf)@ =~= spec_serialize(*self, old(buf)@));
        }
        Ok(())
    }
}

/// For any buffer of at least 512 bytes and any boot sector whose
/// bytes-per-sector is nonzero, the serialized buffer carries a valid
/// signature, and parsing it reproduces every field that `serialize`
/// persists.
pub proof fn lemma_parse_serialize_roundtrip(bs: BootSector, b: Seq<u8>)
    requires
        b.len() >= 512,
        bs.bytes_per_sector != 0,
    ensures
        boot_signed(spec_serialize(bs, b)),
        le16(spec_serialize(bs, b)[11], spec_serialize(bs, b)[12]) == bs.bytes_per_sector,
        spec_parse(spec_serialize(bs, b)).bytes_per_sector == bs.bytes_per_sector,
        spec_parse(spec_serialize(bs, b)).sectors_per_cluster == bs.sectors_per_cluster,
        spec_parse(spec_serialize(bs, b)).reserved_sectors == bs.reserved_sectors,
        spec_parse(spec_serialize(bs, b)).num_fats == bs.num_fats,
        spec_parse(spec_serialize(bs, b)).max_root_dir_entries == bs.max_root_dir_entries,
        spec_parse(spec_serialize(bs, b)).total_sectors == bs.total_sectors,
        spec_parse(spec_serialize(bs, b)).sectors_per_fat == bs.sectors_per_fat,
{
    let s = spec_serialize(bs, b);
    lemma_le16_of_bytes(bs.bytes_per_sector as int);
    lemma_le16_of_bytes(bs.reserved_sectors as int);
    lemma_le16_of_bytes(bs.max_root_dir_entries as int);
    lemma_le16_of_bytes(bs.total_sectors as int);
    lemma_le16_of_bytes(bs.sectors_per_fat as int);
    assert(s[11] == lo_byte(bs.bytes_per_sector as int));
    assert(s[12] == hi_byte(bs.bytes_per_sector as int));
    assert(s[13] == bs.sectors_per_cluster);
    assert(s[16] == bs.num_fats);
    assert(s[510] == 0x55 && s[511] == 0xAA);
}

} // verus!
