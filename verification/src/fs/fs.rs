//! The filesystem orchestrator: mount/format plus list, read, write and
//! delete over the root directory, composing the boot sector, the
//! allocation table and the directory into whole-volume operations.
//!
//! Every operation constructs transient `FatTable` / `Directory` views
//! over the borrowed device and discards them before returning; no state
//! survives across calls except what was written to the device.

use vstd::arithmetic::div_mod::lemma_fundamental_div_mod;
use vstd::prelude::*;
use vstd::string::StringSliceAdditionalSpecFns;

use crate::fs::block_device::{sectors_wf, BlockDevice};
use crate::fs::boot_sector::{boot_signed, le16, spec_parse, spec_serialize, BootSector, FatError};
use crate::fs::bytes::zero_sector;
use crate::fs::directory::{
    dir_sectors, spec_find, spec_find_idx_from, spec_free_idx_from, spec_list_from,
    spec_new_entry_bytes, spec_parse_entry, slot, views_of, Directory, DirectoryEntry,
};
use crate::fs::fat_constants::{
    BYTES_PER_SECTOR, FAT12_MAX_ROOT_DIR_ENTRIES, NUM_FATS, SECTORS_PER_CLUSTER_DEFAULT,
};
use crate::fs::fat_table::{
    chain_contains, entry_in_range, fat_entry, spec_chain, FatTable,
};

verus! {

#[derive(Clone, Copy, Debug, PartialEq, Eq, Structural)]
pub enum FsError {
    Boot(FatError),
    FileAlreadyExists,
    FileNotFound,
    NotFound,
    InvalidName,
    NoSpace,
}

impl From<FatError> for FsError {
    fn from(e: FatError) -> (r: FsError) {
        FsError::Boot(e)
    }
}

impl vstd::std_specs::convert::FromSpecImpl<FatError> for FsError {
    open spec fn obeys_from_spec() -> bool {
        true
    }

    open spec fn from_spec(e: FatError) -> FsError {
        FsError::Boot(e)
    }
}

/// An all-zero 512-byte sector.
pub open spec fn zero512() -> Seq<u8> {
    Seq::new(512, |i: int| 0u8)
}

/// The bytes of a device region as one flat sequence.
pub open spec fn region_bytes(sectors: Seq<Seq<u8>>, start: int, nbytes: int) -> Seq<u8> {
    Seq::new(nbytes as nat, |i: int| sectors[start + i / 512][i % 512])
}

/// The root directory view that the boot sector describes.
pub open spec fn spec_root_dir(bs: BootSector) -> Directory {
    Directory { start_lba: bs.root_dir_start_lba as u64, num_entries: bs.max_root_dir_entries }
}

/// The raw bytes of the root directory region.
pub open spec fn spec_dir_bytes(bs: BootSector, sectors: Seq<Seq<u8>>) -> Seq<u8> {
    spec_root_dir(bs).bytes(sectors)
}

/// The raw bytes of the allocation table region.
pub open spec fn spec_fat_bytes(bs: BootSector, sectors: Seq<Seq<u8>>) -> Seq<u8> {
    region_bytes(sectors, bs.fat_start_lba as int, 512 * (bs.sectors_per_fat as int))
}

/// How many clusters the allocation table can describe.
pub open spec fn spec_fat_capacity(bs: BootSector) -> int {
    1024 * (bs.sectors_per_fat as int) / 3
}

/// The first data sector of cluster `c`.
pub open spec fn data_lba(bs: BootSector, c: int) -> int {
    bs.data_start_lba + (c - 2) * (bs.sectors_per_cluster as int)
}

/// Cluster `c` is a data cluster whose sectors all lie on the device.
pub open spec fn cluster_maps(bs: BootSector, c: int, devlen: int) -> bool {
    c >= 2 && data_lba(bs, c) + bs.sectors_per_cluster <= devlen
}

/// Whole-volume consistency: 512-byte sectors, at least one sector per
/// cluster, a FAT capacity that stays within the 12-bit value space, and
/// the three regions in order and on the device.
pub open spec fn fs_inv(bs: BootSector, sectors: Seq<Seq<u8>>) -> bool {
    &&& sectors_wf(sectors)
    &&& sectors.len() <= u64::MAX
    &&& bs.bytes_per_sector == 512
    &&& bs.sectors_per_cluster >= 1
    &&& spec_fat_capacity(bs) <= 4087
    &&& bs.fat_start_lba + bs.sectors_per_fat <= bs.root_dir_start_lba
    &&& bs.root_dir_start_lba + dir_sectors(bs.max_root_dir_entries as int)
        <= bs.data_start_lba
    &&& bs.data_start_lba as int <= sectors.len()
}

/// The boot sector that `format` writes for a volume of `total_sectors`
/// sectors.
pub open spec fn spec_format_boot_sector(total_sectors: u16) -> BootSector {
    BootSector {
        bytes_per_sector: 512,
        sectors_per_cluster: 1,
        reserved_sectors: 1,
        num_fats: 1,
        max_root_dir_entries: 224,
        total_sectors,
        sectors_per_fat: 9,
        fat_start_lba: 1,
        root_dir_start_lba: 10,
        data_start_lba: 24,
    }
}

pub struct FileSystem {
    pub boot_sector: BootSector,
}

impl FileSystem {
    /// Read and parse the boot sector of a device.  Parse failures are
    /// propagated as `Boot(..)`; nothing else about the volume is
    /// validated, so a well-signed but otherwise arbitrary boot sector
    /// mounts successfully.
    pub fn mount<D: BlockDevice>(dev: &D) -> (r: Result<FileSystem, FsError>)
        requires
            sectors_wf(dev.sectors()),
            dev.sectors().len() >= 1,
            boot_signed(dev.sectors()[0]) ==> le16(
                dev.sectors()[0][11],
                dev.sectors()[0][12],
            ) != 0,
        ensures
            ({
                let s0 = dev.sectors()[0];
                &&& !boot_signed(s0) ==> r == Err::<FileSystem, FsError>(
                    FsError::Boot(FatError::InvalidSignature),
                )
                &&& boot_signed(s0) ==> r == Ok::<FileSystem, FsError>(
                    FileSystem { boot_sector: spec_parse(s0) },
                )
            }),
    {
        let buf = dev.read_sector(0);
        match BootSector::parse(buf.as_slice()) {
            Ok(bs) => Ok(FileSystem { boot_sector: bs }),
            Err(e) => Err(FsError::Boot(e)),
        }
    }

    /// Zero the whole device, then write a boot sector with the fixed
    /// format policy: 512-byte sectors, one sector per cluster, one FAT
    /// copy of nine sectors, 224 root entries.  The FAT and root regions
    /// are left zeroed.
    pub fn format<D: BlockDevice>(dev: &mut D, total_sectors: u16) -> (r: Result<(), FsError>)
        requires
            sectors_wf(old(dev).sectors()),
            24 <= old(dev).sectors().len() <= u64::MAX,
        ensures
            r == Ok::<(), FsError>(()),
            final(dev).sectors().len() == old(dev).sectors().len(),
            final(dev).sectors()[0] == spec_serialize(
                spec_format_boot_sector(total_sectors),
                zero512(),
            ),
            forall|i: int|
                1 <= i < final(dev).sectors().len() ==> final(dev).sectors()[i] == zero512(),
            sectors_wf(final(dev).sectors()),
    {
        let count = dev.sector_count();
        let zero = zero_sector();
        proof {
            assert(zero@ =~= zero512());
        }
        let mut lba: u64 = 0;
        while lba < count
            invariant
                lba <= count,
                count == dev.sectors().len(),
                zero@ == zero512(),
                sectors_wf(dev.sectors()),
                forall|i: int| 0 <= i < lba ==> dev.sectors()[i] == zero512(),
            decreases count - lba,
        {
            dev.write_sector(lba, zero.as_slice());
            lba = lba + 1;
        }
        let bs = FileSystem::format_boot_sector(total_sectors);
        let mut buf = zero_sector();
        proof {
            assert(buf@ =~= zero512());
        }
        let res = bs.serialize(&mut buf);
        proof {
            assert(res is Ok);
        }
        dev.write_sector(0, buf.as_slice());
        // Explicitly zero the FAT region and the root directory region;
        // redundant after the whole-disk zero, kept for contract clarity.
        let mut i: u64 = 0;
        while i < 9
            invariant
                i <= 9,
                dev.sectors().len() == old(dev).sectors().len(),
                24 <= dev.sectors().len() <= u64::MAX,
                zero@ == zero512(),
                sectors_wf(dev.sectors()),
                dev.sectors()[0] == spec_serialize(
                    spec_format_boot_sector(total_sectors),
                    zero512(),
                ),
                forall|j: int| 1 <= j < dev.sectors().len() ==> dev.sectors()[j] == zero512(),
            decreases 9 - i,
        {
            dev.write_sector(1 + i, zero.as_slice());
            i = i + 1;
        }
        let root_sectors: u64 = (224 * 32 + 511) / 512;
        let mut j: u64 = 0;
        while j < root_sectors
            invariant
                j <= root_sectors,
                root_sectors == 14,
                dev.sectors().len() == old(dev).sectors().len(),
                24 <= dev.sectors().len() <= u64::MAX,
                zero@ == zero512(),
                sectors_wf(dev.sectors()),
                dev.sectors()[0] == spec_serialize(
                    spec_format_boot_sector(total_sectors),
                    zero512(),
                ),
                forall|k: int| 1 <= k < dev.sectors().len() ==> dev.sectors()[k] == zero512(),
            decreases root_sectors - j,
        {
            dev.write_sector(10 + j, zero.as_slice());
            j = j + 1;
        }
        Ok(())
    }

    /// The boot sector record used by `format`.
    fn format_boot_sector(total_sectors: u16) -> (bs: BootSector)
        ensures
            bs == spec_format_boot_sector(total_sectors),
    {
        BootSector {
            bytes_per_sector: BYTES_PER_SECTOR,
            sectors_per_cluster: SECTORS_PER_CLUSTER_DEFAULT,
            reserved_sectors: 1,
            num_fats: NUM_FATS,
            max_root_dir_entries: FAT12_MAX_ROOT_DIR_ENTRIES,
            total_sectors,
            sectors_per_fat: 9,
            fat_start_lba: 1,
            root_dir_start_lba: 1 + 9,
            data_start_lba: 1 + 9 + ((224u32 * 32) + (512 - 1)) / 512,
        }
    }

    /// The records of the root directory, in on-disk order.
    pub fn list_root<D: BlockDevice>(&self, dev: &D) -> (r: Vec<DirectoryEntry>)
        requires
            fs_inv(self.boot_sector, dev.sectors()),
        ensures
            views_of(r@) == spec_list_from(
                spec_dir_bytes(self.boot_sector, dev.sectors()),
                0,
                self.boot_sector.max_root_dir_entries as int,
            ),
    {
        let dir = Directory::new(
            self.boot_sector.root_dir_start_lba as u64,
            self.boot_sector.max_root_dir_entries,
        );
        dir.list(dev)
    }
}


/// The bytes of `k` consecutive sectors starting at `lba`.
pub open spec fn sector_run(sectors: Seq<Seq<u8>>, lba: int, k: int) -> Seq<u8>
    decreases k,
{
    if k <= 0 {
        Seq::empty()
    } else {
        sectors[lba] + sector_run(sectors, lba + 1, k - 1)
    }
}

/// The bytes of data cluster `c`.
pub open spec fn cluster_bytes(bs: BootSector, sectors: Seq<Seq<u8>>, c: int) -> Seq<u8> {
    sector_run(sectors, data_lba(bs, c), bs.sectors_per_cluster as int)
}

/// The concatenated bytes of the clusters of a chain, in chain order.
pub open spec fn chain_bytes(bs: BootSector, sectors: Seq<Seq<u8>>, ch: Seq<u16>) -> Seq<u8>
    decreases ch.len(),
{
    if ch.len() == 0 {
        Seq::empty()
    } else {
        cluster_bytes(bs, sectors, ch[0] as int) + chain_bytes(bs, sectors, ch.skip(1))
    }
}

/// All clusters of the chain lie on the device.
pub open spec fn chain_fits(bs: BootSector, ch: Seq<u16>, devlen: int) -> bool {
    forall|k: int| 0 <= k < ch.len() ==> cluster_maps(bs, #[trigger] ch[k] as int, devlen)
}

/// What `read_file` returns for a record of the given chain and size:
/// the chain bytes trimmed to the recorded file size.
pub open spec fn spec_file_content(
    bs: BootSector,
    sectors: Seq<Seq<u8>>,
    ch: Seq<u16>,
    size: int,
) -> Seq<u8> {
    let all = chain_bytes(bs, sectors, ch);
    if size <= all.len() {
        all.take(size)
    } else {
        all
    }
}

/// Appending one sector to a sector run.
proof fn lemma_sector_run_snoc(sectors: Seq<Seq<u8>>, lba: int, k: int)
    requires
        k >= 0,
    ensures
        sector_run(sectors, lba, k + 1) == sector_run(sectors, lba, k) + sectors[lba + k],
    decreases k,
{
    if k == 0 {
        assert(sector_run(sectors, lba + 1, 0) == Seq::<u8>::empty());
        assert(sector_run(sectors, lba, 1) =~= sector_run(sectors, lba, 0) + sectors[lba]);
    } else {
        lemma_sector_run_snoc(sectors, lba + 1, k - 1);
        assert(sector_run(sectors, lba, k + 1) =~= sector_run(sectors, lba, k) + sectors[lba
            + k]);
    }
}

/// Appending one cluster to a chain appends its bytes.
proof fn lemma_chain_bytes_snoc(bs: BootSector, sectors: Seq<Seq<u8>>, ch: Seq<u16>, c: u16)
    ensures
        chain_bytes(bs, sectors, ch.push(c)) == chain_bytes(bs, sectors, ch) + cluster_bytes(
            bs,
            sectors,
            c as int,
        ),
    decreases ch.len(),
{
    if ch.len() == 0 {
        assert(ch.push(c)[0] == c);
        assert(ch.push(c).skip(1) =~= Seq::<u16>::empty());
        assert(chain_bytes(bs, sectors, Seq::<u16>::empty()) == Seq::<u8>::empty());
        assert(chain_bytes(bs, sectors, ch.push(c)) =~= cluster_bytes(bs, sectors, c as int));
        assert(chain_bytes(bs, sectors, ch) + cluster_bytes(bs, sectors, c as int)
            =~= cluster_bytes(bs, sectors, c as int));
    } else {
        assert(ch.push(c).skip(1) =~= ch.skip(1).push(c));
        lemma_chain_bytes_snoc(bs, sectors, ch.skip(1), c);
        assert(chain_bytes(bs, sectors, ch.push(c)) =~= chain_bytes(bs, sectors, ch)
            + cluster_bytes(bs, sectors, c as int));
    }
}

impl FileSystem {
    /// Look a file up by name and return its contents: the bytes of its
    /// cluster chain, in chain order, trimmed to the recorded size.
    ///
    /// A missing name fails `FileNotFound`; so does a record whose chain
    /// leaves the allocation table or the device, since its data cannot
    /// be addressed.  A record of size zero reads as empty without
    /// touching its chain.
    pub fn read_file<D: BlockDevice>(&self, dev: &mut D, name: &str) -> (r: Result<
        Vec<u8>,
        FsError,
    >)
        requires
            fs_inv(self.boot_sector, old(dev).sectors()),
        ensures
            final(dev).sectors() == old(dev).sectors(),
            ({
                let bs = self.boot_sector;
                let sectors = old(dev).sectors();
                let f = spec_find(
                    spec_dir_bytes(bs, sectors),
                    name.spec_bytes(),
                    bs.max_root_dir_entries as int,
                );
                match f {
                    None => r == Err::<Vec<u8>, FsError>(FsError::FileNotFound),
                    Some(ev) => {
                        if ev.file_size == 0 {
                            r matches Ok(v) && v@ == Seq::<u8>::empty()
                        } else if !entry_in_range(
                            ev.start_cluster as int,
                            512 * bs.sectors_per_fat as int,
                        ) {
                            r == Err::<Vec<u8>, FsError>(FsError::FileNotFound)
                        } else {
                            let ch = spec_chain(
                                spec_fat_bytes(bs, sectors),
                                ev.start_cluster,
                                spec_fat_capacity(bs) as nat,
                            );
                            if chain_fits(bs, ch, sectors.len() as int) {
                                r matches Ok(v) && v@ == spec_file_content(
                                    bs,
                                    sectors,
                                    ch,
                                    ev.file_size as int,
                                )
                            } else {
                                r == Err::<Vec<u8>, FsError>(FsError::FileNotFound)
                            }
                        }
                    },
                }
            }),
    {
        let bs = self.boot_sector;
        let dir = Directory::new(bs.root_dir_start_lba as u64, bs.max_root_dir_entries);
        let entry = match dir.find(dev, name) {
            Some(e) => e,
            None => {
                return Err(FsError::FileNotFound);
            },
        };
        if entry.file_size == 0 {
            return Ok(Vec::new());
        }
        let start = entry.start_cluster;
        if !((start as usize) * 3 + 2 < 1024 * (bs.sectors_per_fat as usize)) {
            return Err(FsError::FileNotFound);
        }
        let ghost sectors0 = dev.sectors();
        let mut fat = FatTable::new(bs.fat_start_lba as u64, bs.sectors_per_fat);
        proof {
            assert(fat.inv(dev.sectors()));
            assert(fat.fat_bytes(dev.sectors()) =~= spec_fat_bytes(bs, sectors0));
        }
        let chain = fat.get_chain(dev, start);
        let ghost ch = chain@;
        proof {
            assert(ch == spec_chain(
                spec_fat_bytes(bs, sectors0),
                start,
                spec_fat_capacity(bs) as nat,
            ));
        }
        let spc: u64 = bs.sectors_per_cluster as u64;
        let devlen = dev.sector_count();
        let mut out: Vec<u8> = Vec::new();
        let mut ci: usize = 0;
        while ci < chain.len()
            invariant
                ci <= chain@.len(),
                chain@ == ch,
                dev.sectors() == sectors0,
                sectors0 == old(dev).sectors(),
                fs_inv(bs, sectors0),
                bs == self.boot_sector,
                spc == bs.sectors_per_cluster as u64,
                devlen == sectors0.len(),
                spec_find(
                    spec_dir_bytes(bs, sectors0),
                    name.spec_bytes(),
                    bs.max_root_dir_entries as int,
                ) == Some(entry@),
                entry.file_size != 0,
                entry_in_range(entry.start_cluster as int, 512 * bs.sectors_per_fat as int),
                ch == spec_chain(
                    spec_fat_bytes(bs, sectors0),
                    entry.start_cluster,
                    spec_fat_capacity(bs) as nat,
                ),
                forall|k: int| 0 <= k < ci ==> cluster_maps(bs, #[trigger] ch[k] as int, devlen as int),
                out@ == chain_bytes(bs, sectors0, ch.take(ci as int)),
            decreases chain@.len() - ci,
        {
            let c = chain[ci];
            if c < 2 {
                proof {
                    assert(!cluster_maps(bs, ch[ci as int] as int, devlen as int));
                }
                return Err(FsError::FileNotFound);
            }
            proof {
                assert((c as int - 2) * (spc as int) <= 65535 * 255) by (nonlinear_arith)
                    requires
                        2 <= c <= 65535,
                        0 <= spc <= 255,
                ;
            }
            let lba: u64 = bs.data_start_lba as u64 + (c as u64 - 2) * spc;
            if lba + spc > devlen {
                proof {
                    assert(!cluster_maps(bs, ch[ci as int] as int, devlen as int));
                }
                return Err(FsError::FileNotFound);
            }
            let ghost out_before = out@;
            let mut si: u64 = 0;
            while si < spc
                invariant
                    si <= spc,
                    dev.sectors() == sectors0,
                    sectors0 == old(dev).sectors(),
                    fs_inv(bs, sectors0),
                    lba + spc <= devlen,
                    devlen == sectors0.len(),
                    out@ == out_before + sector_run(sectors0, lba as int, si as int),
                decreases spc - si,
            {
                let sec = dev.read_sector(lba + si);
                let mut k: usize = 0;
                let ghost out_mid = out@;
                while k < 512
                    invariant
                        k <= 512,
                        sec@.len() == 512,
                        out@ == out_mid + sec@.take(k as int),
                    decreases 512 - k,
                {
                    proof {
                        assert(out_mid + sec@.take(k + 1) =~= (out_mid + sec@.take(k as int)).push(
                            sec@[k as int],
                        ));
                    }
                    out.push(sec[k]);
                    k = k + 1;
                }
                proof {
                    lemma_sector_run_snoc(sectors0, lba as int, si as int);
                    assert(sec@.take(512) =~= sec@);
                    assert(out@ =~= out_before + sector_run(sectors0, lba as int, si + 1));
                }
                si = si + 1;
            }
            proof {
                lemma_chain_bytes_snoc(bs, sectors0, ch.take(ci as int), c);
                assert(ch.take(ci as int).push(c) =~= ch.take(ci + 1));
                assert(sector_run(sectors0, lba as int, spc as int) == cluster_bytes(
                    bs,
                    sectors0,
                    c as int,
                ));
            }
            ci = ci + 1;
        }
        proof {
            assert(ch.take(ch.len() as int) =~= ch);
        }
        out.truncate(entry.file_size as usize);
        Ok(out)
    }

    /// Remove a file: free its whole cluster chain in the allocation
    /// table, then tombstone its directory record.  A missing name fails
    /// `FileNotFound`.  A record whose start cluster lies outside the
    /// table keeps the table untouched and only loses its record.
    pub fn delete<D: BlockDevice>(&self, dev: &mut D, name: &str) -> (r: Result<(), FsError>)
        requires
            fs_inv(self.boot_sector, old(dev).sectors()),
        ensures
            fs_inv(self.boot_sector, final(dev).sectors()),
            final(dev).sectors().len() == old(dev).sectors().len(),
            ({
                let bs = self.boot_sector;
                let sectors = old(dev).sectors();
                let dirb = spec_dir_bytes(bs, sectors);
                let nb = name.spec_bytes();
                let n = bs.max_root_dir_entries as int;
                match spec_find_idx_from(dirb, nb, 0, n) {
                    None => r == Err::<(), FsError>(FsError::FileNotFound) && final(dev).sectors()
                        == old(dev).sectors(),
                    Some(i) => {
                        let ev = spec_parse_entry(slot(dirb, i));
                        let b0 = spec_fat_bytes(bs, sectors);
                        let b1 = spec_fat_bytes(bs, final(dev).sectors());
                        &&& r == Ok::<(), FsError>(())
                        &&& spec_dir_bytes(bs, final(dev).sectors()) == dirb.update(
                            32 * i,
                            0xE5u8,
                        )
                        &&& (if ev.start_cluster >= 2 && entry_in_range(
                            ev.start_cluster as int,
                            512 * bs.sectors_per_fat as int,
                        ) {
                            let ch = spec_chain(
                                b0,
                                ev.start_cluster,
                                spec_fat_capacity(bs) as nat,
                            );
                            forall|m: int|
                                entry_in_range(m, b0.len() as int) ==> fat_entry(b1, m) == (
                                if chain_contains(ch, m) {
                                    0
                                } else {
                                    fat_entry(b0, m)
                                })
                        } else {
                            b1 == b0
                        })
                    },
                }
            }),
    {
        let bs = self.boot_sector;
        let ghost sectors0 = old(dev).sectors();
        let dir = Directory::new(bs.root_dir_start_lba as u64, bs.max_root_dir_entries);
        let entry = match dir.find(dev, name) {
            Some(e) => e,
            None => {
                return Err(FsError::FileNotFound);
            },
        };
        let start = entry.start_cluster;
        if start >= 2 && (start as usize) * 3 + 2 < 1024 * (bs.sectors_per_fat as usize) {
            let mut fat = FatTable::new(bs.fat_start_lba as u64, bs.sectors_per_fat);
            proof {
                assert(fat.inv(dev.sectors()));
                assert(fat.fat_bytes(dev.sectors()) =~= spec_fat_bytes(bs, sectors0));
            }
            fat.free_cluster(dev, start);
            let res = fat.flush(dev);
            proof {
                assert(res is Ok);
                assert(spec_fat_bytes(bs, dev.sectors()) =~= fat.fat_bytes(dev.sectors()));
                assert(spec_dir_bytes(bs, dev.sectors()) =~= spec_dir_bytes(bs, sectors0));
            }
        }
        let ghost sectors_mid = dev.sectors();
        let ghost fat_mid = spec_fat_bytes(bs, sectors_mid);
        dir.delete(dev, name);
        proof {
            assert(spec_fat_bytes(bs, dev.sectors()) =~= fat_mid);
            assert(spec_dir_bytes(bs, sectors_mid) =~= spec_dir_bytes(bs, sectors0));
        }
        Ok(())
    }
}


/// ASCII lowercase of one byte.
pub open spec fn lower(b: u8) -> u8 {
    if 65 <= b <= 90 {
        (b + 32) as u8
    } else {
        b
    }
}

/// The name policy of `write_file`: an 11-byte 8.3-style name whose
/// extension field reads `TXT` in either case, or any other name that
/// ends in `.txt` case-insensitively.
pub open spec fn has_txt_ext(nb: Seq<u8>) -> bool {
    if nb.len() == 11 {
        lower(nb[8]) == 116 && lower(nb[9]) == 120 && lower(nb[10]) == 116
    } else {
        &&& nb.len() >= 4
        &&& lower(nb[nb.len() - 4]) == 46
        &&& lower(nb[nb.len() - 3]) == 116
        &&& lower(nb[nb.len() - 2]) == 120
        &&& lower(nb[nb.len() - 1]) == 116
    }
}

/// The free clusters of the table from `i` on, in ascending order.
pub open spec fn spec_free_list(b: Seq<u8>, i: int, cap: int) -> Seq<u16>
    decreases cap - i,
{
    if i < 2 || i >= cap {
        Seq::empty()
    } else if fat_entry(b, i) == 0 {
        seq![i as u16] + spec_free_list(b, i + 1, cap)
    } else {
        spec_free_list(b, i + 1, cap)
    }
}

/// The free list is ascending, lists exactly the free clusters at or
/// above `i`, and stays within `[i, cap)`.
pub proof fn lemma_free_list_props(b: Seq<u8>, i: int, cap: int)
    requires
        2 <= i,
        cap <= 65535,
    ensures
        ({
            let fl = spec_free_list(b, i, cap);
            &&& forall|k: int|
                0 <= k < fl.len() ==> i <= #[trigger] fl[k] < cap && fat_entry(b, fl[k] as int)
                    == 0
            &&& forall|k1: int, k2: int|
                0 <= k1 < k2 < fl.len() ==> #[trigger] fl[k1] < #[trigger] fl[k2]
            &&& forall|m: int|
                i <= m < cap && fat_entry(b, m) == 0 ==> chain_contains(fl, m)
        }),
    decreases cap - i,
{
    let fl = spec_free_list(b, i, cap);
    if i >= cap {
    } else {
        lemma_free_list_props(b, i + 1, cap);
        let fl2 = spec_free_list(b, i + 1, cap);
        if fat_entry(b, i) == 0 {
            assert(fl == seq![i as u16] + fl2);
            assert(fl[0] == i as u16);
            assert forall|m: int|
                i <= m < cap && fat_entry(b, m) == 0 implies chain_contains(fl, m) by {
                if m == i {
                    assert(fl[0] == m);
                } else {
                    assert(chain_contains(fl2, m));
                    let k = choose|k: int| 0 <= k < fl2.len() && fl2[k] == m;
                    assert(fl[k + 1] == m);
                }
            }
        } else {
            assert(fl == fl2);
        }
    }
}

/// Under the allocation-loop invariant — the current table is the
/// original with exactly the first `j` free clusters made busy — a
/// successful first-fit scan returns the `j`-th free cluster of the
/// original table.
proof fn lemma_alloc_next_free(fat0: Seq<u8>, bj: Seq<u8>, cap: int, j: int, c: u16)
    requires
        cap <= 65535,
        0 <= j,
        forall|m: int|
            2 <= m < cap ==> (fat_entry(bj, m) == 0 <==> (fat_entry(fat0, m) == 0
                && !chain_contains(spec_free_list(fat0, 2, cap).take(j), m))),
        j <= spec_free_list(fat0, 2, cap).len(),
        2 <= c < cap,
        fat_entry(bj, c as int) == 0,
        forall|m: int| 2 <= m < c ==> fat_entry(bj, m) != 0,
    ensures
        j < spec_free_list(fat0, 2, cap).len(),
        c == spec_free_list(fat0, 2, cap)[j],
{
    lemma_free_list_props(fat0, 2, cap);
    let fl = spec_free_list(fat0, 2, cap);
    assert(fat_entry(fat0, c as int) == 0 && !chain_contains(fl.take(j), c as int));
    assert(chain_contains(fl, c as int));
    let k = choose|k: int| 0 <= k < fl.len() && fl[k] == c;
    if k < j {
        assert(fl.take(j)[k] == c);
        assert(chain_contains(fl.take(j), c as int));
        assert(false);
    }
    if k > j {
        let cj = fl[j];
        assert(fl[j] < fl[k]);
        assert(fat_entry(fat0, cj as int) == 0);
        if chain_contains(fl.take(j), cj as int) {
            let k2 = choose|k2: int| 0 <= k2 < fl.take(j).len() && fl.take(j)[k2] == cj;
            assert(fl[k2] == fl[j]);
            assert(fl[k2] < fl[j]);
            assert(false);
        }
        assert(fat_entry(bj, cj as int) == 0);
        assert(2 <= cj < c);
        assert(false);
    }
}

/// Under the same invariant, a failed scan means the original free list
/// had no `j`-th element.
proof fn lemma_alloc_exhausted(fat0: Seq<u8>, bj: Seq<u8>, cap: int, j: int)
    requires
        cap <= 65535,
        0 <= j,
        forall|m: int|
            2 <= m < cap ==> (fat_entry(bj, m) == 0 <==> (fat_entry(fat0, m) == 0
                && !chain_contains(spec_free_list(fat0, 2, cap).take(j), m))),
        j <= spec_free_list(fat0, 2, cap).len(),
        forall|m: int| 2 <= m < cap ==> fat_entry(bj, m) != 0,
    ensures
        spec_free_list(fat0, 2, cap).len() == j,
{
    lemma_free_list_props(fat0, 2, cap);
    let fl = spec_free_list(fat0, 2, cap);
    if j < fl.len() {
        let cj = fl[j];
        if chain_contains(fl.take(j), cj as int) {
            let k2 = choose|k2: int| 0 <= k2 < fl.take(j).len() && fl.take(j)[k2] == cj;
            assert(fl[k2] == fl[j]);
            assert(fl[k2] < fl[j]);
            assert(false);
        }
        assert(fat_entry(bj, cj as int) == 0);
        assert(false);
    }
}

/// Writing a data sector does not move the directory region.
proof fn lemma_dir_bytes_data_write(
    bs: BootSector,
    s1: Seq<Seq<u8>>,
    s2: Seq<Seq<u8>>,
    lba: int,
    v: Seq<u8>,
)
    requires
        s2 == s1.update(lba, v),
        bs.data_start_lba <= lba < s1.len(),
        bs.root_dir_start_lba + dir_sectors(bs.max_root_dir_entries as int)
            <= bs.data_start_lba,
    ensures
        spec_dir_bytes(bs, s2) == spec_dir_bytes(bs, s1),
{
    let n = bs.max_root_dir_entries as int;
    assert(16 * ((n + 15) / 16) >= n) by {
        lemma_fundamental_div_mod(n + 15, 16);
    }
    assert forall|i: int| 0 <= i < 32 * n implies #[trigger] spec_dir_bytes(bs, s2)[i]
        == spec_dir_bytes(bs, s1)[i] by {
        lemma_fundamental_div_mod(i, 512);
        assert(512 * (i / 512) <= i);
        assert(i / 512 < dir_sectors(n)) by {
            if i / 512 >= dir_sectors(n) {
                assert(512 * (i / 512) >= 512 * ((n + 15) / 16)) by (nonlinear_arith)
                    requires
                        i / 512 >= (n + 15) / 16,
                ;
                assert(512 * ((n + 15) / 16) >= 32 * n) by (nonlinear_arith)
                    requires
                        16 * ((n + 15) / 16) >= n,
                ;
            }
        }
        assert(bs.root_dir_start_lba + i / 512 < lba);
    }
    assert(spec_dir_bytes(bs, s2) =~= spec_dir_bytes(bs, s1));
}



/// One step of `write_file`'s allocation loop, at the level of table
/// entries: cluster `c = fl[j]` was just marked busy (`b_alloc`), and
/// when a predecessor exists it was relinked to point at `c` (`bnow`).
/// The three loop facts carry over from `j` to `j + 1`: exactly the
/// first `j + 1` free clusters are busy, every other entry still has its
/// original value, and the busy clusters form a link chain ending at
/// `c`.
#[verifier::rlimit(100)]
proof fn lemma_write_loop_step(
    fat0: Seq<u8>,
    bj: Seq<u8>,
    b_alloc: Seq<u8>,
    bnow: Seq<u8>,
    cap: int,
    j: int,
    c: u16,
    prev: u16,
    linked: bool,
)
    requires
        cap <= 4087,
        bj.len() == fat0.len(),
        b_alloc.len() == fat0.len(),
        bnow.len() == fat0.len(),
        forall|m: int| 2 <= m < cap ==> entry_in_range(m, fat0.len() as int),
        0 <= j < spec_free_list(fat0, 2, cap).len(),
        c == spec_free_list(fat0, 2, cap)[j],
        2 <= c < cap,
        forall|m: int|
            entry_in_range(m, fat0.len() as int) && m != c ==> fat_entry(b_alloc, m)
                == fat_entry(bj, m),
        fat_entry(b_alloc, c as int) == 0xFFF,
        linked ==> j > 0 && prev == spec_free_list(fat0, 2, cap)[j - 1] && 2 <= prev < cap,
        linked ==> forall|m: int|
            entry_in_range(m, fat0.len() as int) && m != prev ==> fat_entry(bnow, m)
                == fat_entry(b_alloc, m),
        linked ==> fat_entry(bnow, prev as int) == (c as int) % 4096,
        !linked ==> bnow == b_alloc && j == 0,
        forall|m: int|
            2 <= m < cap ==> (fat_entry(bj, m) == 0 <==> (fat_entry(fat0, m) == 0
                && !chain_contains(spec_free_list(fat0, 2, cap).take(j), m))),
        forall|m: int|
            2 <= m < cap && !chain_contains(spec_free_list(fat0, 2, cap).take(j), m)
                ==> fat_entry(bj, m) == fat_entry(fat0, m),
        forall|k: int|
            0 <= k < j - 1 ==> fat_entry(bj, #[trigger] spec_free_list(fat0, 2, cap)[k] as int)
                == spec_free_list(fat0, 2, cap)[k + 1],
        j > 0 ==> fat_entry(bj, spec_free_list(fat0, 2, cap)[j - 1] as int) == 0xFFF,
    ensures
        ({
            let fl = spec_free_list(fat0, 2, cap);
            &&& forall|m: int|
                2 <= m < cap ==> (fat_entry(bnow, m) == 0 <==> (fat_entry(fat0, m) == 0
                    && !chain_contains(fl.take(j + 1), m)))
            &&& forall|m: int|
                2 <= m < cap && !chain_contains(fl.take(j + 1), m) ==> fat_entry(bnow, m)
                    == fat_entry(fat0, m)
            &&& forall|k: int|
                0 <= k < j ==> fat_entry(bnow, #[trigger] fl[k] as int) == fl[k + 1]
            &&& fat_entry(bnow, fl[j] as int) == 0xFFF
        }),
{
    lemma_free_list_props(fat0, 2, cap);
    let fl = spec_free_list(fat0, 2, cap);
    assert(fl.take(j + 1) =~= fl.take(j).push(c));
    assert((c as int) % 4096 == c as int) by (nonlinear_arith)
        requires
            0 <= c < 4096,
    ;
    assert forall|m: int|
        2 <= m < cap implies (fat_entry(bnow, m) == 0 <==> (fat_entry(fat0, m) == 0
        && !chain_contains(fl.take(j + 1), m))) by {
        if m == c {
            assert(fl.take(j + 1)[j] == c);
            assert(chain_contains(fl.take(j + 1), m));
            assert(fat_entry(bnow, m) != 0);
        } else {
            assert(chain_contains(fl.take(j + 1), m) == chain_contains(fl.take(j), m));
            if linked && m == prev {
                assert(fl.take(j)[j - 1] == prev);
                assert(chain_contains(fl.take(j), m));
                assert(fat_entry(bnow, m) != 0);
            } else {
                assert(fat_entry(bnow, m) == fat_entry(b_alloc, m));
                assert(fat_entry(b_alloc, m) == fat_entry(bj, m));
            }
        }
    }
    assert forall|m: int|
        2 <= m < cap && !chain_contains(fl.take(j + 1), m) implies fat_entry(bnow, m)
        == fat_entry(fat0, m) by {
        assert(!chain_contains(fl.take(j), m));
        assert(m != c) by {
            if m == c {
                assert(fl.take(j + 1)[j] == c);
            }
        }
        if linked {
            assert(fl.take(j)[j - 1] == prev);
            assert(m != prev);
        }
        assert(fat_entry(bnow, m) == fat_entry(b_alloc, m));
        assert(fat_entry(b_alloc, m) == fat_entry(bj, m));
    }
    assert forall|k: int| 0 <= k < j implies fat_entry(bnow, #[trigger] fl[k] as int) == fl[k
        + 1] by {
        assert(fl[k] < fl[j]);
        if k < j - 1 {
            assert(fl[k] < fl[j - 1]);
            assert(fat_entry(bnow, fl[k] as int) == fat_entry(b_alloc, fl[k] as int));
            assert(fat_entry(b_alloc, fl[k] as int) == fat_entry(bj, fl[k] as int));
        } else {
            assert(k == j - 1 && linked);
            assert(prev == fl[k]);
        }
    }
    assert(fat_entry(bnow, fl[j] as int) == 0xFFF) by {
        if linked {
            assert(fl[j - 1] < fl[j]);
            assert(c as int != prev as int);
        }
    }
}

/// ASCII lowercase of one byte, executable form.
fn lower_byte(b: u8) -> (r: u8)
    ensures
        r == lower(b),
{
    if b >= 65 && b <= 90 {
        b + 32
    } else {
        b
    }
}

/// Whether `nb` carries the `.txt` extension that `write_file` demands.
fn check_txt_ext(nb: &[u8]) -> (r: bool)
    ensures
        r == has_txt_ext(nb@),
{
    let n = nb.len();
    if n == 11 {
        lower_byte(nb[8]) == 116 && lower_byte(nb[9]) == 120 && lower_byte(nb[10]) == 116
    } else if n >= 4 {
        lower_byte(nb[n - 4]) == 46 && lower_byte(nb[n - 3]) == 116 && lower_byte(nb[n - 2])
            == 120 && lower_byte(nb[n - 1]) == 116
    } else {
        false
    }
}

impl FileSystem {
    /// Create a file: allocate a first-fit cluster chain, write the
    /// payload into it (zero-padding the final partial sector), mark the
    /// chain end, flush the table and record the file in the root
    /// directory.
    ///
    /// A name without the `.txt` extension fails `InvalidName` and an
    /// existing name fails `FileAlreadyExists`, both before any byte of
    /// the volume changes.  `NoSpace` is returned exactly when the free
    /// clusters the first-fit scan would pick do not suffice or fall off
    /// the device; clusters already allocated for the call are not rolled
    /// back.  An empty payload allocates nothing and records start
    /// cluster 0.
    #[verifier::rlimit(100)]
    pub fn write_file<D: BlockDevice>(&self, dev: &mut D, name: &str, data: &[u8]) -> (r: Result<
        (),
        FsError,
    >)
        requires
            fs_inv(self.boot_sector, old(dev).sectors()),
            data@.len() <= u32::MAX,
        ensures
            fs_inv(self.boot_sector, final(dev).sectors()),
            final(dev).sectors().len() == old(dev).sectors().len(),
            ({
                let bs = self.boot_sector;
                let sectors = old(dev).sectors();
                let dirb = spec_dir_bytes(bs, sectors);
                let nb = name.spec_bytes();
                let n = bs.max_root_dir_entries as int;
                let fat0 = spec_fat_bytes(bs, sectors);
                let cap = spec_fat_capacity(bs);
                let fl = spec_free_list(fat0, 2, cap);
                let csize = 512 * (bs.sectors_per_cluster as int);
                let needed = (data@.len() + csize - 1) / csize;
                let ok_possible = needed <= fl.len() && (needed == 0 || cluster_maps(
                    bs,
                    fl[needed - 1] as int,
                    sectors.len() as int,
                ));
                &&& (!has_txt_ext(nb) ==> r == Err::<(), FsError>(FsError::InvalidName)
                    && final(dev).sectors() == sectors)
                &&& (has_txt_ext(nb) && spec_find_idx_from(dirb, nb, 0, n) is Some ==> r
                    == Err::<(), FsError>(FsError::FileAlreadyExists) && final(dev).sectors()
                    == sectors)
                &&& (has_txt_ext(nb) && spec_find_idx_from(dirb, nb, 0, n) is None ==> {
                    &&& (ok_possible ==> r == Ok::<(), FsError>(()))
                    &&& (!ok_possible ==> r == Err::<(), FsError>(FsError::NoSpace))
                    &&& (r == Ok::<(), FsError>(()) ==> {
                        let start = if data@.len() == 0 {
                            0u16
                        } else {
                            fl[0]
                        };
                        let dirb1 = spec_dir_bytes(bs, final(dev).sectors());
                        match spec_free_idx_from(dirb, 0, n) {
                            Some(fi) => {
                                &&& slot(dirb1, fi) == spec_new_entry_bytes(
                                    nb,
                                    start,
                                    data@.len() as u32,
                                )
                                &&& forall|j: int|
                                    0 <= j < dirb.len() && !(32 * fi <= j < 32 * fi + 32)
                                        ==> dirb1[j] == dirb[j]
                            },
                            None => dirb1 == dirb,
                        }
                    })
                    &&& (r == Ok::<(), FsError>(()) && data@.len() > 0 ==> {
                        let b1 = spec_fat_bytes(bs, final(dev).sectors());
                        &&& forall|k: int|
                            0 <= k < needed - 1 ==> fat_entry(b1, #[trigger] fl[k] as int)
                                == fl[k + 1]
                        &&& fat_entry(b1, fl[needed - 1] as int) == 0xFFF
                        &&& forall|m: int|
                            2 <= m < cap && !chain_contains(fl.take(needed), m) ==> fat_entry(
                                b1,
                                m,
                            ) == fat_entry(fat0, m)
                    })
                })
            }),
    {
        let bs = self.boot_sector;
        let nb = name.as_bytes();
        if !check_txt_ext(nb) {
            return Err(FsError::InvalidName);
        }
        let dir = Directory::new(bs.root_dir_start_lba as u64, bs.max_root_dir_entries);
        match dir.find(dev, name) {
            Some(_) => {
                return Err(FsError::FileAlreadyExists);
            },
            None => {},
        }
        let ghost sectors0 = dev.sectors();
        let ghost dirb0 = spec_dir_bytes(bs, sectors0);
        let ghost fat0 = spec_fat_bytes(bs, sectors0);
        let ghost cap = spec_fat_capacity(bs);
        let ghost fl = spec_free_list(fat0, 2, cap);
        proof {
            lemma_free_list_props(fat0, 2, cap);
        }
        if data.len() == 0 {
            proof {
                let csize = 512 * (bs.sectors_per_cluster as int);
                vstd::arithmetic::div_mod::lemma_fundamental_div_mod_converse(
                    csize - 1,
                    csize,
                    0,
                    csize - 1,
                );
                assert((data@.len() + csize - 1) / csize == 0);
            }
            dir.create(dev, name, 0, 0);
            return Ok(());
        }
        let mut fat = FatTable::new(bs.fat_start_lba as u64, bs.sectors_per_fat);
        proof {
            assert(fat.inv(dev.sectors()));
            assert(fat.fat_bytes(dev.sectors()) =~= fat0);
        }
        let devlen = dev.sector_count();
        let spc: u64 = bs.sectors_per_cluster as u64;
        let csize: usize = 512 * (bs.sectors_per_cluster as usize);
        let ghost needed = (data@.len() + csize - 1) / (csize as int);
        proof {
            let t = data@.len() + csize - 1;
            lemma_fundamental_div_mod(t, csize as int);
            assert(0 <= t % (csize as int) < csize as int) by (nonlinear_arith)
                requires
                    t >= 0,
                    csize >= 1,
            ;
            assert(needed * (csize as int) >= data@.len() && (needed - 1) * (csize as int)
                < data@.len()) by (nonlinear_arith)
                requires
                    t == (csize as int) * (t / (csize as int)) + t % (csize as int),
                    0 <= t % (csize as int) < csize as int,
                    needed == t / (csize as int),
                    t == data@.len() + csize - 1,
                    csize >= 1,
                    data@.len() >= 1,
            ;
        }
        let mut pos: usize = 0;
        let mut first: u16 = 0;
        let mut prev: u16 = 0;
        let ghost mut j: int = 0;
        while pos < data.len()
            invariant
                fs_inv(bs, dev.sectors()),
                bs == self.boot_sector,
                dev.sectors().len() == sectors0.len(),
                sectors0 == old(dev).sectors(),
                devlen == sectors0.len(),
                fat.inv(dev.sectors()),
                fat.start_lba == bs.fat_start_lba,
                fat.sectors_per_fat == bs.sectors_per_fat,
                spec_dir_bytes(bs, dev.sectors()) == dirb0,
                dirb0 == spec_dir_bytes(bs, sectors0),
                fat0 == spec_fat_bytes(bs, sectors0),
                cap == spec_fat_capacity(bs),
                cap <= 4087,
                fl == spec_free_list(fat0, 2, cap),
                nb@ == name.spec_bytes(),
                has_txt_ext(nb@),
                spec_find_idx_from(dirb0, nb@, 0, bs.max_root_dir_entries as int) is None,
                data@.len() > 0,
                data@.len() <= u32::MAX,
                data@.len() <= usize::MAX,
                spc == bs.sectors_per_cluster as u64,
                csize == 512 * (bs.sectors_per_cluster as int),
                csize >= 512,
                needed == (data@.len() + csize - 1) / (csize as int),
                (needed as int) * (csize as int) >= data@.len(),
                (needed - 1) * (csize as int) < data@.len(),
                0 <= j <= needed,
                j <= fl.len(),
                pos <= data@.len(),
                pos == (if j * (csize as int) < data@.len() {
                    j * (csize as int)
                } else {
                    data@.len() as int
                }),
                forall|m: int|
                    2 <= m < cap ==> (fat_entry(fat.fat_bytes(dev.sectors()), m) == 0 <==> (
                    fat_entry(fat0, m) == 0 && !chain_contains(fl.take(j), m))),
                forall|m: int|
                    2 <= m < cap && !chain_contains(fl.take(j), m) ==> fat_entry(
                        fat.fat_bytes(dev.sectors()),
                        m,
                    ) == fat_entry(fat0, m),
                forall|k: int|
                    0 <= k < j - 1 ==> fat_entry(
                        fat.fat_bytes(dev.sectors()),
                        #[trigger] fl[k] as int,
                    ) == fl[k + 1],
                j > 0 ==> fat_entry(fat.fat_bytes(dev.sectors()), fl[j - 1] as int) == 0xFFF,
                forall|k: int|
                    0 <= k < j ==> cluster_maps(bs, #[trigger] fl[k] as int, devlen as int),
                j > 0 ==> prev == fl[j - 1] && first == fl[0] && 2 <= prev < cap,
                j > 0 <==> pos > 0,
            decreases data@.len() - pos,
        {
            proof {
                assert(j < needed) by {
                    assert(j * (csize as int) < data@.len());
                    if j >= needed {
                        assert(j * (csize as int) >= needed * (csize as int)) by (nonlinear_arith)
                            requires
                                j >= needed,
                                csize >= 1,
                        ;
                    }
                }
            }
            let ghost bj = fat.fat_bytes(dev.sectors());
            let c = match fat.alloc_cluster(dev) {
                Some(c) => c,
                None => {
                    proof {
                        lemma_alloc_exhausted(fat0, bj, cap, j);
                    }
                    return Err(FsError::NoSpace);
                },
            };
            proof {
                lemma_alloc_next_free(fat0, bj, cap, j, c);
                assert(c == fl[j]);
                assert((c as int - 2) * (spc as int) <= 65535 * 255) by (nonlinear_arith)
                    requires
                        2 <= c <= 65535,
                        0 <= spc <= 255,
                ;
            }
            let lba: u64 = bs.data_start_lba as u64 + (c as u64 - 2) * spc;
            if lba + spc > devlen {
                proof {
                    assert(!cluster_maps(bs, fl[j] as int, devlen as int));
                    if needed <= fl.len() && (needed == 0 || cluster_maps(
                        bs,
                        fl[needed - 1] as int,
                        devlen as int,
                    )) {
                        lemma_free_list_props(fat0, 2, cap);
                        assert(needed >= 1);
                        assert(j <= needed - 1);
                        if j < needed - 1 {
                            assert(fl[j] < fl[needed - 1]);
                        }
                        assert(fl[j] as int <= fl[needed - 1] as int);
                        assert((fl[j] as int - 2) * (bs.sectors_per_cluster as int) <= (fl[needed
                            - 1] as int - 2) * (bs.sectors_per_cluster as int)) by (nonlinear_arith)
                            requires
                                fl[j] as int <= fl[needed - 1] as int,
                                bs.sectors_per_cluster >= 0,
                        ;
                        assert(cluster_maps(bs, fl[j] as int, devlen as int));
                        assert(false);
                    }
                }
                return Err(FsError::NoSpace);
            }
            let ghost b_alloc = fat.fat_bytes(dev.sectors());
            if pos > 0 {
                fat.write_entry(dev, prev, c);
                proof {
                    assert(c as int % 4096 == c as int) by (nonlinear_arith)
                        requires
                            0 <= c < 4096,
                    ;
                }
            } else {
                first = c;
            }
            proof {
                assert forall|m: int| 2 <= m < cap implies entry_in_range(
                    m,
                    fat0.len() as int,
                ) by {}
                lemma_write_loop_step(
                    fat0,
                    bj,
                    b_alloc,
                    fat.fat_bytes(dev.sectors()),
                    cap,
                    j,
                    c,
                    prev,
                    pos > 0,
                );
            }
            let ghost b_linked = fat.fat_bytes(dev.sectors());
            let ghost pos0 = pos as int;
            let mut si: u64 = 0;
            while si < spc && pos < data.len()
                invariant
                    si <= spc,
                    fs_inv(bs, dev.sectors()),
                    bs == self.boot_sector,
                    dev.sectors().len() == sectors0.len(),
                    devlen == sectors0.len(),
                    fat.inv(dev.sectors()),
                    fat.start_lba == bs.fat_start_lba,
                    fat.sectors_per_fat == bs.sectors_per_fat,
                    fat.fat_bytes(dev.sectors()) == b_linked,
                    spec_dir_bytes(bs, dev.sectors()) == dirb0,
                    spc == bs.sectors_per_cluster as u64,
                    csize == 512 * (bs.sectors_per_cluster as int),
                    lba == bs.data_start_lba + (c as int - 2) * (bs.sectors_per_cluster as int),
                    lba + spc <= devlen,
                    bs.data_start_lba <= lba,
                    pos <= data@.len(),
                    data@.len() <= usize::MAX,
                    pos == (if pos0 + 512 * si < data@.len() {
                        pos0 + 512 * si
                    } else {
                        data@.len() as int
                    }),
                decreases spc - si,
            {
                let chunk: usize = if data.len() - pos < 512 {
                    data.len() - pos
                } else {
                    512
                };
                let mut buf = zero_sector();
                let mut k: usize = 0;
                while k < chunk
                    invariant
                        k <= chunk,
                        chunk <= 512,
                        pos + chunk <= data@.len(),
                        data@.len() <= usize::MAX,
                        buf@.len() == 512,
                        forall|q: int| 0 <= q < k ==> buf@[q] == data@[pos + q],
                        forall|q: int| k <= q < 512 ==> buf@[q] == 0u8,
                    decreases chunk - k,
                {
                    buf[k] = data[pos + k];
                    k = k + 1;
                }
                let ghost sec_before = dev.sectors();
                fat.write_data_sector(dev, lba + si, buf.as_slice());
                proof {
                    lemma_dir_bytes_data_write(
                        bs,
                        sec_before,
                        dev.sectors(),
                        lba + si,
                        buf@,
                    );
                }
                pos = pos + chunk;
                si = si + 1;
            }
            prev = c;
            proof {
                j = j + 1;
                // Restore the position law for the next outer iteration.
                assert(pos == (if j * (csize as int) < data@.len() {
                    j * (csize as int)
                } else {
                    data@.len() as int
                })) by {
                    assert(j * (csize as int) == pos0 + (csize as int)) by (nonlinear_arith)
                        requires
                            pos0 == (j - 1) * (csize as int),
                        ;
                    if si == spc {
                        assert(512 * (spc as int) == csize as int);
                    }
                }
            }
        }
        proof {
            assert(j == needed) by {
                if j < needed {
                    assert(j * (csize as int) <= (needed - 1) * (csize as int)) by (nonlinear_arith)
                        requires
                            j <= needed - 1,
                            csize >= 1,
                    ;
                }
            }
        }
        let ghost b_loop = fat.fat_bytes(dev.sectors());
        fat.write_entry(dev, prev, 0xFFF);
        proof {
            lemma_free_list_props(fat0, 2, cap);
            let bnow = fat.fat_bytes(dev.sectors());
            assert(fat_entry(bnow, fl[needed - 1] as int) == 0xFFFint % 4096);
            assert forall|k: int| 0 <= k < needed - 1 implies fat_entry(
                bnow,
                #[trigger] fl[k] as int,
            ) == fl[k + 1] by {
                assert(fl[k] < fl[needed - 1]);
                assert(fat_entry(bnow, fl[k] as int) == fat_entry(b_loop, fl[k] as int));
            }
            assert forall|m: int|
                2 <= m < cap && !chain_contains(fl.take(needed), m) implies fat_entry(bnow, m)
                == fat_entry(fat0, m) by {
                assert(fl.take(needed)[needed - 1] == fl[needed - 1]);
                assert(m != fl[needed - 1]);
                assert(fat_entry(bnow, m) == fat_entry(b_loop, m));
            }
        }
        let res = fat.flush(dev);
        proof {
            assert(res is Ok);
            assert(spec_fat_bytes(bs, dev.sectors()) =~= fat.fat_bytes(dev.sectors()));
            assert(spec_dir_bytes(bs, dev.sectors()) =~= dirb0);
        }
        let ghost fat_done = spec_fat_bytes(bs, dev.sectors());
        dir.create(dev, name, first, data.len() as u32);
        proof {
            assert(spec_fat_bytes(bs, dev.sectors()) =~= fat_done);
        }
        Ok(())
    }
}


/// Law: a freshly formatted device always mounts, and its root listing
/// is empty.  The hypotheses are exactly what `format` ensures on a
/// device of at least the data-region size; the conclusions discharge
/// `mount`'s precondition, describe the volume it returns, and show that
/// `list_root` on it yields no records.
pub proof fn lemma_format_then_mount_empty(total_sectors: u16, sectors: Seq<Seq<u8>>)
    requires
        24 <= sectors.len() <= u64::MAX,
        sectors[0] == spec_serialize(spec_format_boot_sector(total_sectors), zero512()),
        forall|i: int| 1 <= i < sectors.len() ==> sectors[i] == zero512(),
    ensures
        sectors_wf(sectors),
        boot_signed(sectors[0]),
        le16(sectors[0][11], sectors[0][12]) != 0,
        ({
            let bs = spec_parse(sectors[0]);
            &&& bs.bytes_per_sector == 512
            &&& bs.sectors_per_cluster == 1
            &&& bs.max_root_dir_entries == 224
            &&& bs.total_sectors == total_sectors
            &&& bs.fat_start_lba == 1
            &&& bs.root_dir_start_lba == 10
            &&& bs.data_start_lba == 24
            &&& fs_inv(bs, sectors)
            &&& spec_list_from(
                spec_dir_bytes(bs, sectors),
                0,
                bs.max_root_dir_entries as int,
            ) == Seq::<crate::fs::directory::DirEntryView>::empty()
        }),
{
    let fbs = spec_format_boot_sector(total_sectors);
    let s0 = sectors[0];
    crate::fs::boot_sector::lemma_parse_serialize_roundtrip(fbs, zero512());
    assert(s0.len() == 512);
    assert forall|i: int| 0 <= i < sectors.len() implies (#[trigger] sectors[i]).len()
        == 512 by {
        if i >= 1 {
            assert(sectors[i] == zero512());
        }
    }
    let bs = spec_parse(s0);
    assert(bs.reserved_sectors == 1 && bs.num_fats == 1 && bs.sectors_per_fat == 9);
    assert(bs.fat_start_lba == 1);
    assert(bs.root_dir_start_lba == 10);
    assert(bs.data_start_lba == 24);
    let dirb = spec_dir_bytes(bs, sectors);
    assert(dirb[0] == sectors[10][0]);
    assert(dirb[0] == 0);
    assert(slot(dirb, 0)[0] == 0);
    assert(spec_list_from(dirb, 0, 224) =~= Seq::<crate::fs::directory::DirEntryView>::empty());
}

/// Law: after `delete(name)` succeeds on a directory in which `name`
/// occurs in exactly one live record, looking the name up again fails —
/// so `read_file(name)` returns `FileNotFound` by its contract — and
/// every cluster of the freed chain reads back as 0.  The hypotheses on
/// the two states are exactly what `delete` ensures.
pub proof fn lemma_delete_then_read(
    bs: BootSector,
    s0: Seq<Seq<u8>>,
    s1: Seq<Seq<u8>>,
    nb: Seq<u8>,
    i: int,
)
    requires
        ({
            let dirb = spec_dir_bytes(bs, s0);
            let n = bs.max_root_dir_entries as int;
            &&& spec_find_idx_from(dirb, nb, 0, n) == Some(i)
            &&& spec_find_idx_from(dirb, nb, i + 1, n) is None
            &&& spec_dir_bytes(bs, s1) == dirb.update(32 * i, 0xE5u8)
            &&& ({
                let ev = spec_parse_entry(slot(dirb, i));
                let b0 = spec_fat_bytes(bs, s0);
                let b1 = spec_fat_bytes(bs, s1);
                if ev.start_cluster >= 2 && entry_in_range(
                    ev.start_cluster as int,
                    512 * bs.sectors_per_fat as int,
                ) {
                    let ch = spec_chain(b0, ev.start_cluster, spec_fat_capacity(bs) as nat);
                    forall|m: int|
                        entry_in_range(m, b0.len() as int) ==> fat_entry(b1, m) == (
                        if chain_contains(ch, m) {
                            0
                        } else {
                            fat_entry(b0, m)
                        })
                } else {
                    true
                }
            })
        }),
    ensures
        spec_find_idx_from(
            spec_dir_bytes(bs, s1),
            nb,
            0,
            bs.max_root_dir_entries as int,
        ) is None,
        ({
            let dirb = spec_dir_bytes(bs, s0);
            let ev = spec_parse_entry(slot(dirb, i));
            let b0 = spec_fat_bytes(bs, s0);
            let b1 = spec_fat_bytes(bs, s1);
            ev.start_cluster >= 2 && entry_in_range(
                ev.start_cluster as int,
                512 * bs.sectors_per_fat as int,
            ) ==> forall|m: int|
                entry_in_range(m, b0.len() as int) && chain_contains(
                    spec_chain(b0, ev.start_cluster, spec_fat_capacity(bs) as nat),
                    m,
                ) ==> fat_entry(b1, m) == 0
        }),
{
    let dirb = spec_dir_bytes(bs, s0);
    let n = bs.max_root_dir_entries as int;
    assert(dirb.len() == 32 * n);
    crate::fs::directory::lemma_find_idx_in_range(dirb, nb, 0, n);
    assert(0 <= i < n);
    crate::fs::directory::lemma_tombstone_scan(dirb, nb, 0, i, n);
}

} // verus!
