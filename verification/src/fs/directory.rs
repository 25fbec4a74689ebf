//! The fixed-slot root directory: 32-byte records addressed by linear
//! index, with scan/lookup/create/tombstone operations.
//!
//! The directory region is modelled as a flat byte sequence (`bytes`);
//! record `i` is its 32-byte slice starting at `32 * i`.  A slot whose
//! leading byte is `0x00` ends the directory, one whose leading byte is
//! `0xE5` is a deleted record that scans skip.

use vstd::arithmetic::div_mod::{
    lemma_fundamental_div_mod, lemma_fundamental_div_mod_converse,
};
use vstd::prelude::*;

use vstd::string::StringSliceAdditionalSpecFns;

use crate::fs::block_device::{sectors_wf, BlockDevice};
use crate::fs::boot_sector::{le16, lo_byte, hi_byte};
use crate::fs::bytes::take_bytes;
use crate::fs::fat_table::eq_outside_region;

verus! {

#[derive(Clone, Copy, Debug, PartialEq, Eq)]
pub struct DirectoryEntry {
    pub name: [u8; 8],
    pub ext: [u8; 3],
    pub attr: u8,
    pub reserved: [u8; 10],
    pub start_cluster: u16,
    pub file_size: u32,
}

/// The mathematical content of a directory record.
pub struct DirEntryView {
    pub name: Seq<u8>,
    pub ext: Seq<u8>,
    pub attr: u8,
    pub start_cluster: u16,
    pub file_size: u32,
}

impl View for DirectoryEntry {
    type V = DirEntryView;

    open spec fn view(&self) -> DirEntryView {
        DirEntryView {
            name: self.name@,
            ext: self.ext@,
            attr: self.attr,
            start_cluster: self.start_cluster,
            file_size: self.file_size,
        }
    }
}

/// The value of a little-endian 32-bit word with the given bytes.
pub open spec fn le32(b0: u8, b1: u8, b2: u8, b3: u8) -> int {
    b0 + 256 * b1 + 65536 * b2 + 16777216 * b3
}

/// The record parsed from one 32-byte slot.
pub open spec fn spec_parse_entry(raw: Seq<u8>) -> DirEntryView
    recommends
        raw.len() == 32,
{
    DirEntryView {
        name: raw.subrange(0, 8),
        ext: raw.subrange(8, 11),
        attr: raw[11],
        start_cluster: le16(raw[26], raw[27]) as u16,
        file_size: le32(raw[28], raw[29], raw[30], raw[31]) as u32,
    }
}

/// The 32-byte slot of record `i`.
pub open spec fn slot(b: Seq<u8>, i: int) -> Seq<u8>
    recommends
        0 <= i,
        32 * i + 32 <= b.len(),
{
    b.subrange(32 * i, 32 * i + 32)
}

/// `name` with trailing ASCII spaces removed.
pub open spec fn trim_spaces(s: Seq<u8>) -> Seq<u8>
    decreases s.len(),
{
    if s.len() == 0 {
        s
    } else if s.last() == 32 {
        trim_spaces(s.drop_last())
    } else {
        s
    }
}

/// Whether the space-trimmed 11-byte name field of a slot equals `name`.
pub open spec fn name_matches(raw: Seq<u8>, name: Seq<u8>) -> bool
    recommends
        raw.len() == 32,
{
    trim_spaces(raw.subrange(0, 11)) == name
}

/// The records a directory scan yields from index `i` on: stop at the
/// first `0x00` lead byte, skip `0xE5` tombstones, parse the rest.
pub open spec fn spec_list_from(b: Seq<u8>, i: int, n: int) -> Seq<DirEntryView>
    decreases n - i,
{
    if i < 0 || i >= n {
        Seq::empty()
    } else {
        let raw = slot(b, i);
        if raw[0] == 0 {
            Seq::empty()
        } else if raw[0] == 0xE5 {
            spec_list_from(b, i + 1, n)
        } else {
            seq![spec_parse_entry(raw)] + spec_list_from(b, i + 1, n)
        }
    }
}

/// The index of the first live record matching `name` under the same
/// scan rule, from index `i` on.
pub open spec fn spec_find_idx_from(b: Seq<u8>, name: Seq<u8>, i: int, n: int) -> Option<int>
    decreases n - i,
{
    if i < 0 || i >= n {
        None
    } else {
        let raw = slot(b, i);
        if raw[0] == 0 {
            None
        } else if raw[0] == 0xE5 {
            spec_find_idx_from(b, name, i + 1, n)
        } else if name_matches(raw, name) {
            Some(i)
        } else {
            spec_find_idx_from(b, name, i + 1, n)
        }
    }
}

/// The first record matching `name`, if any.
pub open spec fn spec_find(b: Seq<u8>, name: Seq<u8>, n: int) -> Option<DirEntryView> {
    match spec_find_idx_from(b, name, 0, n) {
        Some(i) => Some(spec_parse_entry(slot(b, i))),
        None => None,
    }
}

/// The index of the first free slot (lead byte `0x00` or `0xE5`), from
/// index `i` on.
pub open spec fn spec_free_idx_from(b: Seq<u8>, i: int, n: int) -> Option<int>
    decreases n - i,
{
    if i < 0 || i >= n {
        None
    } else {
        let raw = slot(b, i);
        if raw[0] == 0 || raw[0] == 0xE5 {
            Some(i)
        } else {
            spec_free_idx_from(b, i + 1, n)
        }
    }
}

/// `name` truncated to eleven bytes and padded with ASCII spaces.
pub open spec fn padded_name(name: Seq<u8>) -> Seq<u8> {
    Seq::new(
        11,
        |j: int|
            if j < name.len() {
                name[j]
            } else {
                32u8
            },
    )
}

/// The 32 bytes `create` writes into a free slot: the padded name,
/// attribute zero, the start cluster and the file size, zeros elsewhere.
pub open spec fn spec_new_entry_bytes(name: Seq<u8>, start_cluster: u16, size: u32) -> Seq<u8> {
    Seq::new(
        32,
        |j: int|
            if j < 11 {
                padded_name(name)[j]
            } else if j == 26 {
                lo_byte(start_cluster as int)
            } else if j == 27 {
                hi_byte(start_cluster as int)
            } else if j == 28 {
                (size as int % 256) as u8
            } else if j == 29 {
                (size as int / 256 % 256) as u8
            } else if j == 30 {
                (size as int / 65536 % 256) as u8
            } else if j == 31 {
                (size as int / 16777216) as u8
            } else {
                0u8
            },
    )
}

/// A trimmed name is the prefix that ends at the last non-space byte.
pub proof fn lemma_trim_spaces(s: Seq<u8>, t: int)
    requires
        0 <= t <= s.len(),
        forall|j: int| t <= j < s.len() ==> s[j] == 32,
        t > 0 ==> s[t - 1] != 32,
    ensures
        trim_spaces(s) == s.subrange(0, t),
    decreases s.len(),
{
    if s.len() == 0 {
        assert(trim_spaces(s) =~= s.subrange(0, t));
    } else if s.last() == 32 {
        assert(t < s.len());
        let s2 = s.drop_last();
        lemma_trim_spaces(s2, t);
        assert(s2.subrange(0, t) =~= s.subrange(0, t));
    } else {
        assert(t == s.len());
        assert(trim_spaces(s) =~= s.subrange(0, t));
    }
}

/// A fixed region of `num_entries` 32-byte slots at a known start LBA.
pub struct Directory {
    pub start_lba: u64,
    pub num_entries: u16,
}

/// Number of sectors covered by `n` 32-byte slots, rounded up.
pub open spec fn dir_sectors(n: int) -> int {
    (n + 15) / 16
}

impl Directory {
    /// The directory region as one flat byte sequence.
    pub open spec fn bytes(self, sectors: Seq<Seq<u8>>) -> Seq<u8> {
        Seq::new(
            (self.num_entries as nat) * 32,
            |i: int| sectors[self.start_lba + i / 512][i % 512],
        )
    }

    /// The region fits on the device.
    pub open spec fn inv(self, sectors: Seq<Seq<u8>>) -> bool {
        &&& sectors_wf(sectors)
        &&& self.start_lba + dir_sectors(self.num_entries as int) <= sectors.len()
        &&& self.start_lba + dir_sectors(self.num_entries as int) <= u64::MAX
    }

    pub fn new(start_lba: u64, num_entries: u16) -> (d: Directory)
        ensures
            d.start_lba == start_lba,
            d.num_entries == num_entries,
    {
        Directory { start_lba, num_entries }
    }

    /// Index facts for slot `idx`: which sector holds it and where.
    proof fn lemma_slot_bytes(self, sectors: Seq<Seq<u8>>, idx: int)
        requires
            self.inv(sectors),
            0 <= idx < self.num_entries,
        ensures
            0 <= idx / 16 < dir_sectors(self.num_entries as int),
            32 * idx == 512 * (idx / 16) + 32 * (idx % 16),
            0 <= 32 * (idx % 16) <= 480,
            forall|k: int|
                0 <= k < 32 ==> #[trigger] self.bytes(sectors)[32 * idx + k] == sectors[
                    self.start_lba + idx / 16
                ][32 * (idx % 16) + k],
    {
        lemma_fundamental_div_mod(idx, 16);
        let q = idx / 16;
        let r = idx % 16;
        assert(0 <= idx % 16 < 16) by (nonlinear_arith)
            requires
                0 <= idx,
        ;
        assert(16 * q <= idx);
        assert(q < dir_sectors(self.num_entries as int)) by {
            vstd::arithmetic::div_mod::lemma_div_is_ordered(
                16 * q + 15,
                self.num_entries as int + 15,
                16,
            );
            lemma_fundamental_div_mod_converse(16 * q + 15, 16, q, 15);
        }
        assert forall|k: int| 0 <= k < 32 implies #[trigger] self.bytes(sectors)[32 * idx + k]
            == sectors[self.start_lba + idx / 16][32 * (idx % 16) + k] by {
            let i = 32 * idx + k;
            lemma_fundamental_div_mod_converse(i, 512, q, 32 * r + k);
            assert(32 * idx + k < 32 * (self.num_entries as int)) by (nonlinear_arith)
                requires
                    idx < self.num_entries as int,
                    k < 32,
                    0 <= idx,
                    0 <= k,
            ;
        }
    }

    /// Read the 32 raw bytes of slot `idx`.
    fn read_entry_raw<D: BlockDevice>(&self, dev: &D, idx: usize) -> (out: Vec<u8>)
        requires
            self.inv(dev.sectors()),
            idx < self.num_entries,
        ensures
            out@.len() == 32,
            out@ == slot(self.bytes(dev.sectors()), idx as int),
    {
        proof {
            self.lemma_slot_bytes(dev.sectors(), idx as int);
        }
        let sector_idx = idx / 16;
        let sector_off = (idx % 16) * 32;
        let sector = dev.read_sector(self.start_lba + sector_idx as u64);
        let out = take_bytes(&sector, sector_off, 32);
        proof {
            assert(out@ =~= slot(self.bytes(dev.sectors()), idx as int));
        }
        out
    }

    /// Overwrite the 32 raw bytes of slot `idx`; the rest of the region
    /// and the rest of the device keep their bytes.
    fn write_entry_raw<D: BlockDevice>(&self, dev: &mut D, idx: usize, data: &Vec<u8>)
        requires
            self.inv(old(dev).sectors()),
            idx < self.num_entries,
            data@.len() == 32,
        ensures
            self.inv(final(dev).sectors()),
            eq_outside_region(
                old(dev).sectors(),
                final(dev).sectors(),
                self.start_lba as int,
                dir_sectors(self.num_entries as int),
            ),
            ({
                let b0 = self.bytes(old(dev).sectors());
                let b1 = self.bytes(final(dev).sectors());
                &&& b1.len() == b0.len()
                &&& slot(b1, idx as int) == data@
                &&& forall|i: int|
                    0 <= i < b0.len() && !(32 * idx <= i < 32 * idx + 32) ==> b1[i] == b0[i]
            }),
    {
        proof {
            self.lemma_slot_bytes(dev.sectors(), idx as int);
        }
        let sector_idx = idx / 16;
        let sector_off = (idx % 16) * 32;
        let lba = self.start_lba + sector_idx as u64;
        let mut sector = dev.read_sector(lba);
        let mut k: usize = 0;
        while k < 32
            invariant
                k <= 32,
                sector@.len() == 512,
                data@.len() == 32,
                sector_off <= 480,
                forall|j: int| 0 <= j < k ==> sector@[sector_off + j] == data@[j],
                forall|j: int|
                    0 <= j < 512 && !(sector_off <= j < sector_off + k) ==> sector@[j] == old(
                        dev,
                    ).sectors()[lba as int][j],
            decreases 32 - k,
        {
            sector[sector_off + k] = data[k];
            k = k + 1;
        }
        dev.write_sector(lba, sector.as_slice());
        proof {
            let b0 = self.bytes(old(dev).sectors());
            let b1 = self.bytes(dev.sectors());
            assert forall|i: int| 0 <= i < b0.len() implies b1[i] == (if 32 * idx <= i < 32 * idx
                + 32 {
                data@[i - 32 * idx]
            } else {
                b0[i]
            }) by {
                lemma_fundamental_div_mod(i, 512);
                if i / 512 == sector_idx as int {
                    assert(512 * (sector_idx as int) + (i % 512) == i);
                }
            }
            assert(slot(b1, idx as int) =~= data@);
        }
    }
}


/// The views of the records in `s`, in order.
pub open spec fn views_of(s: Seq<DirectoryEntry>) -> Seq<DirEntryView> {
    Seq::new(s.len(), |i: int| s[i]@)
}

impl DirectoryEntry {
    /// The all-zero record.
    pub fn empty() -> (e: DirectoryEntry)
        ensures
            e.name@ == Seq::new(8, |i: int| 0u8),
            e.ext@ == Seq::new(3, |i: int| 0u8),
            e.attr == 0,
            e.reserved@ == Seq::new(10, |i: int| 0u8),
            e.start_cluster == 0,
            e.file_size == 0,
    {
        let e = DirectoryEntry {
            name: [0u8; 8],
            ext: [0u8; 3],
            attr: 0,
            reserved: [0u8; 10],
            start_cluster: 0,
            file_size: 0,
        };
        proof {
            assert(e.name@ =~= Seq::new(8, |i: int| 0u8));
            assert(e.ext@ =~= Seq::new(3, |i: int| 0u8));
            assert(e.reserved@ =~= Seq::new(10, |i: int| 0u8));
        }
        e
    }
}

/// Parse one 32-byte slot into a record, zeroing the reserved bytes.
fn parse_entry(raw: &Vec<u8>) -> (e: DirectoryEntry)
    requires
        raw@.len() == 32,
    ensures
        e@ == spec_parse_entry(raw@),
{
    let mut name = [32u8; 8];
    let mut k: usize = 0;
    while k < 8
        invariant
            k <= 8,
            raw@.len() == 32,
            forall|j: int| 0 <= j < k ==> name@[j] == raw@[j],
        decreases 8 - k,
    {
        name[k] = raw[k];
        k = k + 1;
    }
    let mut ext = [32u8; 3];
    let mut k2: usize = 0;
    while k2 < 3
        invariant
            k2 <= 3,
            raw@.len() == 32,
            forall|j: int| 0 <= j < k2 ==> ext@[j] == raw@[8 + j],
        decreases 3 - k2,
    {
        ext[k2] = raw[8 + k2];
        k2 = k2 + 1;
    }
    let attr = raw[11];
    let start_cluster: u16 = raw[26] as u16 + 256 * (raw[27] as u16);
    let file_size: u32 = raw[28] as u32 + 256 * (raw[29] as u32) + 65536 * (raw[30] as u32)
        + 16777216 * (raw[31] as u32);
    let e = DirectoryEntry { name, ext, attr, reserved: [0u8; 10], start_cluster, file_size };
    proof {
        assert(e.name@ =~= raw@.subrange(0, 8));
        assert(e.ext@ =~= raw@.subrange(8, 11));
    }
    e
}

/// Whether the space-trimmed name field of `raw` equals `nb`.
fn name_eq(raw: &Vec<u8>, nb: &[u8]) -> (r: bool)
    requires
        raw@.len() == 32,
    ensures
        r == name_matches(raw@, nb@),
{
    let mut t: usize = 11;
    while t > 0 && raw[t - 1] == 32
        invariant
            t <= 11,
            raw@.len() == 32,
            forall|j: int| t <= j < 11 ==> raw@[j] == 32,
        decreases t,
    {
        t = t - 1;
    }
    proof {
        let name11 = raw@.subrange(0, 11);
        lemma_trim_spaces(name11, t as int);
    }
    if t != nb.len() {
        proof {
            assert(trim_spaces(raw@.subrange(0, 11)).len() == t);
        }
        return false;
    }
    let mut k: usize = 0;
    while k < t
        invariant
            k <= t,
            t <= 11,
            t == nb@.len(),
            raw@.len() == 32,
            trim_spaces(raw@.subrange(0, 11)) == raw@.subrange(0, t as int),
            forall|j: int| 0 <= j < k ==> raw@[j] == nb@[j],
        decreases t - k,
    {
        if raw[k] != nb[k] {
            proof {
                assert(raw@.subrange(0, t as int)[k as int] != nb@[k as int]);
            }
            return false;
        }
        k = k + 1;
    }
    proof {
        assert(raw@.subrange(0, t as int) =~= nb@);
    }
    true
}

impl Directory {
    /// Scan the directory in slot order and return the live records:
    /// stop at the first `0x00` lead byte, skip tombstones.
    pub fn list<D: BlockDevice>(&self, dev: &D) -> (r: Vec<DirectoryEntry>)
        requires
            self.inv(dev.sectors()),
        ensures
            views_of(r@) == spec_list_from(
                self.bytes(dev.sectors()),
                0,
                self.num_entries as int,
            ),
    {
        let ghost b = self.bytes(dev.sectors());
        let ghost n = self.num_entries as int;
        let mut out: Vec<DirectoryEntry> = Vec::new();
        let mut i: usize = 0;
        while i < self.num_entries as usize
            invariant_except_break
                i <= self.num_entries as usize,
                spec_list_from(b, 0, n) == views_of(out@) + spec_list_from(b, i as int, n),
            invariant
                self.inv(dev.sectors()),
                b == self.bytes(dev.sectors()),
                n == self.num_entries as int,
            ensures
                views_of(out@) == spec_list_from(b, 0, n),
            decreases self.num_entries as usize - i,
        {
            let raw = self.read_entry_raw(dev, i);
            if raw[0] == 0 {
                proof {
                    assert(spec_list_from(b, i as int, n) =~= Seq::<DirEntryView>::empty());
                    assert(views_of(out@) =~= spec_list_from(b, 0, n));
                }
                break ;
            }
            if raw[0] != 0xE5 {
                let e = parse_entry(&raw);
                out.push(e);
                proof {
                    assert(views_of(out@) =~= views_of(out@.drop_last()) + seq![e@]);
                }
            }
            i = i + 1;
        }
        proof {
            if i == self.num_entries as usize {
                assert(spec_list_from(b, i as int, n) =~= Seq::<DirEntryView>::empty());
                assert(views_of(out@) =~= spec_list_from(b, 0, n));
            }
        }
        out
    }

    /// Find the first live record whose space-trimmed name equals `name`.
    pub fn find<D: BlockDevice>(&self, dev: &D, name: &str) -> (r: Option<DirectoryEntry>)
        requires
            self.inv(dev.sectors()),
        ensures
            ({
                let f = spec_find(
                    self.bytes(dev.sectors()),
                    name.spec_bytes(),
                    self.num_entries as int,
                );
                match r {
                    Some(e) => f == Some(e@),
                    None => f is None,
                }
            }),
    {
        let ghost b = self.bytes(dev.sectors());
        let ghost n = self.num_entries as int;
        let nb = name.as_bytes();
        let mut i: usize = 0;
        while i < self.num_entries as usize
            invariant
                i <= self.num_entries as usize,
                spec_find_idx_from(b, nb@, 0, n) == spec_find_idx_from(b, nb@, i as int, n),
                self.inv(dev.sectors()),
                b == self.bytes(dev.sectors()),
                n == self.num_entries as int,
                nb@ == name.spec_bytes(),
            decreases self.num_entries as usize - i,
        {
            let raw = self.read_entry_raw(dev, i);
            if raw[0] == 0 {
                return None;
            }
            if raw[0] != 0xE5 {
                if name_eq(&raw, nb) {
                    let e = parse_entry(&raw);
                    return Some(e);
                }
            }
            i = i + 1;
        }
        None
    }

    /// Write a fresh record for `name` into the first free slot.  When
    /// every slot is live the directory is left untouched: a full
    /// directory is silently ignored, as callers cannot currently
    /// distinguish it from success.
    pub fn create<D: BlockDevice>(
        &self,
        dev: &mut D,
        name: &str,
        start_cluster: u16,
        size: u32,
    )
        requires
            self.inv(old(dev).sectors()),
        ensures
            self.inv(final(dev).sectors()),
            eq_outside_region(
                old(dev).sectors(),
                final(dev).sectors(),
                self.start_lba as int,
                dir_sectors(self.num_entries as int),
            ),
            ({
                let b0 = self.bytes(old(dev).sectors());
                let b1 = self.bytes(final(dev).sectors());
                match spec_free_idx_from(b0, 0, self.num_entries as int) {
                    Some(i) => {
                        &&& b1.len() == b0.len()
                        &&& slot(b1, i) == spec_new_entry_bytes(
                            name.spec_bytes(),
                            start_cluster,
                            size,
                        )
                        &&& forall|j: int|
                            0 <= j < b0.len() && !(32 * i <= j < 32 * i + 32) ==> b1[j] == b0[j]
                    },
                    None => final(dev).sectors() == old(dev).sectors(),
                }
            }),
    {
        let ghost b = self.bytes(old(dev).sectors());
        let ghost n = self.num_entries as int;
        let nb = name.as_bytes();
        let mut i: usize = 0;
        while i < self.num_entries as usize
            invariant
                i <= self.num_entries as usize,
                spec_free_idx_from(b, 0, n) == spec_free_idx_from(b, i as int, n),
                self.inv(dev.sectors()),
                dev.sectors() == old(dev).sectors(),
                b == self.bytes(dev.sectors()),
                n == self.num_entries as int,
                nb@ == name.spec_bytes(),
            decreases self.num_entries as usize - i,
        {
            let raw = self.read_entry_raw(dev, i);
            if raw[0] == 0 || raw[0] == 0xE5 {
                let entry = build_entry_bytes(nb, start_cluster, size);
                self.write_entry_raw(dev, i, &entry);
                return ;
            }
            i = i + 1;
        }
    }

    /// Tombstone the first record matching `name` by overwriting its
    /// lead byte with `0xE5`; a miss leaves the directory untouched.
    pub fn delete<D: BlockDevice>(&self, dev: &mut D, name: &str)
        requires
            self.inv(old(dev).sectors()),
        ensures
            self.inv(final(dev).sectors()),
            eq_outside_region(
                old(dev).sectors(),
                final(dev).sectors(),
                self.start_lba as int,
                dir_sectors(self.num_entries as int),
            ),
            ({
                let b0 = self.bytes(old(dev).sectors());
                let b1 = self.bytes(final(dev).sectors());
                match spec_find_idx_from(b0, name.spec_bytes(), 0, self.num_entries as int) {
                    Some(i) => b1 == b0.update(32 * i, 0xE5u8),
                    None => final(dev).sectors() == old(dev).sectors(),
                }
            }),
    {
        let ghost b = self.bytes(old(dev).sectors());
        let ghost n = self.num_entries as int;
        let nb = name.as_bytes();
        let mut i: usize = 0;
        while i < self.num_entries as usize
            invariant
                i <= self.num_entries as usize,
                spec_find_idx_from(b, nb@, 0, n) == spec_find_idx_from(b, nb@, i as int, n),
                self.inv(dev.sectors()),
                dev.sectors() == old(dev).sectors(),
                b == self.bytes(dev.sectors()),
                n == self.num_entries as int,
                nb@ == name.spec_bytes(),
            decreases self.num_entries as usize - i,
        {
            let mut raw = self.read_entry_raw(dev, i);
            if raw[0] == 0 {
                return ;
            }
            if raw[0] != 0xE5 {
                if name_eq(&raw, nb) {
                    raw[0] = 0xE5;
                    self.write_entry_raw(dev, i, &raw);
                    proof {
                        let b1 = self.bytes(dev.sectors());
                        let ii = i as int;
                        assert forall|j: int| 0 <= j < b1.len() implies b1[j] == b.update(
                            32 * ii,
                            0xE5u8,
                        )[j] by {
                            if 32 * ii <= j < 32 * ii + 32 {
                                assert(slot(b1, ii)[j - 32 * ii] == raw@[j - 32 * ii]);
                            }
                        }
                        assert(b1 =~= b.update(32 * (i as int), 0xE5u8));
                    }
                    return ;
                }
            }
            i = i + 1;
        }
    }

    /// Copy the raw bytes of the whole directory region into `buf`.
    pub fn serialize<D: BlockDevice>(&self, dev: &D, buf: &mut Vec<u8>)
        requires
            self.inv(dev.sectors()),
            old(buf)@.len() >= 32 * (self.num_entries as int),
        ensures
            final(buf)@.len() == old(buf)@.len(),
            forall|j: int|
                0 <= j < 32 * (self.num_entries as int) ==> final(buf)@[j] == self.bytes(
                    dev.sectors(),
                )[j],
            forall|j: int|
                32 * (self.num_entries as int) <= j < old(buf)@.len() ==> final(buf)@[j] == old(
                    buf,
                )@[j],
    {
        let mut i: usize = 0;
        while i < self.num_entries as usize
            invariant
                i <= self.num_entries as usize,
                self.inv(dev.sectors()),
                buf@.len() == old(buf)@.len(),
                old(buf)@.len() >= 32 * (self.num_entries as int),
                forall|j: int| 0 <= j < 32 * i ==> buf@[j] == self.bytes(dev.sectors())[j],
                forall|j: int|
                    32 * i <= j < old(buf)@.len() ==> buf@[j] == old(buf)@[j],
            decreases self.num_entries as usize - i,
        {
            let raw = self.read_entry_raw(dev, i);
            let mut k: usize = 0;
            while k < 32
                invariant
                    k <= 32,
                    i < self.num_entries as usize,
                    self.inv(dev.sectors()),
                    raw@.len() == 32,
                    raw@ == slot(self.bytes(dev.sectors()), i as int),
                    buf@.len() == old(buf)@.len(),
                    old(buf)@.len() >= 32 * (self.num_entries as int),
                    forall|j: int|
                        0 <= j < 32 * i + k ==> buf@[j] == self.bytes(dev.sectors())[j],
                    forall|j: int|
                        32 * i + k <= j < old(buf)@.len() ==> buf@[j] == old(buf)@[j],
                decreases 32 - k,
            {
                proof {
                    assert(32 * (i as int) + 32 <= 32 * (self.num_entries as int)) by (nonlinear_arith)
                        requires
                            i < self.num_entries as usize,
                    ;
                }
                buf[32 * i + k] = raw[k];
                k = k + 1;
            }
            i = i + 1;
        }
        proof {
            assert(32 * (self.num_entries as int) <= 32 * (self.num_entries as int));
        }
    }
}

/// Build the 32 bytes of a fresh record.
fn build_entry_bytes(nb: &[u8], start_cluster: u16, size: u32) -> (v: Vec<u8>)
    ensures
        v@.len() == 32,
        v@ == spec_new_entry_bytes(nb@, start_cluster, size),
{
    let mut v: Vec<u8> = Vec::new();
    let mut k: usize = 0;
    while k < 11
        invariant
            k <= 11,
            v@.len() == k,
            forall|j: int| 0 <= j < k ==> v@[j] == padded_name(nb@)[j],
        decreases 11 - k,
    {
        if k < nb.len() {
            v.push(nb[k]);
        } else {
            v.push(32u8);
        }
        k = k + 1;
    }
    v.push(0u8);  // attribute
    let mut k2: usize = 12;
    while k2 < 26
        invariant
            12 <= k2 <= 26,
            v@.len() == k2,
            forall|j: int| 0 <= j < 11 ==> v@[j] == padded_name(nb@)[j],
            v@[11] == 0u8,
            forall|j: int| 12 <= j < k2 ==> v@[j] == 0u8,
        decreases 26 - k2,
    {
        v.push(0u8);
        k2 = k2 + 1;
    }
    v.push((start_cluster % 256) as u8);
    v.push((start_cluster / 256) as u8);
    v.push((size % 256) as u8);
    v.push((size / 256 % 256) as u8);
    v.push((size / 65536 % 256) as u8);
    v.push((size / 16777216) as u8);
    proof {
        assert(v@ =~= spec_new_entry_bytes(nb@, start_cluster, size));
    }
    v
}


/// Scans agree wherever all slots from `k` on agree.
pub proof fn lemma_find_congruent(b1: Seq<u8>, b2: Seq<u8>, nb: Seq<u8>, k: int, n: int)
    requires
        b1.len() == 32 * n,
        b2.len() == 32 * n,
        forall|j: int| k <= j < n ==> slot(b2, j) == slot(b1, j),
    ensures
        spec_find_idx_from(b2, nb, k, n) == spec_find_idx_from(b1, nb, k, n),
    decreases n - k,
{
    if 0 <= k < n {
        assert(slot(b2, k) == slot(b1, k));
        lemma_find_congruent(b1, b2, nb, k + 1, n);
    }
}

/// The scan from `k` finds its first match at slot `i`.
pub open spec fn finds_at(b: Seq<u8>, name: Seq<u8>, k: int, n: int, i: int) -> bool {
    spec_find_idx_from(b, name, k, n) == Some(i)
}

/// Tombstoning slot `i` sends the scan from `k` to whatever the scan of
/// the untouched directory finds beyond `i`.
pub open spec fn tombstone_skips(b: Seq<u8>, name: Seq<u8>, k: int, i: int, n: int) -> bool {
    spec_find_idx_from(b.update(32 * i, 0xE5u8), name, k, n) == spec_find_idx_from(
        b,
        name,
        i + 1,
        n,
    )
}

/// After the found record is tombstoned, the search continues exactly
/// as it would from the next slot of the untouched directory.
pub proof fn lemma_tombstone_scan(b: Seq<u8>, nb: Seq<u8>, k: int, i: int, n: int)
    requires
        b.len() == 32 * n,
        finds_at(b, nb, k, n, i),
        0 <= k,
        k <= i,
        i < n,
    ensures
        tombstone_skips(b, nb, k, i, n),
    decreases n - k,
{
    let b2 = b.update(32 * i, 0xE5u8);
    assert forall|j: int| 0 <= j < n && j != i implies slot(b2, j) == slot(b, j) by {
        assert(32 * j + 32 <= 32 * n) by (nonlinear_arith)
            requires
                j < n,
        ;
        assert(32 * i < 32 * j || 32 * i >= 32 * j + 32) by (nonlinear_arith)
            requires
                j != i,
        ;
        assert(slot(b2, j) =~= slot(b, j));
    }
    assert(slot(b2, i)[0] == 0xE5) by {
        assert(32 * i + 32 <= 32 * n) by (nonlinear_arith)
            requires
                i < n,
        ;
    }
    if k == i {
        lemma_find_congruent(b, b2, nb, i + 1, n);
    } else {
        let raw = slot(b, k);
        assert(raw[0] != 0);
        lemma_tombstone_scan(b, nb, k + 1, i, n);
    }
}


/// A found index always lies between the scan start and the slot count.
pub proof fn lemma_find_idx_in_range(b: Seq<u8>, name: Seq<u8>, k: int, n: int)
    ensures
        ({
            match spec_find_idx_from(b, name, k, n) {
                Some(i) => k <= i < n,
                None => true,
            }
        }),
    decreases n - k,
{
    if 0 <= k < n {
        lemma_find_idx_in_range(b, name, k + 1, n);
    }
}

} // verus!
