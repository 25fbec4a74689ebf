//! The 12-bit packed allocation table with a one-sector write-back cache.
//!
//! The table is modelled as a flat sequence of bytes (`fat_bytes`): the
//! FAT region of the device with the cached sector overlaid.  A cluster's
//! entry is three consecutive nibbles of that sequence, so every operation
//! is specified by which nibbles it reads or replaces.

use vstd::arithmetic::div_mod::{
    lemma_fundamental_div_mod, lemma_fundamental_div_mod_converse,
};
use vstd::prelude::*;

use crate::fs::block_device::{sectors_wf, BlockDevice};

verus! {

/// Nibble `i` of the packed table: the low half of byte `i/2` for even
/// `i`, the high half for odd `i`.
pub open spec fn fat_nibble(b: Seq<u8>, i: int) -> int
    recommends
        0 <= i,
        i / 2 < b.len(),
{
    if i % 2 == 0 {
        (b[i / 2] as int) % 16
    } else {
        (b[i / 2] as int) / 16
    }
}

/// The 12-bit entry of cluster `n`: nibbles `3n`, `3n+1`, `3n+2`, least
/// significant first.
pub open spec fn fat_entry(b: Seq<u8>, n: int) -> int
    recommends
        entry_in_range(n, b.len() as int),
{
    fat_nibble(b, 3 * n) + 16 * fat_nibble(b, 3 * n + 1) + 256 * fat_nibble(b, 3 * n + 2)
}

/// Cluster `n` has a complete 12-bit entry inside a table of `len` bytes.
pub open spec fn entry_in_range(n: int, len: int) -> bool {
    0 <= n && 3 * n + 2 < 2 * len
}

/// The two sequences of sectors agree everywhere outside
/// `[start, start + count)`.
pub open spec fn eq_outside_region(
    s1: Seq<Seq<u8>>,
    s2: Seq<Seq<u8>>,
    start: int,
    count: int,
) -> bool {
    &&& s1.len() == s2.len()
    &&& forall|i: int| 0 <= i < s1.len() && !(start <= i < start + count) ==> s1[i] == s2[i]
}

/// An entry is always twelve bits.
pub proof fn lemma_fat_entry_bound(b: Seq<u8>, n: int)
    requires
        entry_in_range(n, b.len() as int),
    ensures
        0 <= fat_entry(b, n) < 4096,
{
    lemma_nibble_bound(b, 3 * n);
    lemma_nibble_bound(b, 3 * n + 1);
    lemma_nibble_bound(b, 3 * n + 2);
}

/// A nibble is always in `0..16`.
pub proof fn lemma_nibble_bound(b: Seq<u8>, i: int)
    requires
        0 <= i,
        i / 2 < b.len(),
    ensures
        0 <= fat_nibble(b, i) < 16,
{
    let x = b[i / 2] as int;
    assert(0 <= x % 16 < 16 && 0 <= x / 16 < 16) by (nonlinear_arith)
        requires
            0 <= x < 256,
    ;
}

/// How an entry reads out of its two covering bytes, by cluster parity.
pub proof fn lemma_entry_from_bytes(b: Seq<u8>, n: int)
    requires
        entry_in_range(n, b.len() as int),
    ensures
        n % 2 == 0 ==> fat_entry(b, n) == b[3 * n / 2] + 256 * (b[3 * n / 2 + 1] % 16),
        n % 2 == 1 ==> fat_entry(b, n) == b[3 * n / 2] / 16 + 16 * b[3 * n / 2 + 1],
{
    let idx = 3 * n / 2;
    if n % 2 == 0 {
        lemma_fundamental_div_mod_converse(3 * n, 2, 3 * (n / 2), 0);
        assert(3 * n == 2 * idx);
        lemma_fundamental_div_mod_converse(3 * n + 1, 2, idx, 1);
        lemma_fundamental_div_mod_converse(3 * n + 2, 2, idx + 1, 0);
        let b0 = b[idx] as int;
        let b1 = b[idx + 1] as int;
        assert(fat_nibble(b, 3 * n) == b0 % 16);
        assert(fat_nibble(b, 3 * n + 1) == b0 / 16);
        assert(fat_nibble(b, 3 * n + 2) == b1 % 16);
        assert(b0 % 16 + 16 * (b0 / 16) == b0) by (nonlinear_arith)
            requires
                0 <= b0 < 256,
        ;
    } else {
        assert(3 * n % 2 == 1) by (nonlinear_arith)
            requires
                n % 2 == 1,
        ;
        lemma_fundamental_div_mod(3 * n, 2);
        assert(3 * n == 2 * idx + 1);
        lemma_fundamental_div_mod_converse(3 * n + 1, 2, idx + 1, 0);
        lemma_fundamental_div_mod_converse(3 * n + 2, 2, idx + 1, 1);
        let b0 = b[idx] as int;
        let b1 = b[idx + 1] as int;
        assert(fat_nibble(b, 3 * n) == b0 / 16);
        assert(fat_nibble(b, 3 * n + 1) == b1 % 16);
        assert(fat_nibble(b, 3 * n + 2) == b1 / 16);
        assert(b1 % 16 + 16 * (b1 / 16) == b1) by (nonlinear_arith)
            requires
                0 <= b1 < 256,
        ;
    }
}

/// Replacing the two bytes of cluster `n`'s entry as `write_entry` does
/// sets that entry to `v` and leaves every nibble outside `3n..=3n+2`
/// unchanged.
pub proof fn lemma_entry_update(b0: Seq<u8>, b1: Seq<u8>, n: int, v: int)
    requires
        b0.len() == b1.len(),
        entry_in_range(n, b0.len() as int),
        0 <= v < 4096,
        forall|j: int|
            0 <= j < b0.len() && j != 3 * n / 2 && j != 3 * n / 2 + 1 ==> b1[j] == b0[j],
        n % 2 == 0 ==> b1[3 * n / 2] == v % 256 && b1[3 * n / 2 + 1] == (b0[3 * n / 2 + 1] / 16)
            * 16 + v / 256,
        n % 2 == 1 ==> b1[3 * n / 2] == b0[3 * n / 2] % 16 + (v % 16) * 16 && b1[3 * n / 2 + 1]
            == v / 16,
    ensures
        fat_entry(b1, n) == v,
        forall|i: int|
            0 <= i < 2 * b0.len() && !(3 * n <= i <= 3 * n + 2) ==> fat_nibble(b1, i)
                == fat_nibble(b0, i),
{
    let idx = 3 * n / 2;
    assert(0 <= v % 256 < 256 && 0 <= v % 16 < 16 && 0 <= v / 256 < 16 && 0 <= v / 16 < 256) by (nonlinear_arith)
        requires
            0 <= v < 4096,
    ;
    if n % 2 == 0 {
        lemma_fundamental_div_mod_converse(3 * n, 2, 3 * (n / 2), 0);
        assert(3 * n == 2 * idx);
        let ob1 = b0[idx + 1] as int;
        let nb0 = b1[idx] as int;
        let nb1 = b1[idx + 1] as int;
        // The two new bytes split back into the nibbles of v and the
        // preserved high nibble of the second byte.
        assert(nb0 % 16 == v % 16 && nb0 / 16 == (v / 16) % 16) by (nonlinear_arith)
            requires
                nb0 == v % 256,
                0 <= v < 4096,
        ;
        assert(nb1 % 16 == v / 256 && nb1 / 16 == ob1 / 16) by (nonlinear_arith)
            requires
                nb1 == (ob1 / 16) * 16 + v / 256,
                0 <= ob1 < 256,
                0 <= v / 256 < 16,
        ;
        assert(v % 16 + 16 * ((v / 16) % 16) + 256 * (v / 256) == v) by (nonlinear_arith)
            requires
                0 <= v < 4096,
        ;
        lemma_fundamental_div_mod_converse(3 * n + 1, 2, idx, 1);
        lemma_fundamental_div_mod_converse(3 * n + 2, 2, idx + 1, 0);
        assert(fat_entry(b1, n) == v);
        assert forall|i: int|
            0 <= i < 2 * b0.len() && !(3 * n <= i <= 3 * n + 2) implies fat_nibble(b1, i)
            == fat_nibble(b0, i) by {
            lemma_fundamental_div_mod(i, 2);
            if i / 2 == idx {
                assert(i == 3 * n || i == 3 * n + 1);
            } else if i / 2 == idx + 1 {
                assert(i == 3 * n + 2 || i == 3 * n + 3);
                assert(fat_nibble(b1, i) == nb1 / 16 && fat_nibble(b0, i) == ob1 / 16);
            }
        }
    } else {
        assert(3 * n % 2 == 1) by (nonlinear_arith)
            requires
                n % 2 == 1,
        ;
        lemma_fundamental_div_mod(3 * n, 2);
        assert(3 * n == 2 * idx + 1);
        let ob0 = b0[idx] as int;
        let nb0 = b1[idx] as int;
        let nb1 = b1[idx + 1] as int;
        assert(nb0 % 16 == ob0 % 16 && nb0 / 16 == v % 16) by (nonlinear_arith)
            requires
                nb0 == ob0 % 16 + (v % 16) * 16,
                0 <= ob0 < 256,
                0 <= v < 4096,
        ;
        assert(nb1 % 16 == (v / 16) % 16 && nb1 / 16 == v / 256) by (nonlinear_arith)
            requires
                nb1 == v / 16,
                0 <= v < 4096,
        ;
        assert(v % 16 + 16 * ((v / 16) % 16) + 256 * (v / 256) == v) by (nonlinear_arith)
            requires
                0 <= v < 4096,
        ;
        lemma_fundamental_div_mod_converse(3 * n + 1, 2, idx + 1, 0);
        lemma_fundamental_div_mod_converse(3 * n + 2, 2, idx + 1, 1);
        assert(fat_entry(b1, n) == v);
        assert forall|i: int|
            0 <= i < 2 * b0.len() && !(3 * n <= i <= 3 * n + 2) implies fat_nibble(b1, i)
            == fat_nibble(b0, i) by {
            lemma_fundamental_div_mod(i, 2);
            if i / 2 == idx {
                assert(i == 3 * n - 1 || i == 3 * n);
                assert(fat_nibble(b1, i) == nb0 % 16 && fat_nibble(b0, i) == ob0 % 16);
            } else if i / 2 == idx + 1 {
                assert(i == 3 * n + 1 || i == 3 * n + 2);
            }
        }
    }
}

/// If every nibble of cluster `m`'s entry is untouched, so is the entry.
pub proof fn lemma_entry_preserved(b0: Seq<u8>, b1: Seq<u8>, n: int, m: int)
    requires
        b0.len() == b1.len(),
        entry_in_range(m, b0.len() as int),
        m != n,
        forall|i: int|
            0 <= i < 2 * b0.len() && !(3 * n <= i <= 3 * n + 2) ==> fat_nibble(b1, i)
                == fat_nibble(b0, i),
    ensures
        fat_entry(b1, m) == fat_entry(b0, m),
{
    assert(3 * m + 2 < 3 * n || 3 * m > 3 * n + 2) by (nonlinear_arith)
        requires
            m != n,
    ;
}

pub struct FatTable {
    pub start_lba: u64,
    pub sectors_per_fat: u16,
    pub cache_sector: u32,
    pub cache: Vec<u8>,
    pub cache_dirty: bool,
}

impl FatTable {
    /// The logical bytes of the table: the FAT region of the device with
    /// the cached sector overlaid.
    pub open spec fn fat_bytes(self, sectors: Seq<Seq<u8>>) -> Seq<u8> {
        Seq::new(
            (self.sectors_per_fat as nat) * 512,
            |i: int|
                if self.cache_sector != u32::MAX && i / 512 == self.cache_sector as int {
                    self.cache@[i % 512]
                } else {
                    sectors[self.start_lba + i / 512][i % 512]
                },
        )
    }

    /// Well-formedness of the table over the device it views: the region
    /// fits on the device, the cache holds one whole sector of it, and a
    /// clean cache mirrors the device.
    pub open spec fn inv(self, sectors: Seq<Seq<u8>>) -> bool {
        &&& sectors_wf(sectors)
        &&& self.cache@.len() == 512
        &&& self.start_lba + self.sectors_per_fat <= sectors.len()
        &&& self.start_lba + self.sectors_per_fat <= u64::MAX
        &&& (self.cache_sector == u32::MAX || self.cache_sector < self.sectors_per_fat)
        &&& (self.cache_dirty ==> self.cache_sector != u32::MAX)
        &&& (self.cache_sector != u32::MAX && !self.cache_dirty ==> self.cache@ == sectors[
            self.start_lba + self.cache_sector
        ])
    }

    /// A view of the FAT region starting at `start_lba` and spanning
    /// `sectors_per_fat` sectors, with an empty cache.
    pub fn new(start_lba: u64, sectors_per_fat: u16) -> (t: FatTable)
        ensures
            t.start_lba == start_lba,
            t.sectors_per_fat == sectors_per_fat,
            t.cache_sector == u32::MAX,
            t.cache_dirty == false,
            t.cache@.len() == 512,
    {
        FatTable {
            start_lba,
            sectors_per_fat,
            cache_sector: u32::MAX,
            cache: crate::fs::bytes::zero_sector(),
            cache_dirty: false,
        }
    }

    /// Write back the cached sector if it is dirty; a no-op otherwise.
    /// Afterwards the device region itself carries the logical bytes.
    pub fn flush<D: BlockDevice>(&mut self, dev: &mut D) -> (r: Result<(), ()>)
        requires
            old(self).inv(old(dev).sectors()),
        ensures
            r == Ok::<(), ()>(()),
            final(self).inv(final(dev).sectors()),
            final(self).start_lba == old(self).start_lba,
            final(self).sectors_per_fat == old(self).sectors_per_fat,
            final(self).cache_sector == old(self).cache_sector,
            final(self).cache == old(self).cache,
            final(self).cache_dirty == false,
            final(self).fat_bytes(final(dev).sectors()) == old(self).fat_bytes(
                old(dev).sectors(),
            ),
            eq_outside_region(
                old(dev).sectors(),
                final(dev).sectors(),
                old(self).start_lba as int,
                old(self).sectors_per_fat as int,
            ),
            old(self).cache_dirty == false ==> final(dev).sectors() == old(dev).sectors(),
    {
        if !self.cache_dirty {
            return Ok(());
        }
        let lba = self.start_lba + self.cache_sector as u64;
        dev.write_sector(lba, self.cache.as_slice());
        self.cache_dirty = false;
        proof {
            assert(final(self).fat_bytes(final(dev).sectors()) =~= old(self).fat_bytes(
                old(dev).sectors(),
            ));
        }
        Ok(())
    }

    /// Load `sector_idx` of the region into the cache, flushing whatever
    /// dirty sector it replaces.  The logical bytes do not change, and the
    /// loaded cache holds exactly their `sector_idx`-th sector.
    fn load_sector<D: BlockDevice>(&mut self, dev: &mut D, sector_idx: u32)
        requires
            old(self).inv(old(dev).sectors()),
            sector_idx < old(self).sectors_per_fat,
        ensures
            final(self).inv(final(dev).sectors()),
            final(self).start_lba == old(self).start_lba,
            final(self).sectors_per_fat == old(self).sectors_per_fat,
            final(self).cache_sector == sector_idx,
            final(self).cache_dirty ==> old(self).cache_dirty,
            final(self).fat_bytes(final(dev).sectors()) == old(self).fat_bytes(
                old(dev).sectors(),
            ),
            eq_outside_region(
                old(dev).sectors(),
                final(dev).sectors(),
                old(self).start_lba as int,
                old(self).sectors_per_fat as int,
            ),
            old(self).cache_dirty == false ==> final(dev).sectors() == old(dev).sectors()
                && final(self).cache_dirty == false,
            forall|k: int|
                0 <= k < 512 ==> final(self).cache@[k] == old(self).fat_bytes(
                    old(dev).sectors(),
                )[512 * (sector_idx as int) + k],
    {
        proof {
            let b = old(self).fat_bytes(old(dev).sectors());
            assert forall|k: int| 0 <= k < 512 implies b[512 * (sector_idx as int) + k] == (
            if old(self).cache_sector == sector_idx {
                old(self).cache@[k]
            } else {
                old(dev).sectors()[old(self).start_lba + sector_idx][k]
            }) by {
                let i = 512 * (sector_idx as int) + k;
                let si = sector_idx as int;
                let spf = old(self).sectors_per_fat as int;
                lemma_fundamental_div_mod_converse(i, 512, si, k);
                assert(si * 512 + 512 <= spf * 512) by (nonlinear_arith)
                    requires
                        si < spf,
                ;
            }
        }
        if self.cache_sector == sector_idx {
            return ;
        }
        if self.cache_dirty {
            let lba = self.start_lba + self.cache_sector as u64;
            dev.write_sector(lba, self.cache.as_slice());
            self.cache_dirty = false;
            proof {
                assert(self.fat_bytes(dev.sectors()) =~= old(self).fat_bytes(
                    old(dev).sectors(),
                ));
            }
        }
        let ghost mid_dev = dev.sectors();
        let ghost mid = *self;
        self.cache = dev.read_sector(self.start_lba + sector_idx as u64);
        self.cache_sector = sector_idx;
        proof {
            assert(self.fat_bytes(dev.sectors()) =~= mid.fat_bytes(mid_dev));
        }
    }

    /// Write the 512 bytes of `data` to an arbitrary sector outside the
    /// FAT region, using the device borrowed for this table.
    pub fn write_data_sector<D: BlockDevice>(&mut self, dev: &mut D, lba: u64, data: &[u8])
        requires
            old(self).inv(old(dev).sectors()),
            lba < old(dev).sectors().len(),
            data@.len() == 512,
            lba < old(self).start_lba || lba >= old(self).start_lba + old(self).sectors_per_fat,
        ensures
            *final(self) == *old(self),
            final(self).inv(final(dev).sectors()),
            final(dev).sectors() == old(dev).sectors().update(lba as int, data@),
            final(self).fat_bytes(final(dev).sectors()) == old(self).fat_bytes(
                old(dev).sectors(),
            ),
    {
        dev.write_sector(lba, data);
        proof {
            assert(final(self).fat_bytes(final(dev).sectors()) =~= old(self).fat_bytes(
                old(dev).sectors(),
            ));
        }
    }

    /// Read the 512 bytes of an arbitrary sector, using the device
    /// borrowed for this table.
    pub fn read_data_sector<D: BlockDevice>(&self, dev: &D, lba: u64) -> (data: Vec<u8>)
        requires
            sectors_wf(dev.sectors()),
            lba < dev.sectors().len(),
        ensures
            data@ == dev.sectors()[lba as int],
            data@.len() == 512,
    {
        dev.read_sector(lba)
    }
}


/// Byte index range facts for the entry of cluster `n` inside a table of
/// `512 * spf` bytes.
pub proof fn lemma_entry_byte_range(n: int, spf: int)
    requires
        0 <= n,
        3 * n + 2 < 1024 * spf,
    ensures
        0 <= 3 * n / 2,
        3 * n / 2 + 1 < 512 * spf,
        3 * n == 2 * (3 * n / 2) + (3 * n) % 2,
        0 <= (3 * n) % 2 < 2,
{
    lemma_fundamental_div_mod(3 * n, 2);
    assert(0 <= (3 * n) % 2 < 2) by (nonlinear_arith)
        requires
            0 <= n,
    ;
    assert(0 <= 3 * n / 2) by (nonlinear_arith)
        requires
            0 <= n,
    ;
}

/// A cluster chain read out of the table: `start`, then the entries
/// followed as next-cluster pointers, ending with the cluster whose entry
/// is end-of-chain (`>= 0xFF8`).  A pointer below 2, a pointer past the
/// end of the table, or exhausted fuel also ends the walk, so the
/// sequence is always finite even on a corrupt table.
pub open spec fn spec_chain(b: Seq<u8>, start: u16, fuel: nat) -> Seq<u16>
    decreases fuel,
{
    let next = fat_entry(b, start as int);
    if fuel == 0 || next >= 0xFF8 || next < 2 || !entry_in_range(next, b.len() as int) {
        seq![start]
    } else {
        seq![start] + spec_chain(b, next as u16, (fuel - 1) as nat)
    }
}

/// Whether the chain visits cluster `m`.
pub open spec fn chain_contains(ch: Seq<u16>, m: int) -> bool {
    exists|k: int| 0 <= k < ch.len() && ch[k] == m
}

/// Every cluster a chain visits has a complete entry in the table, the
/// walk starts at `start`, and it is never empty.
pub proof fn lemma_spec_chain_elems(b: Seq<u8>, start: u16, fuel: nat)
    requires
        entry_in_range(start as int, b.len() as int),
    ensures
        spec_chain(b, start, fuel).len() >= 1,
        spec_chain(b, start, fuel)[0] == start,
        forall|k: int|
            0 <= k < spec_chain(b, start, fuel).len() ==> entry_in_range(
                #[trigger] spec_chain(b, start, fuel)[k] as int,
                b.len() as int,
            ),
    decreases fuel,
{
    let next = fat_entry(b, start as int);
    if !(fuel == 0 || next >= 0xFF8 || next < 2 || !entry_in_range(next, b.len() as int)) {
        lemma_fat_entry_bound(b, start as int);
        lemma_spec_chain_elems(b, next as u16, (fuel - 1) as nat);
    }
}

impl FatTable {
    /// Read the 12-bit entry of cluster `cluster`.
    pub fn read_entry<D: BlockDevice>(&mut self, dev: &mut D, cluster: u16) -> (v: u16)
        requires
            old(self).inv(old(dev).sectors()),
            entry_in_range(cluster as int, 512 * old(self).sectors_per_fat as int),
        ensures
            final(self).inv(final(dev).sectors()),
            final(self).start_lba == old(self).start_lba,
            final(self).sectors_per_fat == old(self).sectors_per_fat,
            final(self).cache_dirty ==> old(self).cache_dirty,
            final(self).fat_bytes(final(dev).sectors()) == old(self).fat_bytes(
                old(dev).sectors(),
            ),
            eq_outside_region(
                old(dev).sectors(),
                final(dev).sectors(),
                old(self).start_lba as int,
                old(self).sectors_per_fat as int,
            ),
            old(self).cache_dirty == false ==> final(dev).sectors() == old(dev).sectors()
                && final(self).cache_dirty == false,
            v < 4096,
            v as int == fat_entry(old(self).fat_bytes(old(dev).sectors()), cluster as int),
    {
        let ghost b = old(self).fat_bytes(old(dev).sectors());
        proof {
            lemma_entry_byte_range(cluster as int, self.sectors_per_fat as int);
            lemma_entry_from_bytes(b, cluster as int);
        }
        let idx: usize = (cluster as usize) * 3 / 2;
        let sector_idx_us: usize = idx / 512;
        let offset: usize = idx % 512;
        proof {
            lemma_fundamental_div_mod(idx as int, 512);
        }
        let sector_idx: u32 = sector_idx_us as u32;
        self.load_sector(dev, sector_idx);
        let b0 = self.cache[offset];
        proof {
            assert(512 * (sector_idx as int) + offset == idx);
            assert(b0 == b[idx as int]);
        }
        let b1: u8;
        if offset + 1 < 512 {
            b1 = self.cache[offset + 1];
            proof {
                assert(b1 == b[idx + 1]);
            }
        } else {
            self.load_sector(dev, sector_idx + 1);
            b1 = self.cache[0];
            proof {
                assert(512 * (sector_idx as int + 1) + 0 == idx + 1);
                assert(b1 == b[idx + 1]);
            }
        }
        if cluster % 2 == 0 {
            let v: u16 = (b0 as u16) + 256 * ((b1 as u16) % 16);
            proof {
                assert(v as int == fat_entry(b, cluster as int));
            }
            v
        } else {
            let v: u16 = (b0 as u16) / 16 + 16 * (b1 as u16);
            proof {
                assert(v as int == fat_entry(b, cluster as int));
            }
            v
        }
    }

    /// Write the 12-bit entry of cluster `cluster`, taking the low twelve
    /// bits of `value`.  The nibble belonging to the neighboring cluster
    /// in the shared byte is preserved, as is every other entry.
    pub fn write_entry<D: BlockDevice>(&mut self, dev: &mut D, cluster: u16, value: u16)
        requires
            old(self).inv(old(dev).sectors()),
            entry_in_range(cluster as int, 512 * old(self).sectors_per_fat as int),
        ensures
            final(self).inv(final(dev).sectors()),
            final(self).start_lba == old(self).start_lba,
            final(self).sectors_per_fat == old(self).sectors_per_fat,
            eq_outside_region(
                old(dev).sectors(),
                final(dev).sectors(),
                old(self).start_lba as int,
                old(self).sectors_per_fat as int,
            ),
            ({
                let b0 = old(self).fat_bytes(old(dev).sectors());
                let b1 = final(self).fat_bytes(final(dev).sectors());
                &&& b1.len() == b0.len()
                &&& fat_entry(b1, cluster as int) == (value as int) % 4096
                &&& forall|i: int|
                    0 <= i < 2 * b0.len() && !(3 * cluster <= i <= 3 * cluster + 2)
                        ==> fat_nibble(b1, i) == fat_nibble(b0, i)
                &&& forall|m: int|
                    entry_in_range(m, b0.len() as int) && m != cluster ==> fat_entry(b1, m)
                        == fat_entry(b0, m)
            }),
    {
        let ghost b = old(self).fat_bytes(old(dev).sectors());
        proof {
            lemma_entry_byte_range(cluster as int, self.sectors_per_fat as int);
        }
        let idx: usize = (cluster as usize) * 3 / 2;
        let sector_idx_us: usize = idx / 512;
        let offset: usize = idx % 512;
        proof {
            lemma_fundamental_div_mod(idx as int, 512);
        }
        let sector_idx: u32 = sector_idx_us as u32;
        self.load_sector(dev, sector_idx);
        let v: u16 = value % 4096;
        let b0 = self.cache[offset];
        proof {
            assert(512 * (sector_idx as int) + offset == idx);
            assert(b0 == b[idx as int]);
        }
        let nb0: u8;
        let nb1: u8;
        if offset + 1 < 512 {
            let b1 = self.cache[offset + 1];
            proof {
                assert(b1 == b[idx + 1]);
            }
            if cluster % 2 == 0 {
                nb0 = (v % 256) as u8;
                nb1 = (b1 / 16) * 16 + (v / 256) as u8;
            } else {
                nb0 = b0 % 16 + ((v % 16) as u8) * 16;
                nb1 = (v / 16) as u8;
            }
            self.cache[offset] = nb0;
            self.cache[offset + 1] = nb1;
            self.cache_dirty = true;
            proof {
                assert(self.fat_bytes(dev.sectors()) =~= b.update(idx as int, nb0).update(
                    idx + 1,
                    nb1,
                ));
            }
        } else {
            let next_lba = self.start_lba + sector_idx as u64 + 1;
            let mut tmp = dev.read_sector(next_lba);
            let b1 = tmp[0];
            proof {
                assert(512 * (sector_idx as int + 1) + 0 == idx + 1);
                assert(b1 == b[idx + 1]);
            }
            if cluster % 2 == 0 {
                nb0 = (v % 256) as u8;
                nb1 = (b1 / 16) * 16 + (v / 256) as u8;
            } else {
                nb0 = b0 % 16 + ((v % 16) as u8) * 16;
                nb1 = (v / 16) as u8;
            }
            self.cache[offset] = nb0;
            self.cache_dirty = true;
            tmp[0] = nb1;
            dev.write_sector(next_lba, tmp.as_slice());
            proof {
                assert forall|i: int| 0 <= i < b.len() implies self.fat_bytes(dev.sectors())[i]
                    == b.update(idx as int, nb0).update(idx + 1, nb1)[i] by {
                    lemma_fundamental_div_mod(i, 512);
                }
                assert(self.fat_bytes(dev.sectors()) =~= b.update(idx as int, nb0).update(
                    idx + 1,
                    nb1,
                ));
            }
        }
        proof {
            let bnew = self.fat_bytes(dev.sectors());
            lemma_entry_update(b, bnew, cluster as int, v as int);
            assert forall|m: int|
                entry_in_range(m, b.len() as int) && m != cluster implies fat_entry(bnew, m)
                == fat_entry(b, m) by {
                lemma_entry_preserved(b, bnew, cluster as int, m);
            }
        }
    }
}


impl FatTable {
    /// Find the first free cluster (entry 0) at or above cluster 2 and
    /// mark it end-of-chain; `None` when the whole table is occupied.
    pub fn alloc_cluster<D: BlockDevice>(&mut self, dev: &mut D) -> (r: Option<u16>)
        requires
            old(self).inv(old(dev).sectors()),
            1024 * (old(self).sectors_per_fat as int) / 3 <= 65535,
        ensures
            final(self).inv(final(dev).sectors()),
            final(self).start_lba == old(self).start_lba,
            final(self).sectors_per_fat == old(self).sectors_per_fat,
            eq_outside_region(
                old(dev).sectors(),
                final(dev).sectors(),
                old(self).start_lba as int,
                old(self).sectors_per_fat as int,
            ),
            ({
                let b0 = old(self).fat_bytes(old(dev).sectors());
                let b1 = final(self).fat_bytes(final(dev).sectors());
                let cap = 1024 * (old(self).sectors_per_fat as int) / 3;
                match r {
                    Some(c) => {
                        &&& 2 <= c < cap
                        &&& fat_entry(b0, c as int) == 0
                        &&& forall|m: int| 2 <= m < c ==> fat_entry(b0, m) != 0
                        &&& fat_entry(b1, c as int) == 0xFFF
                        &&& forall|m: int|
                            entry_in_range(m, b0.len() as int) && m != c ==> fat_entry(b1, m)
                                == fat_entry(b0, m)
                    },
                    None => {
                        &&& b1 == b0
                        &&& forall|m: int| 2 <= m < cap ==> fat_entry(b0, m) != 0
                    },
                }
            }),
    {
        let ghost b = old(self).fat_bytes(old(dev).sectors());
        let cap: usize = (self.sectors_per_fat as usize) * 512 * 2 / 3;
        proof {
            assert((self.sectors_per_fat as int) * 512 * 2 == 1024 * (
            self.sectors_per_fat as int));
            lemma_fundamental_div_mod(1024 * (self.sectors_per_fat as int), 3);
        }
        if cap <= 2 {
            return None;
        }
        let mut n: u16 = 2;
        while (n as usize) < cap
            invariant
                self.inv(dev.sectors()),
                self.start_lba == old(self).start_lba,
                self.sectors_per_fat == old(self).sectors_per_fat,
                self.fat_bytes(dev.sectors()) == b,
                b == old(self).fat_bytes(old(dev).sectors()),
                cap == 1024 * (old(self).sectors_per_fat as int) / 3,
                3 * cap <= 1024 * (old(self).sectors_per_fat as int),
                cap <= 65535,
                2 <= n,
                n as int <= cap as int,
                forall|m: int| 2 <= m < n ==> fat_entry(b, m) != 0,
                eq_outside_region(
                    old(dev).sectors(),
                    dev.sectors(),
                    old(self).start_lba as int,
                    old(self).sectors_per_fat as int,
                ),
            decreases cap - n,
        {
            proof {
                assert(3 * (n as int) + 2 < 1024 * (self.sectors_per_fat as int));
            }
            let e = self.read_entry(dev, n);
            if e == 0 {
                self.write_entry(dev, n, 0xFFF);
                proof {
                    assert(eq_outside_region(
                        old(dev).sectors(),
                        dev.sectors(),
                        old(self).start_lba as int,
                        old(self).sectors_per_fat as int,
                    ));
                    let b1 = self.fat_bytes(dev.sectors());
                    assert(2 <= n < 1024 * (old(self).sectors_per_fat as int) / 3);
                    assert(fat_entry(b, n as int) == 0);
                    assert(forall|m: int| 2 <= m < n ==> fat_entry(b, m) != 0);
                    assert(fat_entry(b1, n as int) == 0xFFF);
                    assert(forall|m: int|
                        entry_in_range(m, b.len() as int) && m != n ==> fat_entry(b1, m)
                            == fat_entry(b, m));
                }
                return Some(n);
            }
            n = n + 1;
        }
        None
    }

    /// Collect the cluster chain that starts at `start`, in walk order,
    /// ending with the end-of-chain cluster.
    pub fn get_chain<D: BlockDevice>(&mut self, dev: &mut D, start: u16) -> (chain: Vec<u16>)
        requires
            old(self).inv(old(dev).sectors()),
            entry_in_range(start as int, 512 * old(self).sectors_per_fat as int),
        ensures
            final(self).inv(final(dev).sectors()),
            final(self).start_lba == old(self).start_lba,
            final(self).sectors_per_fat == old(self).sectors_per_fat,
            final(self).cache_dirty ==> old(self).cache_dirty,
            final(self).fat_bytes(final(dev).sectors()) == old(self).fat_bytes(
                old(dev).sectors(),
            ),
            eq_outside_region(
                old(dev).sectors(),
                final(dev).sectors(),
                old(self).start_lba as int,
                old(self).sectors_per_fat as int,
            ),
            old(self).cache_dirty == false ==> final(dev).sectors() == old(dev).sectors()
                && final(self).cache_dirty == false,
            chain@ == spec_chain(
                old(self).fat_bytes(old(dev).sectors()),
                start,
                (1024 * (old(self).sectors_per_fat as int) / 3) as nat,
            ),
    {
        let ghost b = old(self).fat_bytes(old(dev).sectors());
        let cap: usize = (self.sectors_per_fat as usize) * 512 * 2 / 3;
        proof {
            assert((self.sectors_per_fat as int) * 512 * 2 == 1024 * (
            self.sectors_per_fat as int));
        }
        let ghost fuel_all = cap as nat;
        let mut chain: Vec<u16> = Vec::new();
        let mut cur = start;
        let mut steps: usize = 0;
        loop
            invariant_except_break
                steps <= cap,
                entry_in_range(cur as int, 512 * old(self).sectors_per_fat as int),
                spec_chain(b, start, fuel_all) == chain@ + spec_chain(
                    b,
                    cur,
                    (cap - steps) as nat,
                ),
            invariant
                self.inv(dev.sectors()),
                self.start_lba == old(self).start_lba,
                self.sectors_per_fat == old(self).sectors_per_fat,
                self.cache_dirty ==> old(self).cache_dirty,
                self.fat_bytes(dev.sectors()) == b,
                old(self).cache_dirty == false ==> dev.sectors() == old(dev).sectors()
                    && self.cache_dirty == false,
                eq_outside_region(
                    old(dev).sectors(),
                    dev.sectors(),
                    old(self).start_lba as int,
                    old(self).sectors_per_fat as int,
                ),
                cap == 1024 * (old(self).sectors_per_fat as int) / 3,
                3 * cap <= 1024 * (old(self).sectors_per_fat as int),
            ensures
                chain@ == spec_chain(b, start, fuel_all),
            decreases cap - steps,
        {
            chain.push(cur);
            if steps >= cap {
                proof {
                    assert(spec_chain(b, cur, (cap - steps) as nat) =~= seq![cur]);
                    assert(chain@ =~= spec_chain(b, start, fuel_all));
                }
                break ;
            }
            let next = self.read_entry(dev, cur);
            let in_range = (next as usize) * 3 + 2 < (self.sectors_per_fat as usize) * 1024;
            if next >= 0xFF8 || next < 2 || !in_range {
                proof {
                    assert(spec_chain(b, cur, (cap - steps) as nat) =~= seq![cur]);
                    assert(chain@ =~= spec_chain(b, start, fuel_all));
                }
                break ;
            }
            proof {
                let f = (cap - steps) as nat;
                assert(spec_chain(b, cur, f) == seq![cur] + spec_chain(
                    b,
                    next,
                    (f - 1) as nat,
                ));
                assert(chain@ + spec_chain(b, next, (f - 1) as nat) =~= (chain@.drop_last()
                    + spec_chain(b, cur, f)));
            }
            cur = next;
            steps = steps + 1;
        }
        chain
    }

    /// Walk the chain from `cluster` and zero every entry it visits.
    /// Entries outside the chain keep their value; the visited ones read
    /// back as free.
    pub fn free_cluster<D: BlockDevice>(&mut self, dev: &mut D, cluster: u16)
        requires
            old(self).inv(old(dev).sectors()),
            entry_in_range(cluster as int, 512 * old(self).sectors_per_fat as int),
        ensures
            final(self).inv(final(dev).sectors()),
            final(self).start_lba == old(self).start_lba,
            final(self).sectors_per_fat == old(self).sectors_per_fat,
            eq_outside_region(
                old(dev).sectors(),
                final(dev).sectors(),
                old(self).start_lba as int,
                old(self).sectors_per_fat as int,
            ),
            ({
                let b0 = old(self).fat_bytes(old(dev).sectors());
                let b1 = final(self).fat_bytes(final(dev).sectors());
                let ch = spec_chain(
                    b0,
                    cluster,
                    (1024 * (old(self).sectors_per_fat as int) / 3) as nat,
                );
                &&& b1.len() == b0.len()
                &&& forall|m: int|
                    entry_in_range(m, b0.len() as int) ==> fat_entry(b1, m) == (
                    if chain_contains(ch, m) {
                        0
                    } else {
                        fat_entry(b0, m)
                    })
            }),
    {
        let ghost b0 = old(self).fat_bytes(old(dev).sectors());
        let chain = self.get_chain(dev, cluster);
        let ghost ch = chain@;
        proof {
            lemma_spec_chain_elems(
                b0,
                cluster,
                (1024 * (old(self).sectors_per_fat as int) / 3) as nat,
            );
        }
        let mut i: usize = 0;
        while i < chain.len()
            invariant
                self.inv(dev.sectors()),
                self.start_lba == old(self).start_lba,
                self.sectors_per_fat == old(self).sectors_per_fat,
                chain@ == ch,
                i <= ch.len(),
                forall|k: int|
                    0 <= k < ch.len() ==> entry_in_range(
                        #[trigger] ch[k] as int,
                        b0.len() as int,
                    ),
                self.fat_bytes(dev.sectors()).len() == b0.len(),
                forall|m: int|
                    entry_in_range(m, b0.len() as int) ==> fat_entry(
                        self.fat_bytes(dev.sectors()),
                        m,
                    ) == (if chain_contains(ch.subrange(0, i as int), m) {
                        0
                    } else {
                        fat_entry(b0, m)
                    }),
                eq_outside_region(
                    old(dev).sectors(),
                    dev.sectors(),
                    old(self).start_lba as int,
                    old(self).sectors_per_fat as int,
                ),
            decreases chain@.len() - i,
        {
            let c = chain[i];
            let ghost bmid = self.fat_bytes(dev.sectors());
            self.write_entry(dev, c, 0);
            proof {
                let bnew = self.fat_bytes(dev.sectors());
                assert(ch.subrange(0, i + 1) =~= ch.subrange(0, i as int).push(c));
                assert forall|m: int| entry_in_range(m, b0.len() as int) implies fat_entry(
                    bnew,
                    m,
                ) == (if chain_contains(ch.subrange(0, i + 1), m) {
                    0
                } else {
                    fat_entry(b0, m)
                }) by {
                    if m == c {
                        assert(ch.subrange(0, i + 1)[i as int] == c);
                        assert(chain_contains(ch.subrange(0, i + 1), m));
                    } else {
                        assert(fat_entry(bnew, m) == fat_entry(bmid, m));
                        assert(chain_contains(ch.subrange(0, i + 1), m) == chain_contains(
                            ch.subrange(0, i as int),
                            m,
                        ));
                    }
                }
            }
            i = i + 1;
        }
        proof {
            assert(ch.subrange(0, ch.len() as int) =~= ch);
        }
    }

    /// Fill `out` with the chain that starts at `start`, stopping early
    /// when `out` is full, and report how many slots were written.
    pub fn get_chain_nonalloc<D: BlockDevice>(
        &mut self,
        dev: &mut D,
        start: u16,
        out: &mut Vec<u16>,
    ) -> (r: usize)
        requires
            old(self).inv(old(dev).sectors()),
            entry_in_range(start as int, 512 * old(self).sectors_per_fat as int),
        ensures
            final(self).inv(final(dev).sectors()),
            final(self).start_lba == old(self).start_lba,
            final(self).sectors_per_fat == old(self).sectors_per_fat,
            final(self).fat_bytes(final(dev).sectors()) == old(self).fat_bytes(
                old(dev).sectors(),
            ),
            eq_outside_region(
                old(dev).sectors(),
                final(dev).sectors(),
                old(self).start_lba as int,
                old(self).sectors_per_fat as int,
            ),
            old(self).cache_dirty == false ==> final(dev).sectors() == old(dev).sectors()
                && final(self).cache_dirty == false,
            final(out)@.len() == old(out)@.len(),
            ({
                let ch = spec_chain(
                    old(self).fat_bytes(old(dev).sectors()),
                    start,
                    (1024 * (old(self).sectors_per_fat as int) / 3) as nat,
                );
                &&& r == (if ch.len() <= old(out)@.len() {
                    ch.len() as int
                } else {
                    old(out)@.len() as int
                })
                &&& forall|k: int| 0 <= k < r ==> final(out)@[k] == ch[k]
                &&& forall|k: int| r <= k < old(out)@.len() ==> final(out)@[k] == old(out)@[k]
            }),
    {
        let chain = self.get_chain(dev, start);
        let mut idx: usize = 0;
        while idx < chain.len() && idx < out.len()
            invariant
                idx <= chain@.len(),
                idx <= out@.len(),
                out@.len() == old(out)@.len(),
                forall|k: int| 0 <= k < idx ==> out@[k] == chain@[k],
                forall|k: int| idx <= k < out@.len() ==> out@[k] == old(out)@[k],
            decreases chain@.len() - idx,
        {
            out[idx] = chain[idx];
            idx = idx + 1;
        }
        idx
    }
}


/// Law: writing the entry of cluster `n` and reading it back yields the
/// value masked to twelve bits, and the entries of the neighboring
/// clusters `n - 1` and `n + 1` — including the packed nibbles they share
/// with `n`'s bytes — are unchanged.  The hypotheses are exactly what
/// `write_entry` ensures, and `read_entry` returns `fat_entry` of the
/// resulting table.
pub proof fn lemma_write_then_read_entry(b0: Seq<u8>, b1: Seq<u8>, n: int, v: int)
    requires
        b0.len() == b1.len(),
        entry_in_range(n, b0.len() as int),
        fat_entry(b1, n) == v % 4096,
        forall|i: int|
            0 <= i < 2 * b0.len() && !(3 * n <= i <= 3 * n + 2) ==> fat_nibble(b1, i)
                == fat_nibble(b0, i),
    ensures
        fat_entry(b1, n) == v % 4096,
        entry_in_range(n - 1, b0.len() as int) ==> fat_entry(b1, n - 1) == fat_entry(b0, n - 1),
        entry_in_range(n + 1, b0.len() as int) ==> fat_entry(b1, n + 1) == fat_entry(b0, n + 1),
{
    if entry_in_range(n - 1, b0.len() as int) {
        lemma_entry_preserved(b0, b1, n, n - 1);
    }
    if entry_in_range(n + 1, b0.len() as int) {
        lemma_entry_preserved(b0, b1, n, n + 1);
    }
}

/// Law: a table whose entries link the clusters of `path` in order —
/// each one pointing at the next, the last marked end-of-chain — walks
/// back as exactly `path`.  This is the layout `write_file` leaves for a
/// fresh file, so the chain that reads and deletes follow is the list of
/// clusters that were allocated for it.
pub proof fn lemma_chain_of_links(b: Seq<u8>, path: Seq<u16>, fuel: nat)
    requires
        path.len() >= 1,
        fuel >= path.len() - 1,
        forall|k: int|
            0 <= k < path.len() ==> entry_in_range(#[trigger] path[k] as int, b.len() as int),
        forall|k: int|
            0 <= k < path.len() - 1 ==> fat_entry(b, #[trigger] path[k] as int) == path[k + 1],
        forall|k: int| 0 <= k < path.len() - 1 ==> 2 <= #[trigger] path[k + 1] < 0xFF8,
        fat_entry(b, path.last() as int) >= 0xFF8,
    ensures
        spec_chain(b, path[0], fuel) == path,
    decreases path.len(),
{
    if path.len() == 1 {
        assert(spec_chain(b, path[0], fuel) =~= path);
    } else {
        let tail = path.skip(1);
        assert(fat_entry(b, path[0] as int) == path[1]);
        assert(tail.last() == path.last());
        lemma_chain_of_links(b, tail, (fuel - 1) as nat);
        assert(spec_chain(b, path[0], fuel) == seq![path[0]] + spec_chain(
            b,
            path[1],
            (fuel - 1) as nat,
        ));
        assert(tail[0] == path[1]);
        assert(seq![path[0]] + tail =~= path);
    }
}

} // verus!
