//! In-memory block devices for tests and host-side tooling.

use vstd::prelude::*;

use crate::fs::block_device::{sectors_wf, BlockDevice};
use crate::fs::bytes::{clone_bytes, zero_sector};

verus! {

/// A buffer-backed mock device: the flat byte buffer handed to `new` is
/// chopped into 512-byte sectors.
pub struct MockDevice {
    sectors: Vec<Vec<u8>>,
}

impl MockDevice {
    /// Build a device over `buf`, whose length must be a whole number of
    /// 512-byte sectors.
    pub fn new(buf: Vec<u8>) -> (d: MockDevice)
        requires
            buf@.len() % 512 == 0,
        ensures
            d.sectors().len() == buf@.len() / 512,
            sectors_wf(d.sectors()),
            forall|i: int, j: int|
                0 <= i < d.sectors().len() && 0 <= j < 512 ==> d.sectors()[i][j] == buf@[512 * i
                    + j],
    {
        let buf_len = buf.len();
        let n = buf_len / 512;
        let mut sectors: Vec<Vec<u8>> = Vec::new();
        let mut s: usize = 0;
        proof {
            assert(512 * (buf@.len() as int / 512) == buf@.len() as int) by {
                vstd::arithmetic::div_mod::lemma_fundamental_div_mod(buf@.len() as int, 512);
            }
        }
        while s < n
            invariant
                s <= n,
                n == buf@.len() / 512,
                512 * n == buf@.len(),
                buf@.len() <= usize::MAX,
                sectors@.len() == s,
                forall|i: int| 0 <= i < s ==> (#[trigger] sectors@[i])@.len() == 512,
                forall|i: int, j: int|
                    0 <= i < s && 0 <= j < 512 ==> sectors@[i]@[j] == buf@[512 * i + j],
            decreases n - s,
        {
            let mut sec: Vec<u8> = Vec::new();
            let mut j: usize = 0;
            while j < 512
                invariant
                    j <= 512,
                    s < n,
                    512 * n == buf@.len(),
                    buf@.len() <= usize::MAX,
                    sec@.len() == j,
                    forall|k: int| 0 <= k < j ==> sec@[k] == buf@[512 * s + k],
                decreases 512 - j,
            {
                proof {
                    assert(512 * s + j < 512 * n) by (nonlinear_arith)
                        requires
                            s < n,
                            j < 512,
                            0 <= s,
                            0 <= j,
                    ;
                }
                sec.push(buf[512 * s + j]);
                j = j + 1;
            }
            sectors.push(sec);
            s = s + 1;
        }
        MockDevice { sectors }
    }

    /// Number of 512-byte sectors held by this device.
    pub fn sector_count(&self) -> (n: u64)
        ensures
            n == self.sectors().len(),
    {
        self.sectors.len() as u64
    }
}

impl BlockDevice for MockDevice {
    closed spec fn sectors(&self) -> Seq<Seq<u8>> {
        self.sectors.deep_view()
    }

    fn read_sector(&self, lba: u64) -> (data: Vec<u8>) {
        // Calling len pins the sector count below usize::MAX, so the
        // index cast below is exact.
        let _n = self.sectors.len();
        let data = clone_bytes(&self.sectors[lba as usize]);
        proof {
            assert(self.sectors()[lba as int] == self.sectors@[lba as int].deep_view());
            assert(self.sectors@[lba as int].deep_view() =~= self.sectors@[lba as int]@);
            assert(data@ =~= self.sectors()[lba as int]);
        }
        data
    }

    fn write_sector(&mut self, lba: u64, data: &[u8]) {
        let _n = self.sectors.len();
        let mut sec: Vec<u8> = Vec::new();
        let mut j: usize = 0;
        while j < data.len()
            invariant
                j <= data@.len(),
                sec@.len() == j,
                forall|k: int| 0 <= k < j ==> sec@[k] == data@[k],
            decreases data@.len() - j,
        {
            sec.push(data[j]);
            j = j + 1;
        }
        proof {
            assert(sec@ =~= data@);
        }
        self.sectors[lba as usize] = sec;
        proof {
            assert forall|i: int| 0 <= i < self.sectors@.len() implies self.sectors()[i]
                == old(self).sectors().update(lba as int, data@)[i] by {
                assert(self.sectors()[i] == self.sectors@[i].deep_view());
                assert(self.sectors@[i].deep_view() =~= self.sectors@[i]@);
                if i != lba as int {
                    assert(old(self).sectors()[i] =~= old(self).sectors@[i]@);
                }
            }
            assert(self.sectors() =~= old(self).sectors().update(lba as int, data@));
        }
    }

    fn sector_count(&self) -> (n: u64) {
        self.sectors.len() as u64
    }
}

/// An owned fixed-size mock device with the geometry of a 1.44MB floppy
/// image: 2880 sectors of 512 bytes, initially all zero.
pub struct MockDeviceFixed {
    sectors: Vec<Vec<u8>>,
}

impl MockDeviceFixed {
    pub fn new() -> (d: MockDeviceFixed)
        ensures
            d.sectors().len() == 2880,
            sectors_wf(d.sectors()),
            forall|i: int, j: int|
                0 <= i < 2880 && 0 <= j < 512 ==> d.sectors()[i][j] == 0u8,
    {
        let mut sectors: Vec<Vec<u8>> = Vec::new();
        let mut s: usize = 0;
        while s < 2880
            invariant
                s <= 2880,
                sectors@.len() == s,
                forall|i: int| 0 <= i < s ==> (#[trigger] sectors@[i])@.len() == 512,
                forall|i: int, j: int| 0 <= i < s && 0 <= j < 512 ==> sectors@[i]@[j] == 0u8,
            decreases 2880 - s,
        {
            sectors.push(zero_sector());
            s = s + 1;
        }
        MockDeviceFixed { sectors }
    }
}

impl BlockDevice for MockDeviceFixed {
    closed spec fn sectors(&self) -> Seq<Seq<u8>> {
        self.sectors.deep_view()
    }

    fn read_sector(&self, lba: u64) -> (data: Vec<u8>) {
        // Calling len pins the sector count below usize::MAX, so the
        // index cast below is exact.
        let _n = self.sectors.len();
        let data = clone_bytes(&self.sectors[lba as usize]);
        proof {
            assert(data@ =~= self.sectors()[lba as int]);
        }
        data
    }

    fn write_sector(&mut self, lba: u64, data: &[u8]) {
        let _n = self.sectors.len();
        let mut sec: Vec<u8> = Vec::new();
        let mut j: usize = 0;
        while j < data.len()
            invariant
                j <= data@.len(),
                sec@.len() == j,
                forall|k: int| 0 <= k < j ==> sec@[k] == data@[k],
            decreases data@.len() - j,
        {
            sec.push(data[j]);
            j = j + 1;
        }
        proof {
            assert(sec@ =~= data@);
        }
        self.sectors[lba as usize] = sec;
        proof {
            assert(self.sectors() =~~= old(self).sectors().update(lba as int, data@));
        }
    }

    fn sector_count(&self) -> (n: u64) {
        self.sectors.len() as u64
    }
}

} // verus!
