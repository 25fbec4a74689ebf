//! The sector-granular device contract that the FAT modules consume.

use vstd::prelude::*;

verus! {

/// Every sector of the device holds exactly 512 bytes.
pub open spec fn sectors_wf(s: Seq<Seq<u8>>) -> bool {
    forall|i: int| 0 <= i < s.len() ==> (#[trigger] s[i]).len() == 512
}

/// Minimal block-device trait used by the FAT modules.
///
/// A device is modelled as a sequence of sectors, each a sequence of 512
/// bytes; `sectors` is that abstraction, and the three operations are
/// specified against it.
pub trait BlockDevice: Sized {
    /// The current contents of the device, one inner sequence per sector.
    spec fn sectors(&self) -> Seq<Seq<u8>>;

    /// Read exactly 512 bytes from the sector at `lba`.
    fn read_sector(&self, lba: u64) -> (data: Vec<u8>)
        requires
            sectors_wf(self.sectors()),
            lba < self.sectors().len(),
        ensures
            data@ == self.sectors()[lba as int],
            data@.len() == 512,
    ;

    /// Write exactly 512 bytes from `data` into the sector at `lba`.
    fn write_sector(&mut self, lba: u64, data: &[u8])
        requires
            lba < old(self).sectors().len(),
            data@.len() == 512,
        ensures
            final(self).sectors() == old(self).sectors().update(lba as int, data@),
    ;

    /// Number of 512-byte sectors on this device.
    fn sector_count(&self) -> (n: u64)
        ensures
            n == self.sectors().len(),
    ;
}

} // verus!
