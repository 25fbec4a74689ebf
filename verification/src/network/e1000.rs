//! Placeholder driver for an e1000-style adapter: the hardware paths are
//! not implemented, so transmit and receive always report `WouldBlock`.

use vstd::prelude::*;

use crate::network::device::{MacAddr, NetError, NetworkDevice};

verus! {

pub struct E1000 {
    pub mmio_base: usize,
    pub mac: MacAddr,
}

impl E1000 {
    pub fn new(mmio_base: usize) -> (d: E1000)
        ensures
            d.mmio_base == mmio_base,
            d.mac@ == Seq::new(6, |i: int| 0u8),
    {
        let d = E1000 { mmio_base, mac: [0u8; 6] };
        proof {
            assert(d.mac@ =~= Seq::new(6, |i: int| 0u8));
        }
        d
    }

    /// Initialize hardware.  Not implemented: reports success without
    /// touching anything.
    pub fn init(&mut self) -> (r: Result<(), NetError>)
        ensures
            r == Ok::<(), NetError>(()),
            *final(self) == *old(self),
    {
        Ok(())
    }

    /// Called by the IRQ wrapper.  Not implemented: does nothing.
    pub fn interrupt_handler(&mut self)
        ensures
            *final(self) == *old(self),
    {
    }
}

impl NetworkDevice for E1000 {
    fn transmit(&mut self, _frame: &[u8]) -> Result<(), NetError> {
        Err(NetError::WouldBlock)
    }

    fn receive(&mut self, _buf: &mut Vec<u8>) -> Result<usize, NetError> {
        Err(NetError::WouldBlock)
    }

    fn mac_addr(&self) -> MacAddr {
        self.mac
    }

    fn mtu(&self) -> usize {
        1500
    }

    fn handle_interrupt(&mut self) {
        self.interrupt_handler();
    }
}

} // verus!
