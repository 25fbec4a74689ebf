//! The device-to-stack interface.

use vstd::prelude::*;

verus! {

pub type MacAddr = [u8; 6];

#[derive(Clone, Copy, Debug, PartialEq, Eq, Structural)]
pub enum NetError {
    WouldBlock,
    DeviceFailure,
    BufferTooSmall,
    Unsupported,
}

/// A network device as the stack consumes it: transmit and receive whole
/// frames, report the hardware address and the MTU, and accept interrupt
/// notifications.
pub trait NetworkDevice: Sized {
    /// Transmit a frame (copy-based).
    fn transmit(&mut self, frame: &[u8]) -> Result<(), NetError>;

    /// Try to receive a frame into the provided buffer; the result is the
    /// number of bytes written.
    fn receive(&mut self, buf: &mut Vec<u8>) -> Result<usize, NetError>;

    /// The device MAC address.
    fn mac_addr(&self) -> MacAddr;

    /// The MTU in bytes.
    fn mtu(&self) -> usize;

    /// Called to notify the driver of new receive or transmit events.
    fn handle_interrupt(&mut self);
}

} // verus!
