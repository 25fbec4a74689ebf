//! Skeleton of the network stack: device contract, driver stub, frame
//! parsing and the ARP cache.

pub mod arp;
pub mod buf;
pub mod checksums;
pub mod device;
pub mod e1000;
pub mod ethernet;
pub mod icmp;
pub mod ipv4;
pub mod udp;

use vstd::prelude::*;

use crate::network::device::NetworkDevice;

verus! {

/// Initialize the network stack with a device; nothing is wired up yet.
pub fn init<D: NetworkDevice>(_device: &mut D) {
}

/// Run periodic background work; nothing is scheduled yet.
pub fn poll() {
}

} // verus!
