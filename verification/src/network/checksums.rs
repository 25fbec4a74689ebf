//! Internet checksums; both are unimplemented placeholders that yield 0.

use vstd::prelude::*;

verus! {

/// Compute an IPv4 header checksum.  Not implemented: always 0.
pub fn ipv4_checksum(_header: &[u8]) -> (r: u16)
    ensures
        r == 0,
{
    0
}

/// Compute a UDP checksum over the pseudo-header and payload.  Not
/// implemented: always 0.
pub fn udp_checksum(_src: [u8; 4], _dst: [u8; 4], _udp: &[u8]) -> (r: u16)
    ensures
        r == 0,
{
    0
}

} // verus!
