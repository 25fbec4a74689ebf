//! ICMP handling; unimplemented placeholder.

use vstd::prelude::*;

use crate::network::ipv4::Ipv4Header;

verus! {

/// Handle an ICMP packet and optionally produce a reply payload.  Not
/// implemented: always `None`.
pub fn handle_icmp(_hdr: &Ipv4Header, _payload: &[u8]) -> (r: Option<Vec<u8>>)
    ensures
        r is None,
{
    None
}

} // verus!
