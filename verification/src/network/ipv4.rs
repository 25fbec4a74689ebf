//! IPv4 header handling; parsing and building are unimplemented
//! placeholders.

use vstd::prelude::*;

verus! {

pub struct Ipv4Header {
    pub src: [u8; 4],
    pub dst: [u8; 4],
    pub proto: u8,
    pub header_len: u8,
    pub total_len: u16,
}

/// Parse an IPv4 header.  Not implemented: always `None`.
pub fn parse_ipv4_header(_buf: &[u8]) -> (r: Option<(Ipv4Header, &[u8])>)
    ensures
        r is None,
{
    None
}

/// Build an IPv4 packet around `payload`.  Not implemented: always
/// `None`.
pub fn build_ipv4_packet(
    _src: [u8; 4],
    _dst: [u8; 4],
    _proto: u8,
    _payload: &[u8],
    _out: &mut Vec<u8>,
) -> (r: Option<usize>)
    ensures
        r is None,
        final(_out)@ == old(_out)@,
{
    None
}

} // verus!
