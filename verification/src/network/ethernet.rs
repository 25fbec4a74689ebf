//! Ethernet frame header parsing and serialization.

use vstd::prelude::*;

verus! {

pub const ETH_HEADER_LEN: usize = 14;

pub const ETHERTYPE_IPV4: u16 = 0x0800;

pub const ETHERTYPE_ARP: u16 = 0x0806;

/// The value of a big-endian 16-bit word with bytes `hi`, `lo`.
pub open spec fn be16(hi: u8, lo: u8) -> int {
    256 * hi + lo
}

pub struct EthHeader {
    pub dst: [u8; 6],
    pub src: [u8; 6],
    pub ethertype: u16,
}

/// Parse an Ethernet header; the rest of the buffer is the payload.
pub fn parse_eth_header(buf: &[u8]) -> (r: Option<(EthHeader, &[u8])>)
    ensures
        buf@.len() < 14 ==> r is None,
        buf@.len() >= 14 ==> (r matches Some(p) && p.0.dst@ == buf@.subrange(0, 6) && p.0.src@
            == buf@.subrange(6, 12) && p.0.ethertype == be16(buf@[12], buf@[13]) && p.1@
            == buf@.subrange(14, buf@.len() as int)),
{
    if buf.len() < ETH_HEADER_LEN {
        return None;
    }
    let mut dst = [0u8; 6];
    let mut src = [0u8; 6];
    let mut k: usize = 0;
    while k < 6
        invariant
            k <= 6,
            buf@.len() >= 14,
            forall|j: int| 0 <= j < k ==> dst@[j] == buf@[j],
            forall|j: int| 0 <= j < k ==> src@[j] == buf@[6 + j],
        decreases 6 - k,
    {
        dst[k] = buf[k];
        src[k] = buf[6 + k];
        k = k + 1;
    }
    let ethertype: u16 = 256 * (buf[12] as u16) + buf[13] as u16;
    let payload: &[u8] = &buf[14..buf.len()];
    proof {
        assert(dst@ =~= buf@.subrange(0, 6));
        assert(src@ =~= buf@.subrange(6, 12));
    }
    Some((EthHeader { dst, src, ethertype }, payload))
}

/// Serialize a header plus payload into `out`; the result is the frame
/// length, or `None` when `out` is too small.  Bytes of `out` beyond the
/// frame keep their values.
pub fn build_eth_frame(
    dst: [u8; 6],
    src: [u8; 6],
    ethertype: u16,
    payload: &[u8],
    out: &mut Vec<u8>,
) -> (r: Option<usize>)
    ensures
        old(out)@.len() < 14 + payload@.len() ==> r is None && final(out)@ == old(out)@,
        old(out)@.len() >= 14 + payload@.len() ==> (r matches Some(nn) && nn == 14
            + payload@.len()
            && final(out)@.len() == old(out)@.len() && (forall|j: int|
            0 <= j < 6 ==> final(out)@[j] == dst@[j]) && (forall|j: int|
            0 <= j < 6 ==> final(out)@[6 + j] == src@[j]) && final(out)@[12] == (ethertype
            / 256) as u8 && final(out)@[13] == (ethertype % 256) as u8 && (forall|j: int|
            0 <= j < payload@.len() ==> final(out)@[14 + j] == payload@[j]) && (forall|j: int|
            14 + payload@.len() <= j < old(out)@.len() ==> final(out)@[j] == old(out)@[j])),
{
    if out.len() < 14 || out.len() - 14 < payload.len() {
        return None;
    }
    let needed = ETH_HEADER_LEN + payload.len();
    let mut k: usize = 0;
    while k < 6
        invariant
            k <= 6,
            out@.len() == old(out)@.len(),
            out@.len() >= 14 + payload@.len(),
            forall|j: int| 0 <= j < k ==> out@[j] == dst@[j],
            forall|j: int| 0 <= j < k ==> out@[6 + j] == src@[j],
            forall|j: int| k <= j < 6 ==> #[trigger] out@[j] == old(out)@[j],
            forall|j: int| k <= j < 6 ==> #[trigger] out@[6 + j] == old(out)@[6 + j],
            forall|j: int| 12 <= j < out@.len() ==> out@[j] == old(out)@[j],
        decreases 6 - k,
    {
        out[k] = dst[k];
        out[6 + k] = src[k];
        k = k + 1;
    }
    out[12] = (ethertype / 256) as u8;
    out[13] = (ethertype % 256) as u8;
    let mut j: usize = 0;
    while j < payload.len()
        invariant
            j <= payload@.len(),
            out@.len() == old(out)@.len(),
            out@.len() >= 14 + payload@.len(),
            out@.len() <= usize::MAX,
            forall|q: int| 0 <= q < 6 ==> out@[q] == dst@[q] && out@[6 + q] == src@[q],
            out@[12] == (ethertype / 256) as u8,
            out@[13] == (ethertype % 256) as u8,
            forall|q: int| 0 <= q < j ==> out@[14 + q] == payload@[q],
            forall|q: int| 14 + j <= q < out@.len() ==> out@[q] == old(out)@[q],
        decreases payload@.len() - j,
    {
        out[14 + j] = payload[j];
        j = j + 1;
    }
    Some(needed)
}

} // verus!
