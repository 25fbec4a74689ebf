//! UDP socket skeleton.

use vstd::prelude::*;

use crate::network::arp::ArpCache;
use crate::network::device::{NetError, NetworkDevice};

verus! {

/// A UDP socket bound to a local port, with a queue of received
/// datagrams.
pub struct UdpSocket {
    pub bound_port: u16,
    pub recv_queue: Vec<Vec<u8>>,
}

impl UdpSocket {
    /// Bind a socket to `port` with an empty receive queue.
    pub fn bind(port: u16) -> (s: UdpSocket)
        ensures
            s.bound_port == port,
            s.recv_queue@ == Seq::<Vec<u8>>::empty(),
    {
        UdpSocket { bound_port: port, recv_queue: Vec::new() }
    }

    /// Send a datagram to `dst_ip:dst_port`.  Not implemented: reports
    /// `WouldBlock` without touching the socket, device or cache.
    pub fn send_to<D: NetworkDevice>(
        &mut self,
        _dst_ip: [u8; 4],
        _dst_port: u16,
        _data: &[u8],
        _device: &mut D,
        _arp: &mut ArpCache,
    ) -> (r: Result<(), NetError>)
        ensures
            r == Err::<(), NetError>(NetError::WouldBlock),
            *final(self) == *old(self),
    {
        Err(NetError::WouldBlock)
    }

    /// Receive the next queued datagram.  Not implemented: always `None`
    /// and the socket is unchanged.
    pub fn recv_from(&mut self) -> (r: Option<(Vec<u8>, ([u8; 4], u16))>)
        ensures
            r is None,
            *final(self) == *old(self),
    {
        None
    }
}

} // verus!
