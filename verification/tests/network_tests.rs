use rz_rust_os::network::arp::{
    build_arp_reply, format_ip, handle_arp_packet, hex_mac, parse_arp_packet, ArpCache, ArpOp,
};
use rz_rust_os::network::buf::PacketBuf;
use rz_rust_os::network::checksums::{ipv4_checksum, udp_checksum};
use rz_rust_os::network::device::{MacAddr, NetError, NetworkDevice};
use rz_rust_os::network::e1000::E1000;
use rz_rust_os::network::ethernet::{build_eth_frame, parse_eth_header, ETHERTYPE_IPV4};
use rz_rust_os::network::icmp::handle_icmp;
use rz_rust_os::network::ipv4::{parse_ipv4_header, Ipv4Header};
use rz_rust_os::network::udp::UdpSocket;

struct Dummy;

impl NetworkDevice for Dummy {
    fn transmit(&mut self, _frame: &[u8]) -> Result<(), NetError> {
        Ok(())
    }
    fn receive(&mut self, _buf: &mut Vec<u8>) -> Result<usize, NetError> {
        Err(NetError::WouldBlock)
    }
    fn mac_addr(&self) -> MacAddr {
        [0u8; 6]
    }
    fn mtu(&self) -> usize {
        1500
    }
    fn handle_interrupt(&mut self) {}
}

#[test]
fn packetbuf_basic() {
    let mut p = PacketBuf::with_capacity(128);
    p.push_bytes(&[1, 2, 3]);
    assert_eq!(p.len(), 3);
}

#[test]
fn checksum_types() {
    let _ = ipv4_checksum(&[0u8; 20]);
    let _ = udp_checksum([0, 0, 0, 0], [0, 0, 0, 0], &[]);
}

#[test]
fn trait_shape_compile() {
    let mut d = Dummy;
    let buf = [0u8; 64];
    let mut rbuf: Vec<u8> = Vec::new();
    let _ = d.transmit(&buf);
    let _ = d.receive(&mut rbuf);
    assert_eq!(d.mtu(), 1500);
}

#[test]
fn construct_e1000() {
    let d = E1000::new(0xfee0_0000);
    assert_eq!(d.mtu(), 1500);
}

#[test]
fn compile_parse() {
    let b = [0u8; 64];
    let _ = parse_eth_header(&b);
}

#[test]
fn ethernet_compile_parse() {
    let b = [0u8; 64];
    let _ = parse_eth_header(&b);
}

#[test]
fn build_and_parse_roundtrip() {
    let dst = [1u8, 2, 3, 4, 5, 6];
    let src = [10u8, 11, 12, 13, 14, 15];
    let ethertype = ETHERTYPE_IPV4;
    let payload = [0x45u8, 0, 0x00, 0x54];
    let mut out = vec![0u8; 128];
    let len = build_eth_frame(dst, src, ethertype, &payload, &mut out).expect("build failed");
    let (hdr, pl) = parse_eth_header(&out[..len]).expect("parse failed");
    assert_eq!(hdr.dst, dst);
    assert_eq!(hdr.src, src);
    assert_eq!(hdr.ethertype, ethertype);
    assert_eq!(pl, &payload);
}

#[test]
fn icmp_compile() {
    let hdr = Ipv4Header {
        src: [0, 0, 0, 0],
        dst: [0, 0, 0, 0],
        proto: 1,
        header_len: 5,
        total_len: 20,
    };
    let _ = handle_icmp(&hdr, &[]);
}

#[test]
fn ipv4_compile() {
    let b = [0u8; 64];
    let _ = parse_ipv4_header(&b);
}

#[test]
fn arp_cache_basic() {
    let mut c = ArpCache::new();
    assert!(c.lookup([0, 0, 0, 0]).is_none());
    c.insert([1, 2, 3, 4], [5, 6, 7, 8, 9, 10]);
    assert_eq!(c.lookup([1, 2, 3, 4]).unwrap(), [5, 6, 7, 8, 9, 10]);
}

#[test]
fn parse_and_build() {
    let mut req = vec![];
    req.extend_from_slice(&1u16.to_be_bytes());
    req.extend_from_slice(&0x0800u16.to_be_bytes());
    req.push(6);
    req.push(4);
    req.extend_from_slice(&1u16.to_be_bytes());
    let sender_mac = [1u8, 2, 3, 4, 5, 6];
    let sender_ip = [10u8, 0, 0, 1];
    let target_mac = [0u8; 6];
    let target_ip = [10u8, 0, 0, 2];
    req.extend_from_slice(&sender_mac);
    req.extend_from_slice(&sender_ip);
    req.extend_from_slice(&target_mac);
    req.extend_from_slice(&target_ip);
    let pkt = parse_arp_packet(&req).expect("parse");
    assert_eq!(pkt.sender_ip, sender_ip);
    let reply = build_arp_reply(&pkt, [9u8, 9, 9, 9, 9, 9], [10u8, 0, 0, 2]);
    let parsed = parse_arp_packet(&reply).expect("parse reply");
    assert_eq!(parsed.opcode, ArpOp::Reply.as_u16());
    assert_eq!(parsed.sender_ip, [10u8, 0, 0, 2]);
    assert_eq!(parsed.target_ip, sender_ip);
}

#[test]
fn stack_init_compile() {
    let mut dev = Dummy;
    rz_rust_os::network::init(&mut dev);
    rz_rust_os::network::poll();
}

#[test]
fn mod_stack_init_compile() {
    let mut dev = Dummy;
    rz_rust_os::network::init(&mut dev);
    rz_rust_os::network::poll();
}

#[test]
fn e1000_construct() {
    let mut d = E1000::new(0);
    let _ = d.init();
}

#[test]
fn mod_e1000_construct() {
    let mut d = E1000::new(0);
    let _ = d.init();
}

#[test]
fn udp_bind() {
    let s = UdpSocket::bind(1234);
    assert_eq!(s.bound_port, 1234);
}

#[test]
fn arp_cache_update_and_remove() {
    let mut c = ArpCache::new();
    c.insert([1, 2, 3, 4], [5, 6, 7, 8, 9, 10]);
    c.insert([1, 2, 3, 4], [6, 6, 6, 6, 6, 6]);
    assert_eq!(c.lookup([1, 2, 3, 4]).unwrap(), [6, 6, 6, 6, 6, 6]);
    c.insert([9, 9, 9, 9], [1, 1, 1, 1, 1, 1]);
    c.remove([1, 2, 3, 4]);
    assert!(c.lookup([1, 2, 3, 4]).is_none());
    assert_eq!(c.lookup([9, 9, 9, 9]).unwrap(), [1, 1, 1, 1, 1, 1]);
}

#[test]
fn arp_cache_eviction_keeps_capacity() {
    let mut c = ArpCache::new();
    for i in 0..20u8 {
        c.insert([i, 0, 0, 1], [i, 0, 0, 0, 0, 1]);
    }
    // The most recent mapping always answers.
    assert_eq!(c.lookup([19, 0, 0, 1]).unwrap(), [19, 0, 0, 0, 0, 1]);
}

#[test]
fn handle_arp_request_builds_reply() {
    let mut frame = vec![0u8; 42];
    // Ethernet: broadcast dst, requester src, ARP ethertype.
    for b in frame.iter_mut().take(6) {
        *b = 0xFF;
    }
    frame[6..12].copy_from_slice(&[1, 2, 3, 4, 5, 6]);
    frame[12] = 0x08;
    frame[13] = 0x06;
    // ARP request for 10.0.0.2 from 10.0.0.1.
    frame[14..22].copy_from_slice(&[0, 1, 8, 0, 6, 4, 0, 1]);
    frame[22..28].copy_from_slice(&[1, 2, 3, 4, 5, 6]);
    frame[28..32].copy_from_slice(&[10, 0, 0, 1]);
    frame[38..42].copy_from_slice(&[10, 0, 0, 2]);
    let my_ip = [10u8, 0, 0, 2];
    let my_mac = [9u8, 8, 7, 6, 5, 4];
    let reply = handle_arp_packet(&frame, Some(my_ip), Some(my_mac)).expect("reply");
    assert_eq!(reply.len(), 42);
    assert_eq!(&reply[0..6], &[1, 2, 3, 4, 5, 6]);
    assert_eq!(&reply[6..12], &my_mac);
    assert_eq!(&reply[12..14], &[0x08, 0x06]);
    assert_eq!(&reply[20..22], &[0, 2]);
    assert_eq!(&reply[22..28], &my_mac);
    assert_eq!(&reply[28..32], &my_ip);
    assert_eq!(&reply[32..38], &[1, 2, 3, 4, 5, 6]);
    assert_eq!(&reply[38..42], &[10, 0, 0, 1]);
    // A reply opcode is ignored.
    frame[21] = 2;
    assert!(handle_arp_packet(&frame, Some(my_ip), Some(my_mac)).is_none());
    // A request for someone else is ignored.
    frame[21] = 1;
    frame[41] = 77;
    assert!(handle_arp_packet(&frame, Some(my_ip), Some(my_mac)).is_none());
}

#[test]
fn hex_mac_formats() {
    let s = hex_mac(&[0x00, 0x1A, 0xFF, 0x09, 0x80, 0x7C]);
    assert_eq!(s, "00:1a:ff:09:80:7c");
}

#[test]
fn format_ip_formats() {
    assert_eq!(format_ip(&[10, 0, 0, 1]), "10.0.0.1");
    assert_eq!(format_ip(&[255, 100, 9, 0]), "255.100.9.0");
}

#[test]
fn eth_build_too_small() {
    let mut out = vec![0u8; 10];
    assert!(build_eth_frame([0; 6], [0; 6], 0, &[1, 2, 3], &mut out).is_none());
}

#[test]
fn arp_parse_too_short() {
    assert!(parse_arp_packet(&[0u8; 27]).is_none());
}
