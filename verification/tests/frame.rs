use presto_pasta::addr::{IpAddr, Ipv4Addr, Ipv6Addr, SocketAddr};
use presto_pasta::buf::{BUF_SIZE, HEADROOM};
use presto_pasta::flow::{FlowKey, FlowKind};
use presto_pasta::frame::{
    unreachable_codes, GuestFrame, Link, TcpOptions, TcpSegment, ECONNREFUSED, EHOSTUNREACH,
    ENETUNREACH,
};
use presto_pasta::proto::tcp::TcpHdr;
use presto_pasta::proto::{
    checksum, pseudo_v4, pseudo_v6, EchoHdr, EthHdr, Ipv4Hdr, Ipv6Hdr, UdpHdr, TCP_ACK, TCP_SYN,
};
use presto_pasta::tap::VnetHdr;

fn link() -> Link {
    Link {
        guest4: Ipv4Addr::new(169, 254, 1, 2),
        guest6: Ipv6Addr::new(0xfd00, 0, 0, 0, 0, 0, 0, 2),
        guest_mac: [2; 6],
        gateway_mac: [4; 6],
    }
}

fn key(proto: u8, ip: IpAddr, port: u16) -> FlowKey {
    FlowKey { proto, guest_port: 40000, dst: SocketAddr { ip, port } }
}

fn host4() -> Ipv4Addr {
    Ipv4Addr::new(192, 0, 2, 7)
}

fn host6() -> Ipv6Addr {
    Ipv6Addr::new(0x2001, 0xdb8, 0, 0, 0, 0, 0, 7)
}

fn buffer(payload: &[u8]) -> Vec<u8> {
    let mut b = vec![0u8; BUF_SIZE];
    b[HEADROOM..HEADROOM + payload.len()].copy_from_slice(payload);
    b
}

#[test]
fn guest_frames() {
    let mut f = vec![0u8; 24 + 20 + 12];
    EthHdr { dst: [4; 6], src: [2; 6], ethertype: 0x0800 }.write(&mut f[10..]);
    Ipv4Hdr::write(&mut f[24..], link().guest4, host4(), 17, 12);
    let g = GuestFrame::parse(&f).unwrap();
    assert_eq!(g.src_mac, [2; 6]);
    assert_eq!(g.src_ip, IpAddr::V4(link().guest4));
    assert_eq!(g.dst_ip, IpAddr::V4(host4()));
    assert_eq!(g.proto, 17);
    assert_eq!((g.l4_start, g.l4_end), (44, 56));
    // Ethernet padding is not payload; a cut frame ends where it ends.
    f.extend_from_slice(&[0; 9]);
    assert_eq!(GuestFrame::parse(&f).unwrap().l4_end, 56);
    assert_eq!(GuestFrame::parse(&f[..50]).unwrap().l4_end, 50);
    assert!(GuestFrame::parse(&f[..43]).is_none());
    assert!(GuestFrame::parse(&f[..23]).is_none());
    // Total length shorter than the header.
    f[26..28].copy_from_slice(&[0, 19]);
    assert!(GuestFrame::parse(&f).is_none());
    // ARP.
    f[22..24].copy_from_slice(&[8, 6]);
    assert!(GuestFrame::parse(&f).is_none());
}

#[test]
fn guest_frames_ipv6() {
    let mut f = vec![0u8; 24 + 40 + 5];
    EthHdr { dst: [4; 6], src: [2; 6], ethertype: 0x86dd }.write(&mut f[10..]);
    Ipv6Hdr::write(&mut f[24..], link().guest6, host6(), 58, 5);
    let g = GuestFrame::parse(&f).unwrap();
    assert_eq!(g.src_ip, IpAddr::V6(link().guest6));
    assert_eq!(g.dst_ip, IpAddr::V6(host6()));
    assert_eq!((g.proto, g.l4_start, g.l4_end), (58, 64, 69));
    assert!(GuestFrame::parse(&f[..63]).is_none());
}

#[test]
fn udp_reply() {
    let k = key(17, IpAddr::V4(host4()), 53);
    let mut b = buffer(b"answer");
    let start = link().write_reply(&mut b, &k, FlowKind::Udp, false, 6, None).unwrap();
    assert_eq!(start, HEADROOM - 8 - 20 - 14 - 10);
    let f = &b[start..HEADROOM + 6];
    assert_eq!(&f[..10], &[0u8; 10]);
    let eth = EthHdr::parse(&f[10..]).unwrap();
    assert_eq!((eth.dst, eth.src), ([2; 6], [4; 6]));
    let g = GuestFrame::parse(f).unwrap();
    assert_eq!(g.src_ip, IpAddr::V4(host4()));
    assert_eq!(g.dst_ip, IpAddr::V4(link().guest4));
    let l4 = &f[g.l4_start..g.l4_end];
    let udp = UdpHdr::parse(l4).unwrap();
    assert_eq!((udp.src_port, udp.dst_port, udp.len), (53, 40000, 14));
    assert_eq!(&l4[8..], b"answer");
    assert_eq!(checksum(l4, pseudo_v4(host4(), link().guest4, 17, 14)), 0);
}

#[test]
fn largest_datagrams() {
    for (ip, n) in [(IpAddr::V4(host4()), 65_507), (IpAddr::V6(host6()), 65_527)] {
        let k = key(17, ip, 53);
        let payload = vec![5u8; n];
        let mut b = buffer(&payload);
        let start = link().write_reply(&mut b, &k, FlowKind::Udp, false, n, None).unwrap();
        let f = &b[start..HEADROOM + n];
        let g = GuestFrame::parse(f).unwrap();
        let l4 = &f[g.l4_start..g.l4_end];
        assert_eq!(UdpHdr::parse(l4).unwrap().len as usize, n + 8);
        assert_eq!(&l4[8..], &payload[..]);
    }
}

#[test]
fn refusal_around_ip_options() {
    // A guest packet with the longest IPv4 header.
    let mut b = vec![0u8; BUF_SIZE];
    EthHdr { dst: [4; 6], src: [2; 6], ethertype: 0x0800 }.write(&mut b[10..]);
    Ipv4Hdr::write(&mut b[24..], link().guest4, host4(), 17, 49);
    b[24] = 0x4f;
    b[84..93].copy_from_slice(&[1, 2, 3, 4, 5, 6, 7, 8, 9]);
    assert_eq!(GuestFrame::parse(&b[..93]).unwrap().l4_start, 84);
    let guest = b[24..92].to_vec();
    let (start, end) = link().write_refusal(&mut b, IpAddr::V4(host4()), 84, None, (1, 3));
    assert_eq!((start, end - start), (HEADROOM - 44, 44 + 8 + 68));
    assert_eq!(&b[start + 52..end], &guest[..]);
    assert_eq!(&b[start + 44..start + 46], &[3, 1]);
    assert_eq!(checksum(&b[start + 44..end], 0), 0);
    // The first byte behind the header as the guest sent it.
    let (start, end) = link().write_refusal(&mut b, IpAddr::V4(host4()), 84, Some(77), (1, 3));
    assert_eq!(&b[start + 52..end - 8], &guest[..60]);
    assert_eq!(&b[end - 8..end], &[77, 2, 3, 4, 5, 6, 7, 8]);
}

#[test]
fn udp_super_frame() {
    let k = key(17, IpAddr::V6(host6()), 443);
    let mut b = buffer(&[7u8; 3000]);
    let start = link().write_reply(&mut b, &k, FlowKind::Udp, false, 3000, Some(1200)).unwrap();
    let f = &b[start..HEADROOM + 3000];
    let mut v = [0u8; 10];
    v.copy_from_slice(&f[..10]);
    let vnet = VnetHdr::parse(&v);
    assert_eq!((vnet.flags, vnet.gso_type), (1, 5));
    assert_eq!((vnet.hdr_len, vnet.gso_size), (14 + 40 + 8, 1200));
    assert_eq!((vnet.csum_start, vnet.csum_offset), (54, 6));
    // The device completes the checksum: the field holds the pseudo sum.
    let sum = pseudo_v6(host6(), link().guest6, 17, 3008);
    assert_eq!(&f[70..72], &((sum & 0xffff) + (sum >> 16)).to_be_bytes()[2..]);
}

#[test]
fn ping_reply() {
    let k = key(1, IpAddr::V4(host4()), 0);
    let mut b = buffer(&[0, 0, 0xde, 0xad, 0, 5, 0, 9, b'x']);
    let start = link().write_reply(&mut b, &k, FlowKind::Ping, false, 9, None).unwrap();
    let f = &b[start..HEADROOM + 9];
    let g = GuestFrame::parse(f).unwrap();
    assert_eq!(g.proto, 1);
    let l4 = &f[g.l4_start..g.l4_end];
    let echo = EchoHdr::parse(l4).unwrap();
    assert_eq!((echo.msg_type, echo.id), (0, 40000));
    assert_eq!(&l4[6..], &[0, 9, b'x']);
    assert_eq!(checksum(l4, 0), 0);
}

#[test]
fn ping_reply_ipv6_has_a_pseudo_header() {
    let k = key(58, IpAddr::V6(host6()), 0);
    let mut b = buffer(&[129, 0, 0, 0, 0, 5, 0, 9]);
    let start = link().write_reply(&mut b, &k, FlowKind::Ping, true, 8, None).unwrap();
    let l4 = &b[HEADROOM..HEADROOM + 8];
    assert_eq!(start, HEADROOM - 40 - 14 - 10);
    assert_eq!(l4[0], 129);
    assert_eq!(checksum(l4, pseudo_v6(host6(), link().guest6, 58, 8)), 0);
}

#[test]
fn ping_reply_under_nat64() {
    let k = key(1, IpAddr::V4(host4()), 0);
    let mut b = buffer(&[129, 0, 0, 0, 0, 5, 0, 9]);
    assert!(link().write_reply(&mut b, &k, FlowKind::Ping, true, 8, None).is_some());
    let l4 = &b[HEADROOM..HEADROOM + 8];
    assert_eq!(l4[0], 0);
    assert_eq!(checksum(l4, 0), 0);
    // Anything but an echo reply is dropped, and so is a short message.
    let mut b = buffer(&[1, 0, 0, 0, 0, 5, 0, 9]);
    assert!(link().write_reply(&mut b, &k, FlowKind::Ping, true, 8, None).is_none());
    assert_eq!(b, buffer(&[1, 0, 0, 0, 0, 5, 0, 9]));
    assert!(link().write_reply(&mut b, &k, FlowKind::Ping, false, 7, None).is_none());
    assert!(link().write_reply(&mut b, &k, FlowKind::Tcp, false, 8, None).is_none());
}

#[test]
fn unreachable_frames() {
    let k = key(17, IpAddr::V4(host4()), 53);
    let mut b = buffer(&[0xee; 100]);
    let (start, end) = link().write_unreachable(&mut b, &k, (3, 4));
    let f = &b[start..end];
    let g = GuestFrame::parse(f).unwrap();
    assert_eq!((g.src_ip, g.proto), (IpAddr::V4(host4()), 1));
    let l4 = &f[g.l4_start..g.l4_end];
    assert_eq!(&l4[..2], &[3, 3]);
    assert_eq!(checksum(l4, 0), 0);
    let ip = Ipv4Hdr::parse(&l4[8..]).unwrap();
    assert_eq!((ip.src, ip.dst, ip.proto), (link().guest4, host4(), 17));
    let udp = UdpHdr::parse(&l4[28..]).unwrap();
    assert_eq!((udp.src_port, udp.dst_port, udp.len), (40000, 53, 8));
    assert_eq!(l4.len(), 36);

    let k = key(17, IpAddr::V6(host6()), 53);
    let (start, end) = link().write_unreachable(&mut b, &k, (3, 4));
    let f = &b[start..end];
    let g = GuestFrame::parse(f).unwrap();
    assert_eq!((g.src_ip, g.proto), (IpAddr::V6(host6()), 58));
    let l4 = &f[g.l4_start..g.l4_end];
    assert_eq!(&l4[..2], &[1, 4]);
    assert_eq!(checksum(l4, pseudo_v6(host6(), link().guest6, 58, 56)), 0);
    assert_eq!(Ipv6Hdr::parse(&l4[8..]).unwrap().src, link().guest6);
}

#[test]
fn errors_and_codes() {
    assert_eq!(unreachable_codes(ECONNREFUSED), Some((3, 4)));
    assert_eq!(unreachable_codes(EHOSTUNREACH), Some((1, 3)));
    assert_eq!(unreachable_codes(ENETUNREACH), Some((0, 0)));
    assert_eq!(unreachable_codes(11), None);
}

#[test]
fn segment_headers() {
    let k = key(6, IpAddr::V4(host4()), 80);
    let seg = TcpSegment {
        seq: 7,
        ack: 9,
        flags: TCP_ACK,
        window: 500,
        options: TcpOptions::Empty,
        gso_size: None,
    };
    let mut out = vec![1, 2, 3];
    let n = link().push_segment_hdr(&mut out, &k, &seg, false, b"hel", b"lo");
    assert_eq!(n, 10 + 14 + 20 + 20);
    assert_eq!(&out[..3], &[1, 2, 3]);
    let mut f = out[3..].to_vec();
    f.extend_from_slice(b"hello");
    let g = GuestFrame::parse(&f).unwrap();
    let l4 = &f[g.l4_start..g.l4_end];
    assert_eq!(checksum(l4, pseudo_v4(host4(), link().guest4, 6, 25)), 0);
    let h = TcpHdr::parse(l4).unwrap();
    assert_eq!((h.src_port, h.dst_port, h.seq, h.ack), (80, 40000, 7, 9));
    assert_eq!((h.flags, h.window, h.header_len), (TCP_ACK, 500, 20));
    assert_eq!(&f[..10], &[0, 0, 54, 0, 0, 0, 34, 0, 16, 0]);
}

#[test]
fn segment_headers_with_offloads() {
    let k = key(6, IpAddr::V6(host6()), 80);
    let seg = TcpSegment {
        seq: 7,
        ack: 9,
        flags: TCP_SYN | TCP_ACK,
        window: 500,
        options: TcpOptions::MssAndScale,
        gso_size: Some(1440),
    };
    let mut out = Vec::new();
    let n = link().push_segment_hdr(&mut out, &k, &seg, true, &[0; 2000], &[]);
    assert_eq!(n, 10 + 14 + 40 + 28);
    assert_eq!(&out[..10], &[1, 4, 82, 0, 0xa0, 5, 54, 0, 16, 0]);
    assert_eq!(&out[84..], &[2, 4, 0xff, 0xd7, 1, 3, 3, 7]);
    assert_eq!(TcpOptions::Mss.to_bytes(), vec![2, 4, 0xff, 0xd7]);
}
