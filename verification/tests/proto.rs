use presto_pasta::addr::{Ipv4Addr, Ipv6Addr};
use presto_pasta::proto::tcp::TcpHdr;
use presto_pasta::proto::{
    checksum, fold_sum, pseudo_v4, pseudo_v6, sum2, write_unreachable, EchoHdr, EthHdr, Ipv4Hdr,
    Ipv6Hdr, UdpHdr, ETHERTYPE_IPV4, ETH_LEN, IPPROTO_UDP, TCP_ACK, TCP_SYN,
};

#[test]
fn checksum_known_vector() {
    // Example from RFC 1071 section 3.
    let data = [0x00u8, 0x01, 0xf2, 0x03, 0xf4, 0xf5, 0xf6, 0xf7];
    assert_eq!(checksum(&data, 0), !0xddf2);
}

#[test]
fn eth_roundtrip() {
    let hdr = EthHdr {
        dst: [1, 2, 3, 4, 5, 6],
        src: [7, 8, 9, 10, 11, 12],
        ethertype: ETHERTYPE_IPV4,
    };
    let mut b = [0u8; ETH_LEN];
    hdr.write(&mut b);
    let p = EthHdr::parse(&b).unwrap();
    assert_eq!(p.dst, hdr.dst);
    assert_eq!(p.src, hdr.src);
    assert_eq!(p.ethertype, hdr.ethertype);
}

#[test]
fn eth_too_short() {
    assert!(EthHdr::parse(&[0u8; 13]).is_none());
}

#[test]
fn eth_wire_layout() {
    let hdr = EthHdr { dst: [1; 6], src: [2; 6], ethertype: 0x86dd };
    let mut b = [9u8; 16];
    hdr.write(&mut b);
    assert_eq!(b, [1, 1, 1, 1, 1, 1, 2, 2, 2, 2, 2, 2, 0x86, 0xdd, 9, 9]);
}

#[test]
fn checksum_odd_length_and_initial_sum() {
    // The last byte counts as the high half of a word.
    assert_eq!(checksum(&[0x12], 0), !0x1200);
    assert_eq!(checksum(&[0x12, 0x34, 0x56], 0x10), !(0x1234 + 0x5600 + 0x10));
    assert_eq!(checksum(&[], 0), 0xffff);
    assert_eq!(checksum(&[0xff; 65536], 0xffff_ffff), 0);
}

#[test]
fn checksum_verifies_with_itself() {
    let mut data = [0x45u8, 0, 0, 0x1c, 0, 0, 0x40, 0, 64, 17, 0, 0, 10, 0, 0, 1, 10, 0, 0, 2];
    let c = checksum(&data, 0);
    data[10] = (c >> 8) as u8;
    data[11] = c as u8;
    assert_eq!(checksum(&data, 0), 0);
}

#[test]
fn folding() {
    assert_eq!(fold_sum(0), 0);
    assert_eq!(fold_sum(0xffff), 0xffff);
    assert_eq!(fold_sum(0x1_0000), 1);
    assert_eq!(fold_sum(0x2_fffd), 0xffff);
    assert_eq!(fold_sum(u64::MAX), 0xffff);
}

#[test]
fn sum_of_two_parts_is_that_of_the_whole() {
    // The split may fall in the middle of a word.
    let data = [1u8, 2, 3, 4, 5, 6, 7];
    for i in 0..=data.len() {
        let (a, b) = data.split_at(i);
        assert_eq!(sum2(a, b), 0x0102 + 0x0304 + 0x0506 + 0x0700);
    }
}

#[test]
fn pseudo_header_sums() {
    let a = Ipv4Addr::new(10, 0, 0, 1);
    let b = Ipv4Addr::new(192, 168, 1, 2);
    assert_eq!(pseudo_v4(a, b, IPPROTO_UDP, 9), 0x0a00 + 1 + 0xc0a8 + 0x0102 + 17 + 9);
    let c = Ipv6Addr::new(0x2001, 0xdb8, 0, 0, 0, 0, 0, 1);
    let d = Ipv6Addr::new(0xfe80, 0, 0, 0, 0, 0, 0, 2);
    assert_eq!(pseudo_v6(c, d, 58, 8), 0x2001 + 0xdb8 + 1 + 0xfe80 + 2 + 58 + 8);
}

#[test]
fn ipv4_wire_layout_and_roundtrip() {
    let src = Ipv4Addr::new(10, 0, 0, 1);
    let dst = Ipv4Addr::new(192, 168, 1, 2);
    let mut b = [0u8; 20];
    Ipv4Hdr::write(&mut b, src, dst, IPPROTO_UDP, 8);
    assert_eq!(&b[..10], &[0x45, 0, 0, 28, 0, 0, 0x40, 0, 64, 17]);
    assert_eq!(&b[12..], &[10, 0, 0, 1, 192, 168, 1, 2]);
    assert_eq!(checksum(&b, 0), 0);
    let p = Ipv4Hdr::parse(&b).unwrap();
    assert_eq!(p.src, src);
    assert_eq!(p.dst, dst);
    assert_eq!(p.proto, IPPROTO_UDP);
    assert_eq!(p.header_len, 20);
    assert_eq!(p.total_len, 28);
}

#[test]
fn ipv4_total_length_saturates() {
    let a = Ipv4Addr::new(1, 2, 3, 4);
    let mut b = [0u8; 20];
    Ipv4Hdr::write(&mut b, a, a, 6, 65535);
    assert_eq!(Ipv4Hdr::parse(&b).unwrap().total_len, 65535);
}

#[test]
fn ipv4_rejects_malformed() {
    let mut b = [0u8; 24];
    Ipv4Hdr::write(&mut b, Ipv4Addr::new(1, 2, 3, 4), Ipv4Addr::new(5, 6, 7, 8), 6, 0);
    assert!(Ipv4Hdr::parse(&b[..19]).is_none());
    b[0] = 0x65; // version
    assert!(Ipv4Hdr::parse(&b).is_none());
    b[0] = 0x44; // header too short
    assert!(Ipv4Hdr::parse(&b).is_none());
    b[0] = 0x47; // header longer than the packet
    assert!(Ipv4Hdr::parse(&b).is_none());
    b[0] = 0x46; // one word of options
    assert_eq!(Ipv4Hdr::parse(&b).unwrap().header_len, 24);
}

#[test]
fn ipv6_wire_layout_and_roundtrip() {
    let src = Ipv6Addr::new(0xfd00, 0, 0, 0, 0, 0, 0, 1);
    let dst = Ipv6Addr::new(0x2001, 0xdb8, 0, 0, 0, 0, 0, 2);
    let mut b = [0u8; 40];
    Ipv6Hdr::write(&mut b, src, dst, 58, 500);
    assert_eq!(&b[..8], &[0x60, 0, 0, 0, 1, 244, 58, 64]);
    let p = Ipv6Hdr::parse(&b).unwrap();
    assert_eq!(p.src, src);
    assert_eq!(p.dst, dst);
    assert_eq!(p.next_header, 58);
    assert_eq!(p.payload_len, 500);
    assert!(Ipv6Hdr::parse(&b[..39]).is_none());
    b[0] = 0x45;
    assert!(Ipv6Hdr::parse(&b).is_none());
}

#[test]
fn udp_checksum_and_roundtrip() {
    let mut b = [0u8; 12];
    b[8..].copy_from_slice(b"ping");
    UdpHdr::write(&mut b, 53, 40000, 0x1234, false);
    assert_eq!(checksum(&b, 0x1234), 0);
    let p = UdpHdr::parse(&b).unwrap();
    assert_eq!((p.src_port, p.dst_port, p.len), (53, 40000, 12));
    assert_eq!(&b[8..], b"ping");
}

#[test]
fn udp_partial_checksum_is_the_pseudo_sum() {
    let mut b = [0u8; 9];
    UdpHdr::write(&mut b, 1, 2, 0x1_2345, true);
    assert_eq!(&b[..8], &[0, 1, 0, 2, 0, 9, 0x23, 0x46]);
}

#[test]
fn udp_zero_checksum_is_sent_as_ones() {
    // Ports 0, length 8 and a pseudo sum that makes the checksum vanish.
    let mut b = [0u8; 8];
    UdpHdr::write(&mut b, 0, 0, 0xffff - 8, false);
    assert_eq!(&b[6..], &[0xff, 0xff]);
}

#[test]
fn udp_rejects_malformed() {
    assert!(UdpHdr::parse(&[0u8; 7]).is_none());
    assert!(UdpHdr::parse(&[0, 1, 0, 2, 0, 7, 0, 0]).is_none());
    assert_eq!(UdpHdr::parse(&[0, 1, 0, 2, 0, 8, 0, 0]).unwrap().len, 8);
}

#[test]
fn echo_identifier_is_patched() {
    let mut b = [0u8, 0, 0, 0, 0, 9, 0, 1, b'h', b'i'];
    EchoHdr::patch_id(&mut b, 0xabcd, 0);
    let p = EchoHdr::parse(&b).unwrap();
    assert_eq!(p.msg_type, 0);
    assert_eq!(p.id, 0xabcd);
    assert_eq!(&b[6..], &[0, 1, b'h', b'i']);
    assert_eq!(checksum(&b, 0), 0);
    assert!(EchoHdr::parse(&b[..7]).is_none());
}

#[test]
fn unreachable_header() {
    let mut b = [0xeeu8; 12];
    write_unreachable(&mut b, 3, 1, 0);
    assert_eq!(&b[..2], &[3, 1]);
    assert_eq!(&b[4..], &[0, 0, 0, 0, 0xee, 0xee, 0xee, 0xee]);
    assert_eq!(checksum(&b, 0), 0);
}

#[test]
fn tcp_roundtrip() {
    let mut b = [0u8; 28];
    let options = [2, 4, 0xff, 0xd7, 1, 3, 3, 7];
    TcpHdr::write(
        &mut b,
        (80, 50000),
        0x0102_0304,
        0x0506_0708,
        TCP_SYN | TCP_ACK,
        1000,
        &options,
        77,
        false,
    );
    assert_eq!(checksum(&b, 77), 0);
    let p = TcpHdr::parse(&b).unwrap();
    assert_eq!((p.src_port, p.dst_port), (80, 50000));
    assert_eq!((p.seq, p.ack), (0x0102_0304, 0x0506_0708));
    assert_eq!(p.header_len, 28);
    assert_eq!(p.flags, TCP_SYN | TCP_ACK);
    assert_eq!(p.window, 1000);
    assert_eq!(p.mss, Some(65495));
    assert_eq!(p.wscale, Some(7));
}

#[test]
fn tcp_partial_checksum_is_the_pseudo_sum() {
    let mut b = [0u8; 20];
    TcpHdr::write(&mut b, (1, 2), 3, 4, TCP_ACK, 5, &[], 0x1_fffe, true);
    assert_eq!(&b[16..18], &[0xff, 0xff]);
}

#[test]
fn tcp_options() {
    let mut b = [0u8; 32];
    TcpHdr::write(&mut b[..20], (1, 2), 3, 4, TCP_SYN, 5, &[], 0, false);
    assert_eq!(TcpHdr::parse(&b[..20]).unwrap().mss, None);
    b[12] = 8 << 4;
    // Timestamps before the MSS, then padding.
    b[20..32].copy_from_slice(&[1, 1, 2, 4, 5, 0xb4, 3, 3, 9, 0, 2, 4]);
    let p = TcpHdr::parse(&b).unwrap();
    assert_eq!(p.mss, Some(1460));
    assert_eq!(p.wscale, Some(9));
    // A zero MSS is ignored, and so is what follows a malformed option.
    b[20..32].copy_from_slice(&[2, 4, 0, 0, 8, 1, 3, 3, 9, 0, 0, 0]);
    let p = TcpHdr::parse(&b).unwrap();
    assert_eq!(p.mss, None);
    assert_eq!(p.wscale, None);
    assert!(TcpHdr::parse(&b[..31]).is_none());
    b[12] = 4 << 4;
    assert!(TcpHdr::parse(&b).is_none());
    assert!(TcpHdr::parse(&[0u8; 19]).is_none());
}
