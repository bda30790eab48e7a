use presto_pasta::addr::{IpAddr, Ipv4Addr, Ipv6Addr};
use presto_pasta::netdev::{
    add_addr, add_default_route, add_neighbor, configure, family, interface_name, ip_bytes,
    parse_ack, Endian, NetlinkError, Request, MTU,
};
use presto_pasta::Config;

fn v4() -> IpAddr {
    IpAddr::V4(Ipv4Addr::new(169, 254, 1, 2))
}

fn v6() -> IpAddr {
    IpAddr::V6(Ipv6Addr::new(0xfd00, 0, 0, 0, 0, 0, 0, 1))
}

#[test]
fn request_layout() {
    let r = Request::new(Endian::Little, 20, &[9, 8, 7]).attr(5, &[1]).attr(6, &[2, 3]).finish();
    assert_eq!(
        r,
        vec![
            36, 0, 0, 0, 20, 0, 5, 5, 1, 0, 0, 0, 0, 0, 0, 0, // nlmsghdr
            9, 8, 7, 0, // header and padding
            5, 0, 5, 0, 1, 0, 0, 0, // first attribute and padding
            6, 0, 6, 0, 2, 3, 0, 0, // second attribute and padding
        ]
    );
}

#[test]
fn big_endian_request() {
    let r = Request::new(Endian::Big, 20, &[]).attr(5, &[1, 2, 3, 4]).finish();
    assert_eq!(
        r,
        vec![0, 0, 0, 24, 0, 20, 5, 5, 0, 0, 0, 1, 0, 0, 0, 0, 0, 8, 0, 5, 1, 2, 3, 4]
    );
}

#[test]
fn address_request() {
    let r = add_addr(Endian::Little, 7, v4());
    assert_eq!(&r[..8], &[40, 0, 0, 0, 20, 0, 5, 5]);
    assert_eq!(&r[16..24], &[2, 32, 0, 0, 7, 0, 0, 0]);
    assert_eq!(&r[24..], &[8, 0, 2, 0, 169, 254, 1, 2, 8, 0, 1, 0, 169, 254, 1, 2]);
    let r = add_addr(Endian::Little, 7, v6());
    // No duplicate address detection on the tap.
    assert_eq!(&r[16..24], &[10, 128, 2, 0, 7, 0, 0, 0]);
    assert_eq!(r.len(), 64);
}

#[test]
fn route_request() {
    let r = add_default_route(Endian::Little, 0x0102, v4());
    assert_eq!(&r[..6], &[44, 0, 0, 0, 24, 0]);
    assert_eq!(&r[16..28], &[2, 0, 0, 0, 254, 3, 0, 1, 4, 0, 0, 0]);
    assert_eq!(&r[28..], &[8, 0, 5, 0, 169, 254, 1, 2, 8, 0, 4, 0, 2, 1, 0, 0]);
}

#[test]
fn neighbor_request() {
    let r = add_neighbor(Endian::Little, 3, v4(), [1, 2, 3, 4, 5, 6]);
    assert_eq!(&r[..6], &[48, 0, 0, 0, 28, 0]);
    assert_eq!(&r[16..28], &[2, 0, 0, 0, 3, 0, 0, 0, 0x80, 0, 0, 0]);
    assert_eq!(
        &r[28..],
        &[8, 0, 1, 0, 169, 254, 1, 2, 10, 0, 2, 0, 1, 2, 3, 4, 5, 6, 0, 0]
    );
}

#[test]
fn requests_in_order() {
    let c = Config::default();
    let r = configure(Endian::Big, 5, &c);
    let (g4, w4) = (IpAddr::V4(c.guest4), IpAddr::V4(c.gateway4));
    let (g6, w6) = (IpAddr::V6(c.guest6), IpAddr::V6(c.gateway6));
    assert_eq!(
        r,
        vec![
            add_addr(Endian::Big, 5, g4),
            add_neighbor(Endian::Big, 5, w4, c.gateway_mac),
            add_default_route(Endian::Big, 5, w4),
            add_addr(Endian::Big, 5, g6),
            add_neighbor(Endian::Big, 5, w6, c.gateway_mac),
            add_default_route(Endian::Big, 5, w6),
        ]
    );
    for req in r {
        assert_eq!(req.len() % 4, 0);
        assert_eq!(u32::from_be_bytes([req[0], req[1], req[2], req[3]]) as usize, req.len());
    }
}

#[test]
fn acknowledgements() {
    let mut b = [0u8; 20];
    assert_eq!(parse_ack(Endian::Little, &b[..19]), Err(NetlinkError::Short));
    assert_eq!(parse_ack(Endian::Little, &b), Err(NetlinkError::UnexpectedType));
    b[4] = 2;
    assert_eq!(parse_ack(Endian::Little, &b), Ok(()));
    b[16..].copy_from_slice(&(-1i32).to_le_bytes());
    assert_eq!(parse_ack(Endian::Little, &b), Err(NetlinkError::Os(1)));
    b[16..].copy_from_slice(&(-95i32).to_le_bytes());
    assert_eq!(parse_ack(Endian::Little, &b), Err(NetlinkError::Os(95)));
    b[4..6].copy_from_slice(&[0, 2]);
    b[16..].copy_from_slice(&(-17i32).to_be_bytes());
    assert_eq!(parse_ack(Endian::Big, &b), Err(NetlinkError::Os(17)));
}

#[test]
fn helpers() {
    assert_eq!(family(v4()), 2);
    assert_eq!(family(v6()), 10);
    assert_eq!(ip_bytes(v4()), vec![169, 254, 1, 2]);
    assert_eq!(ip_bytes(v6()).len(), 16);
    assert_eq!(MTU, 65520);
    assert_eq!(interface_name(b"tap0"), Some(*b"tap0\0\0\0\0\0\0\0\0\0\0\0\0"));
    assert_eq!(interface_name(b"fifteen_letters"), Some(*b"fifteen_letters\0"));
    assert_eq!(interface_name(b"sixteen_letters_"), None);
}
