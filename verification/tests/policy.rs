use presto_pasta::addr::text::parse_ip;
use presto_pasta::addr::{IpAddr, Ipv4Addr, Ipv6Addr, SocketAddr};
use presto_pasta::{Config, FlowDst};

fn ip(s: &str) -> IpAddr {
    parse_ip(&s.chars().collect::<Vec<char>>()).unwrap()
}

fn dst(s: &str) -> FlowDst {
    FlowDst { proto: 6, ip: ip(s), port: 443 }
}

#[test]
fn public_destinations() {
    for ip in ["1.1.1.1", "93.184.216.34", "2606:4700::1111"] {
        assert!(dst(ip).is_public(), "{ip} should be public");
    }
}

#[test]
fn non_public_destinations() {
    for ip in [
        "127.0.0.1",
        "10.1.2.3",
        "172.16.0.1",
        "192.168.1.1",
        "169.254.169.254",
        "100.64.0.1",
        "224.0.0.1",
        "255.255.255.255",
        "0.0.0.0",
        "::1",
        "fd00::1",
        "fe80::1",
        "ff02::1",
        "::",
    ] {
        assert!(!dst(ip).is_public(), "{ip} should not be public");
    }
}

#[test]
fn range_borders() {
    for ip in [
        "172.15.255.255", "172.32.0.0", "100.63.255.255", "100.128.0.0", "9.255.255.255",
        "126.255.255.255", "128.0.0.0", "223.255.255.255", "240.0.0.1", "169.253.1.1", "::2",
        "fbff::1", "fe00::1", "fe7f::1", "fec0::1", "feff::1",
    ] {
        assert!(dst(ip).is_public(), "{ip} should be public");
    }
    for ip in ["172.31.255.255", "100.127.255.255", "239.255.255.255", "fc00::1", "febf::1"] {
        assert!(!dst(ip).is_public(), "{ip} should not be public");
    }
}

#[test]
fn mapped_destinations_count_as_ipv4() {
    for ip in [
        "::ffff:127.0.0.1",
        "::ffff:10.1.2.3",
        "::ffff:172.16.0.1",
        "::ffff:192.168.1.1",
        "::ffff:169.254.169.254",
        "::ffff:100.64.0.1",
        "::ffff:224.0.0.1",
        "::ffff:255.255.255.255",
        "::ffff:0.0.0.0",
    ] {
        assert!(!dst(ip).is_public(), "{ip} should not be public");
    }
    assert!(dst("::ffff:1.1.1.1").is_public());
    // One bit off the mapped prefix.
    assert!(dst("::fffe:127.0.0.1").is_public());
    assert!(dst("::1:ffff:127.0.0.1").is_public());
}

#[test]
fn loopback_addresses() {
    for s in ["127.0.0.1", "127.255.255.255", "::1", "::ffff:127.0.0.1", "::ffff:127.9.9.9"] {
        assert!(ip(s).is_loopback(), "{s} should be loopback");
    }
    for s in ["128.0.0.1", "::", "::2", "::ffff:128.0.0.1", "::fffe:127.0.0.1", "::127.0.0.1"] {
        assert!(!ip(s).is_loopback(), "{s} should not be loopback");
    }
    let mapped = Ipv6Addr::new(0, 0, 0, 0, 0, 0xffff, 0xc000, 0x0207);
    assert_eq!(mapped.mapped(), Some(Ipv4Addr::new(192, 0, 2, 7)));
    assert_eq!(Ipv6Addr::new(0, 0, 0, 0, 0, 0, 0xc000, 0x0207).mapped(), None);
}

#[test]
fn default_config() {
    let c = Config::default();
    assert_eq!(c.guest4, Ipv4Addr::new(169, 254, 1, 2));
    assert_eq!(c.gateway4, Ipv4Addr::new(169, 254, 1, 1));
    assert_eq!(IpAddr::V6(c.guest6), ip("64:ff9b:1:4b8e:472e:a5c8:a9fe:102"));
    assert_eq!(IpAddr::V6(c.gateway6), ip("64:ff9b:1:4b8e:472e:a5c8:a9fe:101"));
    assert_eq!(c.gateway_mac, [0x9a, 0x55, 0x9a, 0x55, 0x9a, 0x55]);
    assert!(c.dns_forward);
    assert_eq!(c.buffers, 64);
    assert!(c.allow_flow.is_none());
    assert!(c.nat64_prefix.is_none());
}

#[test]
fn nat64_targets() {
    let prefix = Ipv6Addr::new(0x64, 0xff9b, 0, 0, 0, 0, 0, 0);
    let c = Config { nat64_prefix: Some(prefix), ..Config::default() };
    let at = |s: &str| SocketAddr { ip: ip(s), port: 80 };
    assert_eq!(c.nat64_target(at("192.0.2.1")), at("64:ff9b::c000:201"));
    assert_eq!(c.nat64_target(at("2001:db8::1")), at("2001:db8::1"));
    assert_eq!(c.nat64_target(at("127.0.0.53")), at("127.0.0.53"));
    assert_eq!(Config::default().nat64_target(at("192.0.2.1")), at("192.0.2.1"));
}
