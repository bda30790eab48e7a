use presto_pasta::addr::text::{parse_ip, parse_v4, parse_v6};
use presto_pasta::addr::{IpAddr, Ipv4Addr, Ipv6Addr, SocketAddr};
use presto_pasta::dns::{ipv4only_arpa_query, parse, parse_nat64_prefix, skip_name, Discovery};

fn chars(s: &str) -> Vec<char> {
    s.chars().collect()
}

fn ip(s: &str) -> IpAddr {
    parse_ip(&chars(s)).unwrap()
}

fn v6(s: &str) -> Ipv6Addr {
    parse_v6(&chars(s)).unwrap()
}

/// DNS response with one AAAA answer for `ipv4only.arpa`.
fn response(addr: Ipv6Addr) -> Vec<u8> {
    let mut r = ipv4only_arpa_query();
    r[2] = 0x81; // response, RD
    r[3] = 0x80; // RA
    r[7] = 1; // ancount
    r.extend_from_slice(&[0xc0, 0x0c]); // name pointer to question
    r.extend_from_slice(&[0, 28, 0, 1, 0, 0, 0, 60, 0, 16]); // AAAA IN ttl rdlen
    r.extend_from_slice(&addr.octets);
    r
}

#[test]
fn extracts_well_known_prefix() {
    let addr = v6("64:ff9b::c000:aa");
    assert_eq!(parse_nat64_prefix(&response(addr)), Some(v6("64:ff9b::")));
}

#[test]
fn extracts_network_specific_prefix() {
    let addr = v6("fd00:64::c000:ab");
    assert_eq!(parse_nat64_prefix(&response(addr)), Some(v6("fd00:64::")));
}

#[test]
fn no_dns64_synthesis() {
    // A real (non-synthesized) AAAA answer carries no embedded
    // well-known IPv4 address.
    let addr = v6("2001:db8::1");
    assert_eq!(parse_nat64_prefix(&response(addr)), None);
    // Empty answer section.
    assert_eq!(parse_nat64_prefix(&ipv4only_arpa_query()), None);
}

#[test]
fn parses_first_nameserver() {
    let conf = "search example.org\nnameserver 127.0.0.53\nnameserver 9.9.9.9\n";
    assert_eq!(parse(conf), Some(SocketAddr { ip: ip("127.0.0.53"), port: 53 }));
}

#[test]
fn no_nameserver() {
    assert_eq!(parse("search example.org\n"), None);
}

#[test]
fn nameserver_lines() {
    let ok = |s: &str, a: &str| assert_eq!(parse(s), Some(SocketAddr { ip: ip(a), port: 53 }));
    ok("nameserver 10.0.0.1", "10.0.0.1");
    ok("nameserver\t 10.0.0.1 \u{3000}\r\n", "10.0.0.1");
    ok("nameserver ::1\n", "::1");
    // Lines that do not hold an address are passed over.
    ok("nameserver bogus\n#nameserver 1.1.1.1\n nameserver 2.2.2.2\nnameserver3.3.3.3", "3.3.3.3");
    assert_eq!(parse(""), None);
    assert_eq!(parse("\n\n"), None);
    assert_eq!(parse("nameserver 1.2.3.4 5.6.7.8"), None);
}

#[test]
fn query_bytes() {
    let q = ipv4only_arpa_query();
    assert_eq!(&q[..12], &[0, 0, 1, 0, 0, 1, 0, 0, 0, 0, 0, 0]);
    assert_eq!(&q[12..27], b"\x08ipv4only\x04arpa\x00");
    assert_eq!(&q[27..], &[0, 28, 0, 1]);
}

#[test]
fn names_are_skipped() {
    assert_eq!(skip_name(b"\x03abc\x00x", 0), Some(5));
    assert_eq!(skip_name(b"\x03abc\xc0\x0c", 0), Some(6));
    assert_eq!(skip_name(b"\x00", 0), Some(1));
    assert_eq!(skip_name(b"\xc0", 0), Some(2));
    assert_eq!(skip_name(b"\x03ab", 0), None);
    assert_eq!(skip_name(b"", 0), None);
    assert_eq!(skip_name(b"\x00", usize::MAX), None);
}

#[test]
fn truncated_responses() {
    let full = response(v6("64:ff9b::c000:aa"));
    for n in 0..full.len() {
        assert_eq!(parse_nat64_prefix(&full[..n]), None);
    }
}

#[test]
fn later_answer_is_found() {
    // A CNAME and a foreign AAAA record in front of the synthesized one.
    let mut r = ipv4only_arpa_query();
    r[7] = 3;
    r.extend_from_slice(&[0xc0, 0x0c, 0, 5, 0, 1, 0, 0, 0, 60, 0, 2, 0xc0, 0x0c]);
    r.extend_from_slice(&[0xc0, 0x0c, 0, 28, 0, 1, 0, 0, 0, 60, 0, 16]);
    r.extend_from_slice(&v6("2001:db8::1").octets);
    r.extend_from_slice(&[0xc0, 0x0c, 0, 28, 0, 1, 0, 0, 0, 60, 0, 16]);
    r.extend_from_slice(&v6("64:ff9b::c000:ab").octets);
    assert_eq!(parse_nat64_prefix(&r), Some(v6("64:ff9b::")));
}

#[test]
fn discovery_tries_three_times() {
    let d = Discovery::start();
    assert_eq!(d, Discovery::Ask { tries: 3 });
    let d = d.timed_out();
    assert_eq!(d, Discovery::Ask { tries: 2 });
    let d = d.timed_out();
    assert_eq!(d, Discovery::Ask { tries: 1 });
    assert_eq!(d.timed_out(), Discovery::Done(None));
    assert_eq!(
        d.received(&response(v6("64:ff9b::c000:aa"))),
        Discovery::Done(Some(v6("64:ff9b::")))
    );
    assert_eq!(d.received(&[]), Discovery::Done(None));
    assert_eq!(d.unsent(), Discovery::Done(None));
}

#[test]
fn ipv4_text() {
    assert_eq!(parse_v4(&chars("192.168.1.20")), Some(Ipv4Addr::new(192, 168, 1, 20)));
    assert_eq!(parse_v4(&chars("0.0.0.0")), Some(Ipv4Addr::new(0, 0, 0, 0)));
    assert_eq!(parse_v4(&chars("255.255.255.255")), Some(Ipv4Addr::new(255, 255, 255, 255)));
    for bad in [
        "", "1.2.3", "1.2.3.4.5", "1.2.3.256", "1.2.3.04", "1.2.3.", ".1.2.3", "1..2.3",
        "1.2.3.4 ", "1.2.3.a", "1.2.3.1000", "+1.2.3.4",
    ] {
        assert_eq!(parse_v4(&chars(bad)), None, "{bad}");
    }
}

#[test]
fn ipv6_text() {
    let ok = |s: &str, g: [u16; 8]| {
        let want = Ipv6Addr::new(g[0], g[1], g[2], g[3], g[4], g[5], g[6], g[7]);
        assert_eq!(parse_v6(&chars(s)), Some(want), "{s}");
    };
    ok("::", [0; 8]);
    ok("::1", [0, 0, 0, 0, 0, 0, 0, 1]);
    ok("1::", [1, 0, 0, 0, 0, 0, 0, 0]);
    ok("2001:DB8::a:b", [0x2001, 0xdb8, 0, 0, 0, 0, 0xa, 0xb]);
    ok("1:2:3:4:5:6:7:8", [1, 2, 3, 4, 5, 6, 7, 8]);
    ok("1:2:3:4:5:6:7::", [1, 2, 3, 4, 5, 6, 7, 0]);
    ok("::2:3:4:5:6:7:8", [0, 2, 3, 4, 5, 6, 7, 8]);
    ok("::ffff:1.2.3.4", [0, 0, 0, 0, 0, 0xffff, 0x102, 0x304]);
    ok("1:2:3:4:5:6:1.2.3.4", [1, 2, 3, 4, 5, 6, 0x102, 0x304]);
    ok("0001::", [1, 0, 0, 0, 0, 0, 0, 0]);
    for bad in [
        "", ":", ":::", "1:2:3:4:5:6:7", "1:2:3:4:5:6:7:8:9", "1::2::3", "12345::", "1:2:3:4:5:6:7:8::",
        "::1:2:3:4:5:6:7:8", "1.2.3.4::", "1:1.2.3.4:5::", "::1.2.3.4:5", ":1:2:3:4:5:6:7:8",
        "1:2:3:4:5:6:7:1.2.3.4", "1:2:3:4:5:6::1.2.3.4", "g::", "::1%lo", "1:::2",
    ] {
        assert_eq!(parse_v6(&chars(bad)), None, "{bad}");
    }
}
