use presto_pasta::addr::{IpAddr, Ipv4Addr, Ipv6Addr, SocketAddr};
use presto_pasta::flow::{Flow, FlowKey, FlowKind, FlowTable};
use presto_pasta::proto::tcp::TcpHdr;
use presto_pasta::tcp::Tcp;

const NOW: u64 = 1_000_000_000_000;

fn flow(port: u16) -> Flow {
    Flow {
        key: FlowKey {
            proto: 17,
            guest_port: port,
            dst: SocketAddr { ip: IpAddr::V4(Ipv4Addr::new(10, 0, 0, 1)), port: 53 },
        },
        kind: FlowKind::Udp,
        sock: 3,
        buf: 0,
        last_active: NOW,
        tcp: None,
        closing: false,
    }
}

fn tcp_flow(port: u16, sent: u32, last_progress: u64) -> Flow {
    let syn = TcpHdr {
        src_port: port,
        dst_port: 80,
        seq: 1,
        ack: 0,
        header_len: 20,
        flags: 2,
        window: 1000,
        mss: None,
        wscale: None,
    };
    let mut t = Tcp::connecting(&syn, 1000, last_progress);
    t.buffered = sent;
    t.sent_unacked = sent;
    Flow { kind: FlowKind::Tcp, tcp: Some(t), ..flow(port) }
}

#[test]
fn slots_are_reused_after_removal() {
    let mut t = FlowTable::default();
    let a = t.insert(flow(1000));
    let b = t.insert(flow(1001));
    assert_ne!(a, b);
    t.remove(a);
    assert!(t.get_by_id(a).is_none());
    assert!(t.get(&flow(1000).key).is_none());
    let c = t.insert(flow(1002));
    assert_eq!(c, a);
    assert!(t.get_by_id(b).is_some());
}

#[test]
fn expired_skips_active_and_closing() {
    let mut t = FlowTable::default();
    let a = t.insert(flow(1));
    let b = t.insert(flow(2));
    t.get_mut(b).unwrap().closing = true;
    let later = NOW + 1_000_000_000;
    assert_eq!(t.expired(later), vec![a]);
    let earlier = NOW - 1_000_000_000;
    assert!(t.expired(earlier).is_empty());
    assert!(t.expired(NOW).is_empty());
}

#[test]
fn flows_are_found_by_key() {
    let mut t = FlowTable::new();
    let a = t.insert(flow(1));
    let b = t.insert(flow(2));
    assert_eq!(t.get(&flow(1).key), Some(a));
    assert_eq!(t.get(&flow(2).key), Some(b));
    assert_eq!(t.get(&flow(3).key), None);
    assert_eq!(t.get_by_id(b).unwrap().key, flow(2).key);
    assert!(t.get_by_id(2).is_none());
    assert!(t.get_mut(2).is_none());
    assert_eq!(t.remove(2), None);
}

#[test]
fn removal_hands_back_the_buffer() {
    let mut t = FlowTable::new();
    let a = t.insert(Flow { buf: 42, ..flow(1) });
    assert_eq!(t.remove(a), Some(42));
    assert_eq!(t.remove(a), None);
}

#[test]
fn keys_of_both_families_differ() {
    // An IPv4 address and the IPv6 address that starts with its octets.
    let v4 = flow(1);
    let v6 = Flow {
        key: FlowKey {
            dst: SocketAddr {
                ip: IpAddr::V6(Ipv6Addr::new(0x0a00, 1, 0, 0, 0, 0, 0, 0)),
                port: 53,
            },
            ..v4.key
        },
        ..v4
    };
    let mut t = FlowTable::new();
    let a = t.insert(v4);
    let b = t.insert(v6);
    assert_eq!(t.get(&v4.key), Some(a));
    assert_eq!(t.get(&v6.key), Some(b));
    let other_proto = FlowKey { proto: 6, ..v4.key };
    assert_eq!(t.get(&other_proto), None);
}

#[test]
fn least_recently_used_is_evicted() {
    let mut t = FlowTable::new();
    assert_eq!(t.lru_evictable(), None);
    t.insert(Flow { last_active: 50, ..flow(1) });
    let old = t.insert(Flow { last_active: 20, ..flow(2) });
    t.insert(Flow { last_active: 20, ..flow(3) });
    t.insert(Flow { last_active: 10, closing: true, ..flow(4) });
    t.insert(Flow { last_active: 5, ..tcp_flow(5, 0, 0) });
    assert_eq!(t.lru_evictable(), Some(old));
}

#[test]
fn stalled_flows_are_due() {
    let mut t = FlowTable::new();
    t.insert(flow(1));
    let stalled = t.insert(tcp_flow(2, 10, 100));
    t.insert(tcp_flow(3, 0, 100));
    t.insert(tcp_flow(4, 10, 200));
    t.insert(Flow { closing: true, ..tcp_flow(5, 10, 100) });
    assert_eq!(t.retransmit_due(200), vec![stalled]);
    assert!(t.retransmit_due(100).is_empty());
}
