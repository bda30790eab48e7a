use presto_pasta::addr::{IpAddr, Ipv4Addr, Ipv6Addr, SocketAddr};
use presto_pasta::buf::{BUF_SIZE, HEADROOM};
use presto_pasta::frame::GuestFrame;
use presto_pasta::proto::tcp::TcpHdr;
use presto_pasta::proto::{
    checksum, pseudo_v6, EchoHdr, EthHdr, Ipv4Hdr, Ipv6Hdr, UdpHdr, TCP_ACK, TCP_FIN, TCP_PSH,
    TCP_RST, TCP_SYN,
};
use presto_pasta::tap::{Offloads, TUN_F_CSUM, TUN_F_TSO4, TUN_F_USO4};
use presto_pasta::uring::state::{
    Counter, Op, Reply, Request, TcpRead, CANCEL_UD, FLOW_EXPIRY, POLL_ERR, POLL_HUP, POLL_OUT,
    POLL_RECV, RTO, STOP_UD, TAP_UD, TIMER_UD,
};
use presto_pasta::uring::EventLoop;
use presto_pasta::{Config, FlowDst, FlowFilter};

const NOW: u64 = 1_000_000_000_000;
const ISN: u32 = 0x1_0000;

fn guest() -> Ipv4Addr {
    Ipv4Addr::new(169, 254, 1, 2)
}

fn host() -> Ipv4Addr {
    Ipv4Addr::new(192, 0, 2, 7)
}

fn to(ip: Ipv4Addr, port: u16) -> SocketAddr {
    SocketAddr { ip: IpAddr::V4(ip), port }
}

fn new_loop(cfg: Config, flags: i32) -> EventLoop {
    EventLoop::new(&cfg, Offloads::new(flags)).unwrap()
}

/// An IPv4 frame from the guest around an L4 message.
fn frame(src: Ipv4Addr, dst: Ipv4Addr, proto: u8, l4: &[u8]) -> Vec<u8> {
    let mut f = vec![0u8; 44];
    EthHdr { dst: [4; 6], src: [2; 6], ethertype: 0x0800 }.write(&mut f[10..]);
    Ipv4Hdr::write(&mut f[24..], src, dst, proto, l4.len() as u16);
    f.extend_from_slice(l4);
    f
}

fn udp(src_port: u16, dst_port: u16, payload: &[u8]) -> Vec<u8> {
    let mut m = vec![0u8; 8];
    m.extend_from_slice(payload);
    UdpHdr::write(&mut m, src_port, dst_port, 0, false);
    m
}

fn segment(flags: u8, seq: u32, ack: u32, window: u16, payload: &[u8]) -> Vec<u8> {
    let mut m = vec![0u8; 20];
    TcpHdr::write(&mut m, (40000, 80), seq, ack, flags, window, &[], 0, false);
    m.extend_from_slice(payload);
    m
}

/// A SYN with MSS 1000 and window scale 2.
fn syn() -> Vec<u8> {
    let mut m = vec![0u8; 28];
    let options = [2, 4, 0x03, 0xe8, 1, 3, 3, 2];
    TcpHdr::write(&mut m, (40000, 80), 99, 0, TCP_SYN, 64, &options, 0, false);
    m
}

/// Hand a frame to the loop as if it was read from the tap.
fn from_guest(el: &mut EventLoop, f: &[u8], now: u64) {
    let tap = el.tap_buf();
    el.bytes_mut(tap)[..f.len()].copy_from_slice(f);
    assert!(el.ready(TAP_UD, f.len() as i32));
    el.complete(TAP_UD, f.len() as i32, now);
}

fn answer(el: &mut EventLoop, reply: Reply) {
    assert!(el.accepts(&reply));
    el.resume(reply, NOW);
}

/// The actions of the last step without the notes for the counters.
fn actions(el: &EventLoop) -> Vec<Op> {
    el.ops().iter().copied().filter(|o| !matches!(o, Op::Count(_))).collect()
}

fn counters(el: &EventLoop) -> Vec<Counter> {
    let note = |o: &Op| match o {
        Op::Count(c) => Some(*c),
        _ => None,
    };
    el.ops().iter().filter_map(note).collect()
}

/// The frames written to the tap in the last step.
fn frames(el: &EventLoop) -> Vec<Vec<u8>> {
    let mut r = Vec::new();
    for o in el.ops() {
        match *o {
            Op::WriteTap { buf, start, end } => r.push(el.bytes(buf, start, end).to_vec()),
            Op::WriteSegment { hdr_start, hdr_end, buf, start, end, start2, end2 } => {
                let mut f = el.hdrs()[hdr_start..hdr_end].to_vec();
                f.extend_from_slice(el.bytes(buf, start, end));
                f.extend_from_slice(el.bytes(buf, start2, end2));
                r.push(f);
            }
            _ => {}
        }
    }
    r
}

/// The last step did nothing but tell the guest that `dst`, to which it
/// sent the IPv4 frame `f`, is unreachable, and submit the next tap read.
fn assert_unreachable(el: &EventLoop, f: &[u8], dst: Ipv4Addr) {
    let read = Op::ArmTapRead { buf: el.tap_buf() };
    assert!(matches!(actions(el)[..], [Op::WriteTap { .. }, o] if o == read));
    assert_eq!(el.request(), Request::Wait);
    let r = frames(el).remove(0);
    assert!(counters(el).contains(&Counter::TapOut(r.len())));
    let g = GuestFrame::parse(&r).unwrap();
    assert_eq!((g.src_ip, g.dst_ip), (IpAddr::V4(dst), IpAddr::V4(guest())));
    assert_eq!(EthHdr::parse(&r[10..]).unwrap().dst, [2; 6]);
    // Host unreachable, around the IP header and eight bytes behind it.
    assert_eq!((g.proto, &r[44..46]), (1, &[3u8, 1][..]));
    assert_eq!(&r[52..], &f[24..52]);
    assert_eq!(checksum(&r[44..], 0), 0);
}

/// Header and payload of a TCP frame.
fn tcp_of(f: &[u8]) -> (TcpHdr, Vec<u8>) {
    let g = GuestFrame::parse(f).unwrap();
    let l4 = &f[g.l4_start..g.l4_end];
    let h = TcpHdr::parse(l4).unwrap();
    (h, l4[h.header_len..].to_vec())
}

/// A loop with one UDP flow to port 53 of the host; returns its id and
/// buffer.
fn with_udp_flow(cfg: Config, flags: i32) -> (EventLoop, usize, u32) {
    let mut el = new_loop(cfg, flags);
    from_guest(&mut el, &frame(guest(), host(), 17, &udp(40000, 53, b"query")), NOW);
    answer(&mut el, Reply::Opened(Some(7)));
    let (id, buf) = match el.request() {
        Request::ArmRecv { id, buf, .. } => (id, buf),
        r => panic!("unexpected request {r:?}"),
    };
    answer(&mut el, Reply::Armed(true));
    (el, id, buf)
}

/// A loop with one established TCP flow; returns its id.
fn with_tcp_flow(flags: i32) -> (EventLoop, usize) {
    let mut el = new_loop(Config::default(), flags);
    from_guest(&mut el, &frame(guest(), host(), 6, &syn()), NOW);
    answer(&mut el, Reply::OpenedTcp(Some((9, 256_000))));
    let id = match actions(&el)[0] {
        Op::ArmPoll { id, .. } => id,
        o => panic!("unexpected action {o:?}"),
    };
    el.complete(id as u64, POLL_OUT as i32, NOW);
    answer(&mut el, Reply::SockError(0));
    (el, id)
}

#[test]
fn zero_buffers_are_refused() {
    let cfg = Config { buffers: 0, ..Config::default() };
    assert!(EventLoop::new(&cfg, Offloads::default()).is_none());
}

#[test]
fn start_submits_read_and_timer() {
    let mut el = new_loop(Config::default(), 0);
    el.start();
    assert_eq!(el.ops(), &[Op::ArmTapRead { buf: el.tap_buf() }, Op::ArmTimer]);
    assert_eq!(el.request(), Request::Wait);
}

#[test]
fn tap_end_error_and_stop() {
    let mut el = new_loop(Config::default(), 0);
    el.complete(TAP_UD, 0, NOW);
    assert_eq!(el.request(), Request::Stop);
    el.complete(TAP_UD, -5, NOW);
    assert_eq!(el.request(), Request::Fail(5));
    el.complete(STOP_UD, 1, NOW);
    assert_eq!(el.request(), Request::Stop);
    el.complete(CANCEL_UD, -2, NOW);
    assert_eq!(el.request(), Request::Wait);
    assert!(el.ops().is_empty());
}

#[test]
fn impossible_completions_and_answers() {
    let (el, id, _) = with_udp_flow(Config::default(), 0);
    assert!(!el.ready(TAP_UD, BUF_SIZE as i32 + 1));
    assert!(el.ready(TAP_UD, BUF_SIZE as i32));
    assert!(!el.ready(id as u64, 262_145));
    assert!(!el.ready(id as u64, i32::MIN));
    assert!(el.ready(999, i32::MAX));
    assert!(!el.accepts(&Reply::Policy(true)));
    let mut el = new_loop(Config::default(), 0);
    from_guest(&mut el, &frame(guest(), host(), 17, &udp(1, 2, b"x")), NOW);
    assert!(!el.ready(TIMER_UD, 0));
    assert!(!el.accepts(&Reply::Sent(0)));
    assert!(el.accepts(&Reply::Opened(None)));
}

#[test]
fn foreign_frames_are_ignored() {
    let mut el = new_loop(Config::default(), 0);
    let read = Op::ArmTapRead { buf: el.tap_buf() };
    let f = frame(Ipv4Addr::new(169, 254, 1, 3), host(), 17, &udp(1, 2, b"x"));
    for f in [f, vec![0u8; 60], frame(guest(), host(), 17, &[0; 7])] {
        from_guest(&mut el, &f, NOW);
        assert_eq!(el.ops(), &[Op::Count(Counter::TapIn(f.len())), read]);
        assert_eq!(el.request(), Request::Wait);
    }
    from_guest(&mut el, &frame(guest(), host(), 99, &[0; 40]), NOW);
    assert_eq!(actions(&el), vec![read]);
}

#[test]
fn udp_flow_is_opened_and_used() {
    let mut el = new_loop(Config::default(), 0);
    from_guest(&mut el, &frame(guest(), host(), 17, &udp(40000, 53, b"query")), NOW);
    assert_eq!(el.request(), Request::OpenUdp(to(host(), 53)));
    assert!(actions(&el).is_empty());
    answer(&mut el, Reply::Opened(Some(7)));
    let (id, buf) = match el.request() {
        Request::ArmRecv { id, fd: 7, buf, start: HEADROOM, end: BUF_SIZE } => (id, buf),
        r => panic!("unexpected request {r:?}"),
    };
    assert_ne!(buf, el.tap_buf());
    answer(&mut el, Reply::Armed(true));
    let sent = vec![
        Op::Send { fd: 7, start: 52, end: 57 },
        Op::ArmTapRead { buf: el.tap_buf() },
    ];
    assert_eq!(actions(&el), sent);
    assert_eq!(el.bytes(el.tap_buf(), 52, 57), b"query");
    // The next datagram takes the flow that exists.
    from_guest(&mut el, &frame(guest(), host(), 17, &udp(40000, 53, b"again")), NOW);
    assert_eq!(actions(&el), sent);
    // A reply is framed and the receive submitted again.
    el.bytes_mut(buf)[HEADROOM..HEADROOM + 4].copy_from_slice(b"pong");
    el.complete(id as u64, 4, NOW);
    assert_eq!(
        actions(&el),
        vec![
            Op::WriteTap { buf, start: HEADROOM - 52, end: HEADROOM + 4 },
            Op::ArmRecv { id, fd: 7, buf, start: HEADROOM, end: BUF_SIZE },
        ]
    );
    assert_eq!(counters(&el), vec![Counter::TapOut(56)]);
    let f = frames(&el).remove(0);
    assert_eq!(EthHdr::parse(&f[10..]).unwrap().dst, [2; 6]);
    assert_eq!(GuestFrame::parse(&f).unwrap().src_ip, IpAddr::V4(host()));
    assert_eq!(&f[52..], b"pong");
}

#[test]
fn failed_sockets_leave_nothing() {
    let read = |el: &EventLoop| vec![Op::ArmTapRead { buf: el.tap_buf() }];
    let mut el = new_loop(Config::default(), 0);
    let f = frame(guest(), host(), 17, &udp(40000, 53, b"query"));
    from_guest(&mut el, &f, NOW);
    answer(&mut el, Reply::Opened(None));
    assert_eq!(actions(&el), read(&el));
    // A receive that cannot be submitted: nothing is sent.
    from_guest(&mut el, &f, NOW);
    answer(&mut el, Reply::Opened(Some(7)));
    answer(&mut el, Reply::Armed(false));
    assert_eq!(actions(&el), read(&el));
    from_guest(&mut el, &frame(guest(), host(), 6, &syn()), NOW);
    answer(&mut el, Reply::OpenedTcp(None));
    assert_eq!(actions(&el), read(&el));
}

#[test]
fn loopback_is_refused_by_default() {
    let mut el = new_loop(Config::default(), 0);
    let lo = Ipv4Addr::new(127, 0, 0, 1);
    for f in [
        frame(guest(), lo, 17, &udp(1, 2, b"xyz")),
        frame(guest(), lo, 6, &syn()),
        frame(guest(), lo, 1, &[8, 0, 0, 0, 1, 2, 0, 1]),
    ] {
        from_guest(&mut el, &f, NOW);
        assert_unreachable(&el, &f, lo);
    }
}

#[test]
fn refused_nat64_echo_keeps_its_type() {
    let prefix = Ipv6Addr::new(0x64, 0xff9b, 0, 0, 0, 0, 0, 0);
    let cfg = Config { nat64_prefix: Some(prefix), ..Config::default() };
    let lo = Ipv4Addr::new(127, 0, 0, 1);
    let f = frame(guest(), lo, 1, &[8, 0, 0, 0, 1, 2, 0, 1]);
    let mut el = new_loop(cfg, 0);
    from_guest(&mut el, &f, NOW);
    assert_unreachable(&el, &f, lo);
    let mut el = new_loop(Config { allow_flow: Some(FlowFilter {}), ..cfg }, 0);
    from_guest(&mut el, &f, NOW);
    answer(&mut el, Reply::Policy(false));
    assert_unreachable(&el, &f, lo);
}

#[test]
fn mapped_loopback_is_refused_by_default() {
    let cfg = Config::default();
    let mut el = new_loop(cfg, 0);
    let packet = |dst: Ipv6Addr, proto: u8, l4: &[u8]| {
        let mut f = vec![0u8; 64];
        EthHdr { dst: [4; 6], src: [2; 6], ethertype: 0x86dd }.write(&mut f[10..]);
        Ipv6Hdr::write(&mut f[24..], cfg.guest6, dst, proto, l4.len() as u16);
        f.extend_from_slice(l4);
        f
    };
    let lo = Ipv6Addr::new(0, 0, 0, 0, 0, 0xffff, 0x7f00, 1);
    for f in [packet(lo, 17, &udp(1, 2, b"x")), packet(lo, 6, &syn())] {
        from_guest(&mut el, &f, NOW);
        let read = Op::ArmTapRead { buf: el.tap_buf() };
        assert!(matches!(actions(&el)[..], [Op::WriteTap { .. }, o] if o == read));
        assert_eq!(el.request(), Request::Wait);
        let r = frames(&el).remove(0);
        let g = GuestFrame::parse(&r).unwrap();
        assert_eq!((g.src_ip, g.dst_ip), (IpAddr::V6(lo), IpAddr::V6(cfg.guest6)));
        // Address unreachable, around the IP header and eight bytes.
        assert_eq!((g.proto, &r[64..66]), (58, &[1u8, 3][..]));
        assert_eq!(&r[72..], &f[24..72]);
        let pseudo = pseudo_v6(lo, cfg.guest6, 58, 56);
        assert_eq!(checksum(&r[64..], pseudo), 0);
    }
    let other = Ipv6Addr::new(0, 0, 0, 0, 0, 0xffff, 0xc000, 0x0207);
    from_guest(&mut el, &packet(other, 6, &syn()), NOW);
    assert_eq!(el.request(), Request::OpenTcp(SocketAddr { ip: IpAddr::V6(other), port: 80 }));
}

#[test]
fn caller_decides_on_flows() {
    let cfg = Config { allow_flow: Some(FlowFilter {}), ..Config::default() };
    let lo = Ipv4Addr::new(127, 0, 0, 1);
    let mut el = new_loop(cfg, 0);
    let f = frame(guest(), lo, 17, &udp(1, 2, b"x"));
    let dst = FlowDst { proto: 17, ip: IpAddr::V4(lo), port: 2 };
    from_guest(&mut el, &f, NOW);
    assert_eq!(el.request(), Request::Policy(dst));
    assert!(actions(&el).is_empty());
    answer(&mut el, Reply::Policy(false));
    assert_unreachable(&el, &f, lo);
    from_guest(&mut el, &f, NOW);
    answer(&mut el, Reply::Policy(true));
    assert_eq!(el.request(), Request::OpenUdp(to(lo, 2)));
    answer(&mut el, Reply::Opened(None));
    from_guest(&mut el, &frame(guest(), host(), 6, &syn()), NOW);
    let dst = FlowDst { proto: 6, ip: IpAddr::V4(host()), port: 80 };
    assert_eq!(el.request(), Request::Policy(dst));
    answer(&mut el, Reply::Policy(false));
    assert_unreachable(&el, &frame(guest(), host(), 6, &syn()), host());
    from_guest(&mut el, &frame(guest(), host(), 6, &syn()), NOW);
    assert_eq!(el.request(), Request::Policy(dst));
    answer(&mut el, Reply::Policy(true));
    assert_eq!(el.request(), Request::OpenTcp(to(host(), 80)));
}

#[test]
fn gateway_dns_goes_to_the_resolver() {
    let gateway = Ipv4Addr::new(169, 254, 1, 1);
    let resolver = to(Ipv4Addr::new(127, 0, 0, 53), 53);
    let mut el = new_loop(Config::default(), 0);
    from_guest(&mut el, &frame(guest(), gateway, 17, &udp(1, 53, b"x")), NOW);
    assert_eq!(el.request(), Request::Resolver);
    answer(&mut el, Reply::Resolver(Some(resolver)));
    assert_eq!(el.request(), Request::OpenUdp(resolver));
    answer(&mut el, Reply::Opened(None));
    from_guest(&mut el, &frame(guest(), gateway, 17, &udp(1, 53, b"x")), NOW);
    answer(&mut el, Reply::Resolver(None));
    assert_eq!(el.request(), Request::Wait);
    // Another port is no DNS.
    from_guest(&mut el, &frame(guest(), gateway, 17, &udp(1, 54, b"x")), NOW);
    assert_eq!(el.request(), Request::OpenUdp(to(gateway, 54)));
    let mut el = new_loop(Config { dns_forward: false, ..Config::default() }, 0);
    from_guest(&mut el, &frame(guest(), gateway, 17, &udp(1, 53, b"x")), NOW);
    assert_eq!(el.request(), Request::OpenUdp(to(gateway, 53)));
}

#[test]
fn nat64_maps_targets_and_pings() {
    let prefix = Ipv6Addr::new(0x64, 0xff9b, 0, 0, 0, 0, 0, 0);
    let mapped = IpAddr::V6(Ipv6Addr::new(0x64, 0xff9b, 0, 0, 0, 0, 0xc000, 0x0207));
    let cfg = Config { nat64_prefix: Some(prefix), ..Config::default() };
    let mut el = new_loop(cfg, 0);
    from_guest(&mut el, &frame(guest(), host(), 17, &udp(1, 2, b"x")), NOW);
    assert_eq!(el.request(), Request::OpenUdp(SocketAddr { ip: mapped, port: 2 }));
    answer(&mut el, Reply::Opened(None));
    from_guest(&mut el, &frame(guest(), host(), 6, &syn()), NOW);
    assert_eq!(el.request(), Request::OpenTcp(SocketAddr { ip: mapped, port: 80 }));
    answer(&mut el, Reply::OpenedTcp(None));
    from_guest(&mut el, &frame(guest(), host(), 1, &[8, 0, 0, 0, 1, 2, 0, 1]), NOW);
    assert_eq!(el.request(), Request::OpenPing(SocketAddr { ip: mapped, port: 0 }));
    // The request leaves as ICMPv6.
    assert_eq!(el.bytes(el.tap_buf(), 44, 45), &[128]);
    answer(&mut el, Reply::Opened(Some(5)));
    let (id, buf) = match el.request() {
        Request::ArmRecv { id, buf, .. } => (id, buf),
        r => panic!("unexpected request {r:?}"),
    };
    answer(&mut el, Reply::Armed(true));
    // The reply comes back as ICMP.
    let reply = [129, 0, 0, 0, 9, 9, 0, 1];
    el.bytes_mut(buf)[HEADROOM..HEADROOM + 8].copy_from_slice(&reply);
    el.complete(id as u64, 8, NOW);
    let f = frames(&el).remove(0);
    assert_eq!(EchoHdr::parse(&f[44..]).unwrap().id, 0x0102);
    assert_eq!(f[44], 0);
    // Anything else is dropped.
    el.bytes_mut(buf)[HEADROOM] = 1;
    el.complete(id as u64, 8, NOW);
    assert!(frames(&el).is_empty());
}

#[test]
fn ping_flow() {
    let mut el = new_loop(Config::default(), 0);
    // Only echo requests are forwarded.
    from_guest(&mut el, &frame(guest(), host(), 1, &[0, 0, 0, 0, 1, 2, 0, 1]), NOW);
    assert_eq!(el.request(), Request::Wait);
    from_guest(&mut el, &frame(guest(), host(), 1, &[8, 0, 0, 0, 1, 2, 0, 1]), NOW);
    assert_eq!(el.request(), Request::OpenPing(to(host(), 0)));
    answer(&mut el, Reply::Opened(Some(5)));
    let (id, buf) = match el.request() {
        Request::ArmRecv { id, buf, .. } => (id, buf),
        r => panic!("unexpected request {r:?}"),
    };
    answer(&mut el, Reply::Armed(true));
    assert_eq!(actions(&el)[0], Op::Send { fd: 5, start: 44, end: 52 });
    el.bytes_mut(buf)[HEADROOM..HEADROOM + 8].copy_from_slice(&[0, 0, 0, 0, 9, 9, 0, 1]);
    el.complete(id as u64, 8, NOW);
    let f = frames(&el).remove(0);
    assert_eq!(EchoHdr::parse(&f[44..]).unwrap().id, 0x0102);
    assert_eq!(checksum(&f[44..], 0), 0);
    // A failed receive is just submitted again.
    el.complete(id as u64, -111, NOW);
    assert!(matches!(actions(&el)[..], [Op::ArmRecv { .. }]));
}

#[test]
fn udp_errors_are_reported() {
    let (mut el, id, buf) = with_udp_flow(Config::default(), 0);
    el.complete(id as u64, -111, NOW);
    let f = frames(&el).remove(0);
    assert_eq!(&f[44..46], &[3, 3]);
    assert!(matches!(actions(&el)[..], [Op::WriteTap { .. }, Op::ArmRecv { .. }]));
    el.complete(id as u64, -11, NOW);
    assert_eq!(
        actions(&el),
        vec![Op::ArmRecv { id, fd: 7, buf, start: HEADROOM, end: BUF_SIZE }]
    );
}

#[test]
fn equal_datagrams_leave_as_one_super_frame() {
    let (mut el, id, buf) = with_udp_flow(Config::default(), TUN_F_CSUM | TUN_F_USO4);
    let put = |el: &mut EventLoop, at: usize, data: &[u8]| {
        el.bytes_mut(buf)[HEADROOM + at..HEADROOM + at + data.len()].copy_from_slice(data);
    };
    put(&mut el, 0, b"aaaa");
    el.complete(id as u64, 4, NOW);
    let next = |at: usize| Request::RecvUdp { fd: 7, buf, start: HEADROOM + at, end: BUF_SIZE };
    assert_eq!(el.request(), next(4));
    assert!(!el.accepts(&Reply::Datagram(Some(262_141))));
    put(&mut el, 4, b"bbbb");
    answer(&mut el, Reply::Datagram(Some(4)));
    assert_eq!(el.request(), next(8));
    // A shorter datagram ends the super-frame.
    put(&mut el, 8, b"cc");
    answer(&mut el, Reply::Datagram(Some(2)));
    let f = frames(&el).remove(0);
    assert_eq!(&f[52..], b"aaaabbbbcc");
    assert_eq!(&f[..10], &[1, 5, 42, 0, 4, 0, 34, 0, 6, 0]);
    assert_eq!(el.request(), Request::Wait);
}

#[test]
fn larger_datagram_starts_a_new_super_frame() {
    let (mut el, id, buf) = with_udp_flow(Config::default(), TUN_F_CSUM | TUN_F_USO4);
    let put = |el: &mut EventLoop, at: usize, data: &[u8]| {
        el.bytes_mut(buf)[HEADROOM + at..HEADROOM + at + data.len()].copy_from_slice(data);
    };
    put(&mut el, 0, b"aa");
    el.complete(id as u64, 2, NOW);
    put(&mut el, 2, b"bbbbb");
    answer(&mut el, Reply::Datagram(Some(5)));
    assert_eq!(el.request(), Request::Flush);
    let f = frames(&el).remove(0);
    assert_eq!(&f[52..], b"aa");
    // A single datagram carries no GSO metadata.
    assert_eq!(&f[..10], &[0u8; 10]);
    answer(&mut el, Reply::Flushed);
    assert_eq!(
        el.request(),
        Request::RecvUdp { fd: 7, buf, start: HEADROOM + 5, end: BUF_SIZE }
    );
    answer(&mut el, Reply::Datagram(None));
    let f = frames(&el).remove(0);
    assert_eq!(&f[52..], b"bbbbb");
    assert!(matches!(actions(&el)[..], [Op::WriteTap { .. }, Op::ArmRecv { .. }]));
}

#[test]
fn super_frame_stays_within_a_packet() {
    let (mut el, id, _) = with_udp_flow(Config::default(), TUN_F_CSUM | TUN_F_USO4);
    el.complete(id as u64, 40_000, NOW);
    answer(&mut el, Reply::Datagram(Some(40_000)));
    assert_eq!(el.request(), Request::Flush);
    answer(&mut el, Reply::Flushed);
    // An empty read ends it too.
    answer(&mut el, Reply::Datagram(Some(0)));
    assert_eq!(frames(&el).remove(0).len(), 52 + 40_000);
    assert!(counters(&el).contains(&Counter::SockRecv { empty: true }));
    // Empty datagrams are not coalesced.
    el.complete(id as u64, 0, NOW);
    assert_eq!(frames(&el).remove(0).len(), 52);
}

#[test]
fn dry_pool_evicts_the_oldest_flow() {
    let (mut el, id, _) = with_udp_flow(Config { buffers: 2, ..Config::default() }, 0);
    let f = frame(guest(), host(), 17, &udp(40001, 53, b"query"));
    from_guest(&mut el, &f, NOW);
    answer(&mut el, Reply::Opened(Some(8)));
    assert_eq!(
        el.ops(),
        &[
            Op::Count(Counter::FlowEvicted),
            Op::Count(Counter::Dump),
            Op::Cancel { id },
            Op::Close { fd: 8 },
            Op::ArmTapRead { buf: el.tap_buf() },
        ]
    );
    // The slot is free once the cancelled receive completes.
    el.complete(id as u64, -125, NOW);
    assert_eq!(el.ops(), &[Op::Close { fd: 7 }]);
    from_guest(&mut el, &f, NOW);
    answer(&mut el, Reply::Opened(Some(8)));
    assert!(matches!(el.request(), Request::ArmRecv { fd: 8, .. }));
}

#[test]
fn idle_flows_expire() {
    let (mut el, id, _) = with_udp_flow(Config::default(), 0);
    el.complete(TIMER_UD, -62, NOW + FLOW_EXPIRY);
    assert_eq!(el.ops(), &[Op::ArmTimer]);
    el.complete(TIMER_UD, -62, NOW + FLOW_EXPIRY + 1);
    assert_eq!(
        el.ops(),
        &[Op::Count(Counter::Dump), Op::Cancel { id }, Op::ArmTimer]
    );
    // Closing flows are not closed again.
    el.complete(TIMER_UD, -62, NOW + FLOW_EXPIRY + 2);
    assert_eq!(el.ops(), &[Op::ArmTimer]);
    // Whatever the receive brought, the flow is gone.
    el.complete(id as u64, 5, NOW);
    assert_eq!(el.ops(), &[Op::Close { fd: 7 }]);
    el.complete(id as u64, 5, NOW);
    assert!(el.ops().is_empty());
    let mut el = new_loop(Config::default(), 0);
    el.complete(TIMER_UD, -62, 3);
    assert_eq!(el.ops(), &[Op::ArmTimer]);
}

#[test]
fn tcp_handshake() {
    let mut el = new_loop(Config::default(), 0);
    from_guest(&mut el, &frame(guest(), host(), 6, &syn()), NOW);
    assert_eq!(el.request(), Request::OpenTcp(to(host(), 80)));
    answer(&mut el, Reply::OpenedTcp(Some((9, 256_000))));
    let id = match actions(&el)[..] {
        [Op::ArmPoll { id, fd: 9, events: POLL_OUT }, Op::ArmTapRead { .. }] => id,
        ref a => panic!("unexpected actions {a:?}"),
    };
    // A SYN retransmit changes nothing.
    from_guest(&mut el, &frame(guest(), host(), 6, &syn()), NOW);
    assert!(matches!(actions(&el)[..], [Op::ArmTapRead { .. }]));
    el.complete(id as u64, POLL_OUT as i32, NOW);
    assert_eq!(el.request(), Request::SockError { fd: 9 });
    answer(&mut el, Reply::SockError(0));
    assert!(matches!(
        actions(&el)[..],
        [Op::WriteSegment { .. }, Op::ArmPoll { fd: 9, events: POLL_RECV, .. }]
    ));
    let (h, payload) = tcp_of(&frames(&el)[0]);
    assert_eq!((h.src_port, h.dst_port), (80, 40000));
    assert_eq!((h.seq, h.ack, h.flags), (ISN, 100, TCP_SYN | TCP_ACK));
    assert_eq!((h.window, h.mss, h.wscale), (65_535, Some(65_495), Some(7)));
    assert!(payload.is_empty());
    // The SYN-ACK was lost: it is sent again.
    from_guest(&mut el, &frame(guest(), host(), 6, &syn()), NOW);
    assert_eq!(tcp_of(&frames(&el)[0]).0.seq, ISN);
}

#[test]
fn refused_connections_are_reset() {
    for (events, err) in [(POLL_OUT, 111), (POLL_ERR, 0), (POLL_HUP, 0)] {
        let mut el = new_loop(Config::default(), 0);
        from_guest(&mut el, &frame(guest(), host(), 6, &syn()), NOW);
        answer(&mut el, Reply::OpenedTcp(Some((9, 256_000))));
        el.complete(0, events as i32, NOW);
        answer(&mut el, Reply::SockError(err));
        let (h, _) = tcp_of(&frames(&el)[0]);
        assert_eq!((h.flags, h.window), (TCP_RST | TCP_ACK, 0));
        assert!(actions(&el).contains(&Op::Close { fd: 9 }));
        // The flow is gone: a segment opens nothing.
        from_guest(&mut el, &frame(guest(), host(), 6, &segment(TCP_ACK, 1, 1, 1, b"")), NOW);
        assert_eq!(el.request(), Request::Wait);
    }
    let (mut el, id) = with_tcp_flow(0);
    el.complete(id as u64, -9, NOW);
    assert_eq!(tcp_of(&frames(&el)[0]).0.flags, TCP_RST | TCP_ACK);
    // The poll is still armed, so the slot waits for its completion.
    assert!(actions(&el).contains(&Op::Cancel { id }));
}

#[test]
fn guest_data_reaches_the_socket() {
    let (mut el, _) = with_tcp_flow(0);
    let tap = el.tap_buf();
    let data = |seq: u32, flags: u8, p: &[u8]| {
        frame(guest(), host(), 6, &segment(TCP_ACK | flags, seq, ISN + 1, 100, p))
    };
    from_guest(&mut el, &data(100, 0, b"hello"), NOW);
    assert_eq!(el.request(), Request::SendTcp { fd: 9, start: 64, end: 69 });
    assert_eq!(counters(&el)[1], Counter::GuestWindow(400));
    assert!(!el.accepts(&Reply::Sent(6)));
    answer(&mut el, Reply::Sent(5));
    // The first in-order segment is not acknowledged yet.
    assert_eq!(
        el.ops(),
        &[
            Op::Count(Counter::SockSend { accepted: 5, wanted: 5 }),
            Op::Count(Counter::AckDeferred),
            Op::ArmTapRead { buf: tap },
        ]
    );
    from_guest(&mut el, &data(105, 0, b"world"), NOW);
    answer(&mut el, Reply::Sent(5));
    assert_eq!(el.request(), Request::Queued { fd: 9 });
    answer(&mut el, Reply::Queued(Some(1_000)));
    let (h, _) = tcp_of(&frames(&el)[0]);
    assert_eq!((h.seq, h.ack, h.flags), (ISN + 1, 110, TCP_ACK));
    assert_eq!(h.window, 1992);
    // Out of order: dropped and answered with a duplicate ack.
    from_guest(&mut el, &data(500, 0, b"later"), NOW);
    assert_eq!(el.request(), Request::Queued { fd: 9 });
    answer(&mut el, Reply::Queued(None));
    let (h, _) = tcp_of(&frames(&el)[0]);
    assert_eq!((h.ack, h.window), (110, 0));
    // Partly taken.
    from_guest(&mut el, &data(110, TCP_PSH, b"abcdef"), NOW);
    answer(&mut el, Reply::Sent(2));
    answer(&mut el, Reply::Queued(Some(0)));
    assert_eq!(tcp_of(&frames(&el)[0]).0.ack, 112);
    // The end of the guest's stream.
    from_guest(&mut el, &data(112, TCP_FIN, b"cdef"), NOW);
    answer(&mut el, Reply::Sent(4));
    assert!(actions(&el).contains(&Op::ShutdownWrite { fd: 9 }));
    answer(&mut el, Reply::Queued(Some(0)));
    assert_eq!(tcp_of(&frames(&el)[0]).0.ack, 117);
}

/// Let the loop read `data` from the host socket.
fn host_data(el: &mut EventLoop, data: &[u8]) {
    match el.request() {
        Request::RecvTcp { buf, start, end, start2, end2, .. } => {
            let first = data.len().min(end - start);
            let b = el.bytes_mut(buf);
            b[start..start + first].copy_from_slice(&data[..first]);
            b[start2..start2 + data.len() - first].copy_from_slice(&data[first..]);
            assert!(data.len() - first <= end2 - start2);
        }
        r => panic!("unexpected request {r:?}"),
    }
    answer(el, Reply::Read(TcpRead::Data(data.len())));
}

fn poll_ready(el: &mut EventLoop, id: usize) {
    el.complete(id as u64, POLL_RECV as i32, NOW);
    answer(el, Reply::SockError(0));
}

fn guest_ack(el: &mut EventLoop, ack: u32, window: u16) {
    let m = segment(TCP_ACK, 100, ack, window, b"");
    from_guest(el, &frame(guest(), host(), 6, &m), NOW);
}

#[test]
fn host_data_reaches_the_guest() {
    let (mut el, id) = with_tcp_flow(0);
    guest_ack(&mut el, ISN + 1, 10_000);
    poll_ready(&mut el, id);
    let data: Vec<u8> = (0..2500u32).map(|i| i as u8).collect();
    host_data(&mut el, &data);
    assert_eq!(el.request(), Request::Queued { fd: 9 });
    answer(&mut el, Reply::Queued(Some(0)));
    // Segments of one MSS, in sequence.
    let f: Vec<(TcpHdr, Vec<u8>)> = frames(&el).iter().map(|f| tcp_of(f)).collect();
    let lens: Vec<(u32, usize)> = f.iter().map(|(h, p)| (h.seq, p.len())).collect();
    assert_eq!(lens, vec![(ISN + 1, 1000), (ISN + 1001, 1000), (ISN + 2001, 500)]);
    let all: Vec<u8> = f.iter().flat_map(|(_, p)| p.clone()).collect();
    assert_eq!(all, data);
    assert!(f.iter().all(|(h, _)| h.flags == TCP_ACK && h.window == 2000));
    // Drained and all sent: wait for more.
    assert!(matches!(actions(&el).last(), Some(Op::ArmPoll { events: POLL_RECV, .. })));
}

#[test]
fn host_data_as_super_frames() {
    let (mut el, id) = with_tcp_flow(TUN_F_CSUM | TUN_F_TSO4);
    guest_ack(&mut el, ISN + 1, 65_535);
    poll_ready(&mut el, id);
    host_data(&mut el, &vec![7u8; 100_000]);
    answer(&mut el, Reply::Queued(Some(0)));
    let f = frames(&el);
    assert_eq!(f.len(), 2);
    assert_eq!(tcp_of(&f[0]).1.len(), 65_475);
    assert_eq!(tcp_of(&f[1]).1.len(), 34_525);
    assert_eq!(&f[0][..10], &[1, 1, 54, 0, 0xe8, 3, 34, 0, 16, 0]);
}

#[test]
fn window_limits_and_acks_release() {
    let (mut el, id) = with_tcp_flow(0);
    guest_ack(&mut el, ISN + 1, 250); // 1000 bytes
    poll_ready(&mut el, id);
    host_data(&mut el, &[1u8; 1500]);
    assert!(counters(&el).contains(&Counter::BudgetShort));
    answer(&mut el, Reply::Queued(Some(0)));
    assert_eq!(frames(&el).len(), 1);
    // No poll while data waits in the ring.
    assert!(!actions(&el).iter().any(|o| matches!(o, Op::ArmPoll { .. })));
    // Nothing acknowledged: the window stays full.
    guest_ack(&mut el, ISN + 1, 250);
    assert!(counters(&el).contains(&Counter::WindowFull));
    assert_eq!(el.request(), Request::Wait);
    // An ack makes room; the socket is looked at first.
    guest_ack(&mut el, ISN + 801, 250);
    assert!(matches!(el.request(), Request::RecvTcp { fd: 9, .. }));
    answer(&mut el, Reply::Read(TcpRead::Again));
    assert!(counters(&el).contains(&Counter::SockRecv { empty: true }));
    answer(&mut el, Reply::Queued(Some(0)));
    let (h, p) = tcp_of(&frames(&el)[0]);
    assert_eq!((h.seq, p.len()), (ISN + 1001, 500));
    assert!(matches!(actions(&el)[..], [Op::WriteSegment { .. }, Op::ArmPoll { .. }, _]));
}

#[test]
fn ring_wraps_around() {
    let (mut el, id) = with_tcp_flow(TUN_F_CSUM | TUN_F_TSO4);
    guest_ack(&mut el, ISN + 1, 65_535);
    poll_ready(&mut el, id);
    host_data(&mut el, &vec![1u8; 250_000]);
    answer(&mut el, Reply::Queued(Some(0)));
    guest_ack(&mut el, ISN + 1 + 250_000, 65_535);
    poll_ready(&mut el, id);
    let data: Vec<u8> = (0..30_000u32).map(|i| (i % 251) as u8).collect();
    host_data(&mut el, &data);
    answer(&mut el, Reply::Queued(Some(0)));
    let (h, p) = tcp_of(&frames(&el)[0]);
    assert_eq!(h.seq, ISN + 1 + 250_000);
    assert_eq!(p, data);
    match actions(&el)[0] {
        Op::WriteSegment { start, end, start2, end2, .. } => {
            assert_eq!((end - start, end2 - start2), (12_144, 17_856));
        }
        o => panic!("unexpected action {o:?}"),
    }
}

#[test]
fn third_duplicate_ack_retransmits() {
    let (mut el, id) = with_tcp_flow(0);
    guest_ack(&mut el, ISN + 1, 10_000);
    poll_ready(&mut el, id);
    host_data(&mut el, b"lost bytes");
    answer(&mut el, Reply::Queued(Some(0)));
    guest_ack(&mut el, ISN + 1, 10_000);
    guest_ack(&mut el, ISN + 1, 10_000);
    assert_eq!(el.request(), Request::Wait);
    guest_ack(&mut el, ISN + 1, 10_000);
    assert!(counters(&el).contains(&Counter::DupAckRetransmit));
    answer(&mut el, Reply::Read(TcpRead::Again));
    answer(&mut el, Reply::Queued(Some(0)));
    let (h, p) = tcp_of(&frames(&el)[0]);
    assert_eq!((h.seq, &p[..]), (ISN + 1, &b"lost bytes"[..]));
}

#[test]
fn stalled_flows_retransmit() {
    let (mut el, id) = with_tcp_flow(0);
    guest_ack(&mut el, ISN + 1, 10_000);
    poll_ready(&mut el, id);
    host_data(&mut el, b"lost bytes");
    answer(&mut el, Reply::Queued(Some(0)));
    el.complete(TIMER_UD, -62, NOW + RTO);
    assert_eq!(el.ops(), &[Op::ArmTimer]);
    el.complete(TIMER_UD, -62, NOW + RTO + 1);
    assert_eq!(el.ops(), &[Op::Count(Counter::RtoRetransmit)]);
    answer(&mut el, Reply::Read(TcpRead::Again));
    answer(&mut el, Reply::Queued(Some(0)));
    assert_eq!(tcp_of(&frames(&el)[0]).0.seq, ISN + 1);
    assert_eq!(actions(&el).last(), Some(&Op::ArmTimer));
    assert_eq!(el.request(), Request::Wait);
}

#[test]
fn both_sides_close() {
    let (mut el, id) = with_tcp_flow(0);
    guest_ack(&mut el, ISN + 1, 10_000);
    poll_ready(&mut el, id);
    // The host closes: FIN once everything is acknowledged.
    answer(&mut el, Reply::Read(TcpRead::Data(0)));
    assert_eq!(el.request(), Request::Queued { fd: 9 });
    answer(&mut el, Reply::Queued(Some(0)));
    let (h, _) = tcp_of(&frames(&el)[0]);
    assert_eq!((h.seq, h.flags), (ISN + 1, TCP_FIN | TCP_ACK));
    // The guest acknowledges and closes too.
    let m = segment(TCP_ACK | TCP_FIN, 100, ISN + 2, 10_000, b"");
    from_guest(&mut el, &frame(guest(), host(), 6, &m), NOW);
    assert!(actions(&el).contains(&Op::ShutdownWrite { fd: 9 }));
    answer(&mut el, Reply::Queued(Some(0)));
    assert_eq!(tcp_of(&frames(&el)[0]).0.ack, 101);
    assert!(actions(&el).contains(&Op::Close { fd: 9 }));
    guest_ack(&mut el, ISN + 2, 10_000);
    assert_eq!(el.ops().len(), 2);
}

#[test]
fn guest_reset_and_read_errors() {
    let (mut el, id) = with_tcp_flow(0);
    let m = segment(TCP_RST, 100, 0, 0, b"");
    from_guest(&mut el, &frame(guest(), host(), 6, &m), NOW);
    assert!(actions(&el).contains(&Op::Cancel { id }));
    assert!(frames(&el).is_empty());
    el.complete(id as u64, -125, NOW);
    assert_eq!(el.ops(), &[Op::Close { fd: 9 }]);

    let (mut el, id) = with_tcp_flow(0);
    guest_ack(&mut el, ISN + 1, 10_000);
    poll_ready(&mut el, id);
    answer(&mut el, Reply::Read(TcpRead::Failed));
    assert_eq!(tcp_of(&frames(&el)[0]).0.flags, TCP_RST | TCP_ACK);
    assert!(actions(&el).contains(&Op::Close { fd: 9 }));
}

#[test]
fn ipv6_guest() {
    let cfg = Config::default();
    let dst = Ipv6Addr::new(0x2001, 0xdb8, 0, 0, 0, 0, 0, 7);
    let mut f = vec![0u8; 64];
    EthHdr { dst: [4; 6], src: [2; 6], ethertype: 0x86dd }.write(&mut f[10..]);
    let m = udp(40000, 53, b"six");
    Ipv6Hdr::write(&mut f[24..], cfg.guest6, dst, 17, m.len() as u16);
    f.extend_from_slice(&m);
    let mut el = new_loop(cfg, 0);
    from_guest(&mut el, &f, NOW);
    assert_eq!(el.request(), Request::OpenUdp(SocketAddr { ip: IpAddr::V6(dst), port: 53 }));
    answer(&mut el, Reply::Opened(Some(7)));
    let (id, buf) = match el.request() {
        Request::ArmRecv { id, buf, .. } => (id, buf),
        r => panic!("unexpected request {r:?}"),
    };
    answer(&mut el, Reply::Armed(true));
    assert_eq!(actions(&el)[0], Op::Send { fd: 7, start: 72, end: 75 });
    el.bytes_mut(buf)[HEADROOM..HEADROOM + 2].copy_from_slice(b"ok");
    el.complete(id as u64, 2, NOW);
    let g = GuestFrame::parse(&frames(&el)[0]).unwrap();
    assert_eq!((g.src_ip, g.dst_ip), (IpAddr::V6(dst), IpAddr::V6(cfg.guest6)));
}
