//! The paths of packets through the event loop: what the guest sends
//! reaches the host's sockets, and what those receive reaches the guest.

use vstd::prelude::*;

use crate::addr::{IpAddr, SocketAddr};
use crate::buf;
use crate::flow;
use crate::flow::{Fd, Flow, FlowKey, FlowKind, Instant};
use crate::frame;
use crate::frame::GuestFrame;
use crate::proto;
use crate::proto::tcp as wire_tcp;
use crate::proto::tcp::TcpHdr;
use crate::proto::{EchoHdr, UdpHdr};
use crate::tcp::{Tcp, TcpState};
use crate::uring::laws;
use crate::uring::state::{
    After, Counter, Op, Pending, Reply, Request, State, TAP_UD,
};
use crate::wire;
use crate::FlowDst;

verus! {

/// The guest frame `g` of `len` bytes is in the tap buffer, and nothing
/// else is under way.
pub open spec fn arrived(s: State, len: i32, g: GuestFrame) -> bool {
    &&& s.wf()
    &&& s.is_idle()
    &&& 0 < len <= 262_400
    &&& GuestFrame::spec_parse(s.tap().subrange(0, len as int)) == Some(g)
    &&& g.src_ip == IpAddr::V4(s.cfg.guest4) || g.src_ip == IpAddr::V6(s.cfg.guest6)
}

/// The L4 message of the guest frame `g`.
pub open spec fn message(s: State, g: GuestFrame) -> Seq<u8> {
    s.tap().subrange(g.l4_start as int, g.l4_end as int)
}

/// The two bytes at `i` as a number, most significant first.
pub open spec fn number_at(b: Seq<u8>, i: int) -> int {
    b[i] * 256 + b[i + 1]
}

/// Action `k` of `t` hands exactly `data` to the socket `fd`.
pub open spec fn sends(t: State, k: int, fd: Fd, data: Seq<u8>) -> bool {
    &&& 0 <= k < t.ops.len()
    &&& t.ops[k] matches Op::Send { fd: to, start, end } && to == fd && start <= end
        <= t.tap().len() && t.tap().subrange(start as int, end as int) == data
}

/// From `s` to `t` the guest's frame was dropped: nothing but the counters
/// and the guest's hardware address changes, and the tap is read again.
pub open spec fn dropped(s: State, t: State) -> bool {
    &&& t.flows == s.flows && t.pool == s.pool && t.cfg == s.cfg
    &&& t.is_idle() && t.ask is Wait
    &&& t.ops.len() == 2 && t.ops[0] is Count
    &&& t.ops[1] == Op::ArmTapRead { buf: s.tap_buf }
}

/// In `t` a socket was asked for, for a new flow `key`. Once it is open as
/// `fd` the flow has it and a buffer of its own, and a receive into all of
/// that buffer behind the headroom is asked for; once that is submitted,
/// exactly `data` goes to the socket and the tap is read again. Where the
/// socket cannot be opened the tap is read again and no flow is made.
pub open spec fn served(
    t: State,
    key: FlowKey,
    kind: FlowKind,
    fd: Fd,
    data: Seq<u8>,
    now: Instant,
    later: Instant,
) -> bool {
    let failed = t.resume(Reply::Opened(None), now);
    let u = t.resume(Reply::Opened(Some(fd)), now);
    let id = t.flows.next_id();
    let v = u.resume(Reply::Armed(true), later);
    &&& failed.flows == t.flows && failed.pool == t.pool
    &&& failed.ops == seq![Op::ArmTapRead { buf: t.tap_buf }] && failed.ask is Wait
    &&& t.pool.free.len() > 0 ==> {
        &&& u.holds(id) && u.flow(id).key == key && u.flow(id).kind == kind
        &&& u.flow(id).sock == fd && u.flow(id).buf == t.pool.free.last()
        &&& u.flow(id).last_active == now && !u.flow(id).closing && u.flow(id).tcp is None
        &&& u.flows.lookup(key) == Some(id)
        &&& u.ask == Request::ArmRecv {
            id,
            fd,
            buf: t.pool.free.last(),
            start: 256,
            end: 262_400,
        }
        &&& u.ops.len() == 0
        &&& v.ops.len() == 2 && sends(v, 0, fd, data)
        &&& v.ops[1] == Op::ArmTapRead { buf: t.tap_buf }
        &&& v.flows.lookup(key) == Some(id) && v.flow(id).sock == fd
        &&& v.flow(id).last_active == later
        &&& v.is_idle() && v.ask is Wait
    }
}

/// The flow that a socket `fd` is opened for.
spec fn flow_for(t: State, key: FlowKey, kind: FlowKind, fd: Fd, now: Instant) -> Flow {
    Flow {
        key,
        kind,
        sock: fd,
        buf: t.pool.free.last(),
        last_active: now,
        tcp: None,
        closing: false,
    }
}

/// The socket of a new flow is open.
proof fn lemma_socket_open(
    t: State,
    key: FlowKey,
    kind: FlowKind,
    start: usize,
    end: usize,
    fd: Fd,
    now: Instant,
)
    requires
        t.pool.free.len() > 0,
        t.flows.wf(),
        t.flows.slots.len() < usize::MAX,
        t.pending == (Pending::Opening { key, kind, start, end }),
    ensures
        t.resume(Reply::Opened(Some(fd)), now) == ({
            let f = flow_for(t, key, kind, fd, now);
            let id = t.flows.next_id();
            State {
                pool: t.pool.alloced(),
                flows: t.flows.inserted(f),
                pending: Pending::Arming { id, start, end },
                ask: Request::ArmRecv { id, fd, buf: f.buf, start: 256, end: 262_400 },
                ops: Seq::empty(),
                hdrs: Seq::empty(),
                ..t
            }
        }),
{
    let f = flow_for(t, key, kind, fd, now);
    flow::law_insert(t.flows, f);
    let a = State { pending: Pending::Idle, ..t.begun() };
    assert(a.new_flow_value(key, kind, fd, None, now) == f);
    assert(t.resume(Reply::Opened(Some(fd)), now) == a.opened(
        Some(fd),
        key,
        kind,
        start,
        end,
        now,
    ));
}

/// Bytes `start..end` of the tap buffer go to flow `id`, and the tap is
/// read again.
proof fn lemma_delivered(a: State, id: usize, start: usize, end: usize, now: Instant)
    requires
        a.holds(id),
        a.is_idle(),
        a.after is Tap,
    ensures
        a.deliver(id, start, end, now).proceed(now) == (State {
            flows: a.flows.with_flow(id, Flow { last_active: now, ..a.flow(id) }),
            after: After::Nothing,
            ask: Request::Wait,
            ops: a.ops.push(Op::Send { fd: a.flow(id).sock, start, end }).push(
                Op::ArmTapRead { buf: a.tap_buf },
            ),
            ..a
        }),
{
    laws::lemma_read_on(a.deliver(id, start, end, now), now);
}

/// The way from the open socket to the first datagram on it.
proof fn lemma_served(
    t: State,
    key: FlowKey,
    kind: FlowKind,
    start: usize,
    end: usize,
    fd: Fd,
    now: Instant,
    later: Instant,
)
    requires
        t.flows.wf(),
        t.flows.slots.len() < usize::MAX,
        t.after is Tap,
        t.pending == (Pending::Opening { key, kind, start, end }),
        start <= end <= t.tap().len(),
    ensures
        served(t, key, kind, fd, t.tap().subrange(start as int, end as int), now, later),
{
    let a = State { pending: Pending::Idle, ..t.begun() };
    assert(t.resume(Reply::Opened(None), now) == a.proceed(now));
    laws::lemma_read_on(a, now);
    assert(a.ops.push(Op::ArmTapRead { buf: t.tap_buf }) =~= seq![
        Op::ArmTapRead { buf: t.tap_buf },
    ]);
    if t.pool.free.len() > 0 {
        let f = flow_for(t, key, kind, fd, now);
        let id = t.flows.next_id();
        flow::law_insert(t.flows, f);
        lemma_socket_open(t, key, kind, start, end, fd, now);
        let u = t.resume(Reply::Opened(Some(fd)), now);
        let b = State { pending: Pending::Idle, ..u.begun() };
        lemma_delivered(b, id, start, end, later);
        let v = u.resume(Reply::Armed(true), later);
        assert(v == b.deliver(id, start, end, later).proceed(later));
        assert(v.tap() == t.tap());
    }
}

/// In `t` the frame with a datagram for the new flow `key` has arrived.
/// The caller's policy is asked about where it goes, if there is one. Then
/// a socket to there is asked for, or the host's resolver where `dns` is
/// set and then a socket to it, and the flow is served.
pub open spec fn brought_up(
    t: State,
    key: FlowKey,
    kind: FlowKind,
    dns: bool,
    resolver: SocketAddr,
    fd: Fd,
    data: Seq<u8>,
    now: Instant,
    later: Instant,
) -> bool {
    let x = if t.cfg.allow_flow is Some {
        t.resume(Reply::Policy(true), now)
    } else {
        t
    };
    let y = if dns {
        x.resume(Reply::Resolver(Some(resolver)), now)
    } else {
        x
    };
    let to = if dns {
        resolver
    } else {
        key.dst
    };
    &&& t.ops.len() == 1 && t.ops[0] is Count
    &&& t.cfg.allow_flow is Some ==> t.ask == Request::Policy(
        FlowDst { proto: key.proto, ip: key.dst.ip, port: key.dst.port },
    ) && x.ops.len() == 0
    &&& dns ==> x.ask is Resolver && y.ops.len() == 0
    &&& y.ask == (if kind == FlowKind::Udp {
        Request::OpenUdp(t.cfg.spec_nat64_target(to))
    } else {
        Request::OpenPing(t.cfg.spec_nat64_target(to))
    })
    &&& y.pool == t.pool && y.flows == t.flows && y.tap_buf == t.tap_buf
    &&& served(y, key, kind, fd, data, now, later)
}

/// The way from a new flow to its first datagram.
proof fn lemma_brought_up(
    a: State,
    key: FlowKey,
    kind: FlowKind,
    l4: usize,
    start: usize,
    end: usize,
    resolver: SocketAddr,
    fd: Fd,
    now: Instant,
    later: Instant,
)
    requires
        a.flows.wf(),
        a.flows.slots.len() < usize::MAX,
        a.is_idle(),
        a.after is Tap,
        a.ops.len() == 1 && a.ops[0] is Count,
        kind != FlowKind::Tcp,
        kind == FlowKind::Ping ==> key.dst.port == 0,
        start <= end <= a.tap().len(),
        a.cfg.allow_flow is Some || !key.dst.ip.spec_loopback(),
    ensures
        brought_up(
            a.new_flow(key, kind, l4, start, end).proceed(now),
            key,
            kind,
            kind == FlowKind::Udp && a.cfg.dns_forward && key.dst.port == 53 && (key.dst.ip
                == IpAddr::V4(a.cfg.gateway4) || key.dst.ip == IpAddr::V6(a.cfg.gateway6)),
            resolver,
            fd,
            a.tap().subrange(start as int, end as int),
            now,
            later,
        ),
{
    let dns = kind == FlowKind::Udp && a.cfg.dns_forward && key.dst.port == 53 && (key.dst.ip
        == IpAddr::V4(a.cfg.gateway4) || key.dst.ip == IpAddr::V6(a.cfg.gateway6));
    let t = a.new_flow(key, kind, l4, start, end).proceed(now);
    assert(t == a.new_flow(key, kind, l4, start, end));
    let x = if a.cfg.allow_flow is Some {
        t.resume(Reply::Policy(true), now)
    } else {
        t
    };
    let b = if a.cfg.allow_flow is Some {
        State { pending: Pending::Idle, ..t.begun() }
    } else {
        a
    };
    assert(x == b.open_flow(key, kind, start, end));
    let y = if dns {
        x.resume(Reply::Resolver(Some(resolver)), now)
    } else {
        x
    };
    assert(y.pending == (Pending::Opening { key, kind, start, end }));
    assert(y.tap() == a.tap());
    lemma_served(y, key, kind, start, end, fd, now, later);
}

/// The state in which a guest frame's L4 message is looked at.
pub open spec fn looked_at(s: State, len: i32, g: GuestFrame) -> State {
    State {
        guest_mac: g.src_mac,
        after: After::Tap,
        ..s.begun().count(Counter::TapIn(len as usize))
    }
}

/// What a guest frame's L4 message is looked at with.
pub proof fn lemma_looked_at(s: State, len: i32, g: GuestFrame)
    requires
        arrived(s, len, g),
    ensures
        ({
            let a = looked_at(s, len, g);
            &&& a.is_idle() && a.after is Tap
            &&& a.ops == seq![Op::Count(Counter::TapIn(len as usize))]
            &&& a.tap() == s.tap() && s.tap().len() == buf::BUF_SIZE
            &&& s.tap_buf < s.pool.bufs.len()
            &&& s.flows.wf() && s.flows.keyed() && s.flows.slots.len() < usize::MAX
            &&& message(s, g).len() == g.l4_end - g.l4_start
            &&& g.l4_start <= g.l4_end <= len <= buf::BUF_SIZE
            &&& frame::l4_start_ok(g.l4_start)
        }),
{
    let a = looked_at(s, len, g);
    frame::lemma_guest_frame(s.tap().subrange(0, len as int));
    assert(a.ops =~= seq![Op::Count(Counter::TapIn(len as usize))]);
}

/// A guest frame goes by its protocol.
pub proof fn lemma_dispatch(s: State, len: i32, g: GuestFrame, now: Instant)
    requires
        len > 0,
        GuestFrame::spec_parse(s.tap().subrange(0, len as int)) == Some(g),
        g.src_ip == IpAddr::V4(s.cfg.guest4) || g.src_ip == IpAddr::V6(s.cfg.guest6),
    ensures
        ({
            let a = looked_at(s, len, g);
            s.complete(TAP_UD, len, now) == (if g.proto == 17 {
                a.handle_udp(g, now)
            } else if g.proto == 6 {
                a.handle_tcp(g, now)
            } else if g.proto == 1 || g.proto == 58 {
                a.handle_echo(g, now)
            } else {
                a
            }).proceed(now)
        }),
{
    let b = State { after: After::Tap, ..s.begun() };
    assert(b.tap() == s.tap());
    assert(b.handle_tap_frame(len as usize, now).proceed(now) == s.complete(TAP_UD, len, now));
}

/// A frame that leads to nothing is dropped.
pub proof fn lemma_dropped(s: State, len: i32, g: GuestFrame, now: Instant)
    requires
        s.is_idle(),
        looked_at(s, len, g).ops.len() == 1,
    ensures
        dropped(s, looked_at(s, len, g).proceed(now)),
{
    laws::lemma_read_on(looked_at(s, len, g), now);
}

/// The payload of a UDP message: what its length field says, as far as it
/// is there.
pub open spec fn udp_payload(l4: Seq<u8>) -> Seq<u8> {
    if number_at(l4, 4) <= l4.len() {
        l4.subrange(8, number_at(l4, 4))
    } else {
        l4.skip(8)
    }
}

/// The flow that a UDP message to `ip` belongs to.
pub open spec fn udp_key(ip: IpAddr, l4: Seq<u8>) -> FlowKey {
    FlowKey {
        proto: 17,
        guest_port: number_at(l4, 0) as u16,
        dst: SocketAddr { ip, port: number_at(l4, 2) as u16 },
    }
}

/// Where a UDP message goes, and which bytes of it.
proof fn lemma_udp_forwarded(a: State, g: GuestFrame, now: Instant)
    requires
        g.l4_start <= g.l4_end <= a.tap().len(),
        g.l4_end <= buf::BUF_SIZE,
        message(a, g).len() >= 8,
        number_at(message(a, g), 4) >= 8,
    ensures
        ({
            let l4 = message(a, g);
            let start = (g.l4_start + 8) as usize;
            let end = (g.l4_start + 8 + udp_payload(l4).len()) as usize;
            &&& a.handle_udp(g, now) == a.forward(
                udp_key(g.dst_ip, l4),
                FlowKind::Udp,
                g.l4_start,
                start,
                end,
                now,
            )
            &&& start <= end <= g.l4_end
            &&& a.tap().subrange(start as int, end as int) == udp_payload(l4)
        }),
{
    let l4 = message(a, g);
    assert(UdpHdr::spec_parse(l4) is Some);
    let start = (g.l4_start + 8) as usize;
    let end = (g.l4_start + 8 + udp_payload(l4).len()) as usize;
    assert(a.tap().subrange(start as int, end as int) =~= udp_payload(l4));
}

/// A datagram of the guest's on an existing flow goes to the flow's socket
/// at once: its whole payload, and nothing else.
pub proof fn law_udp_payload_is_sent(s: State, len: i32, g: GuestFrame, id: usize, now: Instant)
    requires
        arrived(s, len, g),
        g.proto == 17,
        message(s, g).len() >= 8,
        number_at(message(s, g), 4) >= 8,
        s.flows.lookup(udp_key(g.dst_ip, message(s, g))) == Some(id),
    ensures
        ({
            let t = s.complete(TAP_UD, len, now);
            &&& t.ops.len() == 3 && t.ops[0] == Op::Count(Counter::TapIn(len as usize))
            &&& sends(t, 1, s.flow(id).sock, udp_payload(message(s, g)))
            &&& t.ops[2] == Op::ArmTapRead { buf: s.tap_buf }
            &&& t.is_idle() && t.ask is Wait
            &&& t.pool == s.pool && t.guest_mac == g.src_mac
            &&& t.holds(id) && t.flow(id) == (Flow { last_active: now, ..s.flow(id) })
            &&& forall|j: usize| j != id ==> #[trigger] t.flows.holds(j) == s.flows.holds(j)
            &&& forall|j: usize|
                j != id && #[trigger] t.flows.holds(j) ==> t.flow(j) == s.flow(j)
        }),
{
    lemma_looked_at(s, len, g);
    let a = looked_at(s, len, g);
    let l4 = message(s, g);
    let key = udp_key(g.dst_ip, l4);
    flow::law_lookup(s.flows, key);
    let start = (g.l4_start + 8) as usize;
    let end = (g.l4_start + 8 + udp_payload(l4).len()) as usize;
    lemma_dispatch(s, len, g, now);
    assert(message(a, g) == l4);
    lemma_udp_forwarded(a, g, now);
    lemma_delivered(a, id, start, end, now);
}

/// A datagram of the guest's that starts a flow goes to the new socket
/// whole, once that is open and its first receive submitted.
pub proof fn law_udp_payload_starts_flow(
    s: State,
    len: i32,
    g: GuestFrame,
    resolver: SocketAddr,
    fd: Fd,
    now: Instant,
    later: Instant,
)
    requires
        arrived(s, len, g),
        g.proto == 17,
        message(s, g).len() >= 8,
        number_at(message(s, g), 4) >= 8,
        s.flows.lookup(udp_key(g.dst_ip, message(s, g))) is None,
        s.cfg.allow_flow is Some || !g.dst_ip.spec_loopback(),
    ensures
        ({
            let key = udp_key(g.dst_ip, message(s, g));
            brought_up(
                s.complete(TAP_UD, len, now),
                key,
                FlowKind::Udp,
                s.cfg.dns_forward && key.dst.port == 53 && (key.dst.ip == IpAddr::V4(
                    s.cfg.gateway4,
                ) || key.dst.ip == IpAddr::V6(s.cfg.gateway6)),
                resolver,
                fd,
                udp_payload(message(s, g)),
                now,
                later,
            )
        }),
{
    lemma_looked_at(s, len, g);
    let a = looked_at(s, len, g);
    let l4 = message(s, g);
    let key = udp_key(g.dst_ip, l4);
    let start = (g.l4_start + 8) as usize;
    let end = (g.l4_start + 8 + udp_payload(l4).len()) as usize;
    lemma_dispatch(s, len, g, now);
    assert(message(a, g) == l4);
    lemma_udp_forwarded(a, g, now);
    lemma_brought_up(
        a,
        key,
        FlowKind::Udp,
        g.l4_start,
        start,
        end,
        resolver,
        fd,
        now,
        later,
    );
}

/// The payload of a written UDP message is the one it was written with.
pub proof fn law_udp_payload_of_message(
    src_port: u16,
    dst_port: u16,
    payload: Seq<u8>,
    pseudo: nat,
    partial: bool,
    ip: IpAddr,
)
    requires
        payload.len() + 8 <= 65_535,
    ensures
        ({
            let l4 = proto::udp_bytes(src_port, dst_port, payload, pseudo, partial);
            &&& udp_payload(l4) == payload
            &&& udp_key(ip, l4) == (FlowKey {
                proto: 17,
                guest_port: src_port,
                dst: SocketAddr { ip, port: dst_port },
            })
            &&& l4.len() == payload.len() + 8
            &&& number_at(l4, 4) == payload.len() + 8
        }),
{
    let l4 = proto::udp_bytes(src_port, dst_port, payload, pseudo, partial);
    proto::law_udp_roundtrip(src_port, dst_port, payload, pseudo, partial);
    assert(l4.len() == payload.len() + 8);
    assert(udp_payload(l4) =~= payload);
}

/// A message that is no whole UDP header, or whose length field does not
/// cover its header, is dropped.
pub proof fn law_broken_udp_is_dropped(s: State, len: i32, g: GuestFrame, now: Instant)
    requires
        arrived(s, len, g),
        g.proto == 17,
        message(s, g).len() < 8 || number_at(message(s, g), 4) < 8,
    ensures
        dropped(s, s.complete(TAP_UD, len, now)),
{
    lemma_looked_at(s, len, g);
    lemma_dispatch(s, len, g, now);
    lemma_dropped(s, len, g, now);
}

/// The flow that an echo request to `ip` belongs to.
pub open spec fn echo_key(g: GuestFrame, l4: Seq<u8>) -> FlowKey {
    FlowKey {
        proto: g.proto,
        guest_port: number_at(l4, 4) as u16,
        dst: SocketAddr { ip: g.dst_ip, port: 0 },
    }
}

/// The guest frame `g` holds an echo request of its address family.
pub open spec fn is_echo_request(s: State, g: GuestFrame) -> bool {
    let l4 = message(s, g);
    &&& g.proto == 1 || g.proto == 58
    &&& l4.len() >= 8
    &&& l4[0] == (if g.dst_ip is V4 {
        8u8
    } else {
        128u8
    })
}

/// What the ping socket is to send for the echo request `l4`: the guest's
/// message, byte for byte, but for the type that NAT64 changes.
pub open spec fn echo_sent(s: State, g: GuestFrame) -> Seq<u8> {
    let l4 = message(s, g);
    if g.dst_ip is V4 && s.cfg.nat64_prefix is Some {
        seq![128u8] + l4.skip(1)
    } else {
        l4
    }
}

/// The state in which an echo request is forwarded.
spec fn echo_at(s: State, len: i32, g: GuestFrame) -> State {
    let b = looked_at(s, len, g);
    if g.dst_ip is V4 && s.cfg.nat64_prefix is Some {
        b.with_buf(b.tap_buf, b.tap().update(g.l4_start as int, 128))
    } else {
        b
    }
}

/// Where an echo request goes, and which bytes of it.
proof fn lemma_echo_forwarded(s: State, len: i32, g: GuestFrame, now: Instant)
    requires
        is_echo_request(s, g),
        looked_at(s, len, g).tap() == s.tap(),
        message(s, g).len() == g.l4_end - g.l4_start,
        s.tap_buf < s.pool.bufs.len(),
        g.l4_start <= g.l4_end <= s.tap().len(),
    ensures
        ({
            let a = echo_at(s, len, g);
            &&& looked_at(s, len, g).handle_echo(g, now) == a.forward(
                echo_key(g, message(s, g)),
                FlowKind::Ping,
                g.l4_start,
                g.l4_start,
                g.l4_end,
                now,
            )
            &&& a.tap().len() == s.tap().len()
            &&& a.tap().subrange(g.l4_start as int, g.l4_end as int) == echo_sent(s, g)
            &&& a.ops == looked_at(s, len, g).ops
        }),
{
    let l4 = message(s, g);
    assert(EchoHdr::spec_parse(l4) is Some);
    let a = echo_at(s, len, g);
    assert(a.tap().subrange(g.l4_start as int, g.l4_end as int) =~= echo_sent(s, g));
}

/// An echo request of the guest's on an existing flow goes to the flow's
/// ping socket at once: the whole message from its first byte to its last.
pub proof fn law_echo_is_sent(s: State, len: i32, g: GuestFrame, id: usize, now: Instant)
    requires
        arrived(s, len, g),
        is_echo_request(s, g),
        s.flows.lookup(echo_key(g, message(s, g))) == Some(id),
    ensures
        ({
            let t = s.complete(TAP_UD, len, now);
            &&& t.ops.len() == 3 && t.ops[0] == Op::Count(Counter::TapIn(len as usize))
            &&& sends(t, 1, s.flow(id).sock, echo_sent(s, g))
            &&& t.ops[2] == Op::ArmTapRead { buf: s.tap_buf }
            &&& t.is_idle() && t.ask is Wait
            &&& t.holds(id) && t.flow(id) == (Flow { last_active: now, ..s.flow(id) })
            &&& t.pool.free == s.pool.free
        }),
{
    lemma_looked_at(s, len, g);
    lemma_dispatch(s, len, g, now);
    lemma_echo_forwarded(s, len, g, now);
    flow::law_lookup(s.flows, echo_key(g, message(s, g)));
    lemma_delivered(echo_at(s, len, g), id, g.l4_start, g.l4_end, now);
}

/// An echo request of the guest's that starts a flow goes to the new ping
/// socket whole, once that is open and its first receive submitted.
pub proof fn law_echo_starts_flow(
    s: State,
    len: i32,
    g: GuestFrame,
    resolver: SocketAddr,
    fd: Fd,
    now: Instant,
    later: Instant,
)
    requires
        arrived(s, len, g),
        is_echo_request(s, g),
        s.flows.lookup(echo_key(g, message(s, g))) is None,
        s.cfg.allow_flow is Some || !g.dst_ip.spec_loopback(),
    ensures
        brought_up(
            s.complete(TAP_UD, len, now),
            echo_key(g, message(s, g)),
            FlowKind::Ping,
            false,
            resolver,
            fd,
            echo_sent(s, g),
            now,
            later,
        ),
{
    lemma_looked_at(s, len, g);
    lemma_dispatch(s, len, g, now);
    lemma_echo_forwarded(s, len, g, now);
    let key = echo_key(g, message(s, g));
    lemma_brought_up(
        echo_at(s, len, g),
        key,
        FlowKind::Ping,
        g.l4_start,
        g.l4_start,
        g.l4_end,
        resolver,
        fd,
        now,
        later,
    );
}

/// Of ICMP and ICMPv6 nothing but echo requests of the packet's family gets
/// through, and of other protocols nothing but UDP and TCP.
pub proof fn law_other_messages_are_dropped(s: State, len: i32, g: GuestFrame, now: Instant)
    requires
        arrived(s, len, g),
        g.proto != 17 && g.proto != 6,
        !is_echo_request(s, g),
    ensures
        dropped(s, s.complete(TAP_UD, len, now)),
{
    lemma_looked_at(s, len, g);
    lemma_dispatch(s, len, g, now);
    lemma_dropped(s, len, g, now);
}

/// The flow that a TCP segment to `ip` belongs to.
pub open spec fn tcp_key(ip: IpAddr, l4: Seq<u8>) -> FlowKey {
    FlowKey {
        proto: 6,
        guest_port: number_at(l4, 0) as u16,
        dst: SocketAddr { ip, port: number_at(l4, 2) as u16 },
    }
}

/// Length of the TCP header at the front of `l4`, by its data offset.
pub open spec fn data_offset(l4: Seq<u8>) -> int {
    l4[12] / 16 * 4
}

/// The guest frame `g` holds a TCP segment whose header is all there.
pub open spec fn is_segment(s: State, g: GuestFrame) -> bool {
    let l4 = message(s, g);
    &&& g.proto == 6
    &&& l4.len() >= 20
    &&& 20 <= data_offset(l4) <= l4.len()
}

/// The sequence number of the segment `l4`.
pub open spec fn segment_seq(l4: Seq<u8>) -> int {
    number_at(l4, 4) * 65_536 + number_at(l4, 6)
}

/// The segment `l4` goes on an established connection: neither a SYN nor an
/// RST.
pub open spec fn goes_on(l4: Seq<u8>) -> bool {
    l4[13] & 2 == 0 && l4[13] & 4 == 0
}

/// Where a TCP segment goes, and where its data starts.
pub proof fn lemma_segment(a: State, g: GuestFrame, now: Instant)
    requires
        is_segment(a, g),
        g.l4_start <= g.l4_end <= a.tap().len(),
        g.l4_end <= buf::BUF_SIZE,
    ensures
        ({
            let l4 = message(a, g);
            let hdr = TcpHdr::spec_parse(l4)->0;
            let start = (g.l4_start + data_offset(l4)) as usize;
            &&& TcpHdr::spec_parse(l4) is Some
            &&& hdr.seq == segment_seq(l4) && hdr.flags == l4[13]
            &&& start <= g.l4_end
            &&& start == g.l4_end <==> data_offset(l4) == l4.len()
            &&& a.tap().subrange(start as int, g.l4_end as int) == l4.skip(data_offset(l4))
            &&& a.flows.lookup(tcp_key(g.dst_ip, l4)) matches Some(id) ==> a.handle_tcp(g, now)
                == a.tcp_from_guest(id, hdr, start, g.l4_end, now)
        }),
{
    let l4 = message(a, g);
    let start = (g.l4_start + data_offset(l4)) as usize;
    assert(a.tap().subrange(start as int, g.l4_end as int) =~= l4.skip(data_offset(l4)));
}

/// A segment on a flow: which of its bytes are offered.
proof fn lemma_offered(
    a: State,
    id: usize,
    c: Tcp,
    hdr: TcpHdr,
    start: usize,
    end: usize,
    now: Instant,
)
    requires
        a.tcp(id) == Some(c),
        a.is_idle(),
        a.ask is Wait,
        a.ops.len() == 1 && a.ops[0] is Count,
        start <= end,
    ensures
        ({
            let t = a.tcp_from_guest(id, hdr, start, end, now);
            if start < end && hdr.seq == c.seq_from_guest && c.state == TcpState::Established
                && hdr.flags & 2 == 0 && hdr.flags & 4 == 0 {
                &&& t.ask == Request::SendTcp { fd: a.flow(id).sock, start, end }
                &&& t.pending == Pending::Sending { id, hdr, start, end }
                &&& t.pool == a.pool && t.tap_buf == a.tap_buf
                &&& t.tcp(id) == Some(
                    if hdr.flags & 16 != 0 {
                        c.acked(hdr, false, now)
                    } else {
                        c
                    },
                )
                &&& forall|i: int| 0 <= i < t.ops.len() ==> (#[trigger] t.ops[i]) is Count
            } else {
                !(t.ask is SendTcp) && !(t.pending is Sending)
            }
        }),
{
}

/// Finishing a completion offers nothing to a socket.
proof fn lemma_no_offer(s: State, now: Instant)
    requires
        !(s.ask is SendTcp),
        !(s.after is Timer),
    ensures
        !(s.proceed(now).ask is SendTcp),
{
}

/// What the guest sends in order on an established connection is offered
/// to the host's socket: all of the segment behind its header, options
/// included in the header, and nothing else.
pub proof fn law_tcp_payload_is_offered(
    s: State,
    len: i32,
    g: GuestFrame,
    id: usize,
    c: Tcp,
    now: Instant,
)
    requires
        arrived(s, len, g),
        is_segment(s, g),
        s.flows.lookup(tcp_key(g.dst_ip, message(s, g))) == Some(id),
        s.tcp(id) == Some(c),
        c.state == TcpState::Established,
        goes_on(message(s, g)),
        segment_seq(message(s, g)) == c.seq_from_guest,
        data_offset(message(s, g)) < message(s, g).len(),
    ensures
        ({
            let l4 = message(s, g);
            let t = s.complete(TAP_UD, len, now);
            &&& t.ask matches Request::SendTcp { fd, start, end } && fd == s.flow(id).sock
                && start < end <= t.tap().len() && t.tap().subrange(start as int, end as int)
                == l4.skip(data_offset(l4))
            &&& t.pool == s.pool
            &&& forall|i: int| 0 <= i < t.ops.len() ==> (#[trigger] t.ops[i]) is Count
        }),
{
    lemma_looked_at(s, len, g);
    let a = looked_at(s, len, g);
    let l4 = message(s, g);
    let key = tcp_key(g.dst_ip, l4);
    let hdr = TcpHdr::spec_parse(l4)->0;
    let start = (g.l4_start + data_offset(l4)) as usize;
    flow::law_lookup(s.flows, key);
    lemma_dispatch(s, len, g, now);
    assert(message(a, g) == l4);
    lemma_segment(a, g, now);
    lemma_offered(a, id, c, hdr, start, g.l4_end, now);
    let b = a.tcp_from_guest(id, hdr, start, g.l4_end, now);
    assert(b.proceed(now) == b);
    assert(b.tap() == s.tap());
}

/// Nothing of a guest segment is offered to a socket where there is no data
/// in it, where it is out of order, or where it does not go on.
pub proof fn law_nothing_else_is_offered(
    s: State,
    len: i32,
    g: GuestFrame,
    id: usize,
    c: Tcp,
    now: Instant,
)
    requires
        arrived(s, len, g),
        is_segment(s, g),
        s.flows.lookup(tcp_key(g.dst_ip, message(s, g))) == Some(id),
        s.tcp(id) == Some(c),
        data_offset(message(s, g)) == message(s, g).len() || segment_seq(message(s, g))
            != c.seq_from_guest || c.state == TcpState::Connecting || !goes_on(message(s, g)),
    ensures
        !(s.complete(TAP_UD, len, now).ask is SendTcp),
{
    lemma_looked_at(s, len, g);
    let a = looked_at(s, len, g);
    let l4 = message(s, g);
    let key = tcp_key(g.dst_ip, l4);
    let hdr = TcpHdr::spec_parse(l4)->0;
    let start = (g.l4_start + data_offset(l4)) as usize;
    flow::law_lookup(s.flows, key);
    lemma_dispatch(s, len, g, now);
    assert(message(a, g) == l4);
    lemma_segment(a, g, now);
    lemma_offered(a, id, c, hdr, start, g.l4_end, now);
    lemma_no_offer(a.tcp_from_guest(id, hdr, start, g.l4_end, now), now);
}

/// The data of a written segment is what was put behind its header,
/// whatever options the header has.
pub proof fn law_tcp_payload_of_segment(
    src_port: u16,
    dst_port: u16,
    seq: u32,
    ack: u32,
    flags: u8,
    window: u16,
    options: Seq<u8>,
    pseudo: nat,
    partial: bool,
    payload: Seq<u8>,
    ip: IpAddr,
)
    requires
        options.len() <= 40,
        options.len() % 4 == 0,
    ensures
        ({
            let l4 = wire_tcp::tcp_bytes(
                src_port,
                dst_port,
                seq,
                ack,
                flags,
                window,
                options,
                pseudo,
                partial,
            ) + payload;
            &&& l4.len() == 20 + options.len() + payload.len()
            &&& data_offset(l4) == 20 + options.len()
            &&& l4.skip(data_offset(l4)) == payload
            &&& segment_seq(l4) == seq && l4[13] == flags
            &&& tcp_key(ip, l4) == (FlowKey {
                proto: 6,
                guest_port: src_port,
                dst: SocketAddr { ip, port: dst_port },
            })
        }),
{
    let h = wire_tcp::tcp_bytes(
        src_port,
        dst_port,
        seq,
        ack,
        flags,
        window,
        options,
        pseudo,
        partial,
    );
    let l4 = h + payload;
    wire_tcp::law_tcp_roundtrip(
        src_port,
        dst_port,
        seq,
        ack,
        flags,
        window,
        options,
        pseudo,
        partial,
        payload,
    );
    assert(h.len() == 20 + options.len());
    assert(l4.skip(h.len() as int) =~= payload);
    assert(segment_seq(l4) == wire::be32_at(l4, 4));
}

} // verus!
