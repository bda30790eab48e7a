//! What holds of the event loop as a whole.

use vstd::prelude::*;

use crate::addr::{IpAddr, SocketAddr};
use crate::buf;
use crate::flow;
use crate::flow::{Fd, Flow, FlowKey, FlowKind, Instant};
use crate::frame;
use crate::frame::{GuestFrame, TcpSegment, L3_OFF};
use crate::proto;
use crate::proto::tcp::TcpHdr;
use crate::proto::{EchoHdr, UdpHdr};
use crate::tcp;
use crate::tcp::{Burst, Tcp, TcpState, Verdict};
use crate::uring::inv;
use crate::uring::state;
use crate::uring::state::{
    After, Counter, Op, Pending, Reply, Request, State, TcpRead, CANCEL_UD, FLOW_EXPIRY, POLL_OUT,
    POLL_RECV, STOP_UD, TAP_UD, TIMER_UD,
};
use crate::wire;

verus! {

/// If flow `id` has an operation in the ring in `s`, then it still exists
/// in `t`, with the same key, socket and buffer, and the operation is still
/// there.
pub open spec fn kept(s: State, t: State, id: usize) -> bool {
    s.holds(id) && state::has_pending_op(s.flow(id)) ==> {
        &&& t.holds(id)
        &&& state::has_pending_op(t.flow(id))
        &&& t.flow(id).key == s.flow(id).key
        &&& t.flow(id).sock == s.flow(id).sock
        &&& t.flow(id).buf == s.flow(id).buf
    }
}

/// The request opens a socket on the host, or looks up where to.
pub open spec fn wants_socket(r: Request) -> bool {
    r is OpenUdp || r is OpenPing || r is OpenTcp || r is Resolver
}

/// The request is about a new flow.
pub open spec fn starts_flow(r: Request) -> bool {
    wants_socket(r) || r is Policy
}

/// No read of the tap is among the actions.
pub open spec fn no_tap_read(ops: Seq<Op>) -> bool {
    forall|i: int| 0 <= i < ops.len() ==> !((#[trigger] ops[i]) is ArmTapRead)
}

/// From `s` to `t` no new flow is started, the tap is not read, and the
/// configuration stays.
pub open spec fn calm(s: State, t: State) -> bool {
    &&& t.cfg == s.cfg
    &&& !starts_flow(s.ask) ==> !starts_flow(t.ask)
    &&& no_tap_read(s.ops) ==> no_tap_read(t.ops)
}

/// From `s` to `t` flow `id` is kept and no new flow is started.
spec fn steady(s: State, t: State, id: usize) -> bool {
    kept(s, t, id) && calm(s, t)
}

proof fn lemma_op(s: State, o: Op, id: usize)
    requires
        !(o is ArmTapRead),
    ensures
        steady(s, s.op(o), id),
{
}

proof fn lemma_remove_flow(s: State, j: usize, id: usize)
    ensures
        steady(s, s.remove_flow(j), id),
        s.remove_flow(j).pending == s.pending,
{
    lemma_op(s, Op::Count(Counter::Dump), id);
}

proof fn lemma_close_flows(s: State, ids: Seq<usize>, n: nat, id: usize)
    ensures
        steady(s, s.remove_flows(ids, n), id),
    decreases n,
{
    if n > 0 {
        lemma_close_flows(s, ids, (n - 1) as nat, id);
        lemma_remove_flow(s.remove_flows(ids, (n - 1) as nat), ids[n - 1], id);
    }
}

proof fn lemma_add_flow(
    s: State,
    key: FlowKey,
    kind: FlowKind,
    fd: Fd,
    tcp: Option<Tcp>,
    now: Instant,
    id: usize,
)
    requires
        s.wf(),
    ensures
        steady(s, s.add_flow(key, kind, fd, tcp, now), id),
{
    if s.pool.free.len() > 0 {
        flow::law_insert(s.flows, s.new_flow_value(key, kind, fd, tcp, now));
        assert(s.flows.inserted(s.new_flow_value(key, kind, fd, tcp, now)).holds(id)
            || !s.flows.holds(id));
    } else {
        match flow::lru_below(s.flows.slots, s.flows.slots.len()) {
            Some(j) => {
                let a = s.count(Counter::FlowEvicted);
                lemma_op(s, Op::Count(Counter::FlowEvicted), id);
                lemma_remove_flow(a, j, id);
                lemma_op(a.remove_flow(j), Op::Close { fd }, id);
            },
            None => lemma_op(s, Op::Close { fd }, id),
        }
    }
}

proof fn lemma_refuse(s: State, key: FlowKey, kind: FlowKind, l4: usize, id: usize)
    ensures
        steady(s, s.refused(key, kind, l4), id),
        s.refused(key, kind, l4).pending == s.pending,
        s.refused(key, kind, l4).ask == s.ask,
{
}

proof fn lemma_arm_poll(s: State, j: usize, events: u32, id: usize)
    ensures
        steady(s, s.arm_poll(j, events), id),
{
}

proof fn lemma_send_segment(
    s: State,
    j: usize,
    seg: TcpSegment,
    start: usize,
    end: usize,
    start2: usize,
    end2: usize,
    id: usize,
)
    ensures
        steady(s, s.send_segment(j, seg, start, end, start2, end2), id),
        s.send_segment(j, seg, start, end, start2, end2).flows == s.flows,
{
}

proof fn lemma_send_control(s: State, j: usize, flags: u8, window: u16, id: usize)
    ensures
        steady(s, s.send_control(j, flags, window), id),
        s.send_control(j, flags, window).flows == s.flows,
{
}

proof fn lemma_send_syn_ack(s: State, j: usize, id: usize)
    ensures
        steady(s, s.send_syn_ack(j), id),
{
}

proof fn lemma_tcp_reset(s: State, j: usize, id: usize)
    ensures
        steady(s, s.tcp_reset(j), id),
{
    let a = s.count(Counter::TcpCtrl);
    let b = a.send_control(j, proto::TCP_RST | proto::TCP_ACK, 0);
    lemma_op(s, Op::Count(Counter::TcpCtrl), id);
    lemma_send_control(a, j, proto::TCP_RST | proto::TCP_ACK, 0, id);
    lemma_remove_flow(b, j, id);
}

proof fn lemma_tcp_next(s: State, j: usize, drained: bool, id: usize)
    ensures
        steady(s, s.tcp_next(j, drained), id),
{
    lemma_arm_poll(s, j, POLL_RECV, id);
}

proof fn lemma_tcp_data(s: State, j: usize, now: Instant, id: usize)
    ensures
        steady(s, s.tcp_data_to_guest(j, now), id),
{
    lemma_tcp_next(s, j, false, id);
}

proof fn lemma_tcp_filled(s: State, read: TcpRead, j: usize, id: usize)
    ensures
        steady(s, s.tcp_filled(read, j), id),
{
    match s.tcp(j) {
        Some(t) => match read {
            TcpRead::Again => lemma_tcp_next(
                s.count(Counter::SockRecv { empty: true }),
                j,
                true,
                id,
            ),
            TcpRead::Failed => lemma_tcp_reset(s, j, id),
            TcpRead::Data(n) => {
                let a = if n > 0 {
                    s.count(Counter::SockRecv { empty: false })
                } else {
                    s
                };
                let b = a.with_tcp(j, t.filled(n as int));
                assert(steady(s, b, id));
                lemma_tcp_next(b, j, 0 < n < t.free(), id);
            },
        },
        None => {},
    }
}

proof fn lemma_tcp_taken(
    s: State,
    j: usize,
    hdr: TcpHdr,
    len: usize,
    n: usize,
    now: Instant,
    id: usize,
)
    ensures
        steady(s, s.tcp_taken(j, hdr, len, n, now), id),
{
    match s.tcp(j) {
        Some(t) => {
            let (u, r) = t.spec_take(hdr.flags, hdr.seq, len as int, n as int);
            let fd = s.flow(j).sock;
            let a = s.with_tcp(j, u);
            let b = if r.deferred {
                a.count(Counter::AckDeferred)
            } else {
                a
            };
            let c = if r.shutdown {
                b.op(Op::ShutdownWrite { fd })
            } else {
                b
            };
            assert(steady(s, c, id));
            lemma_tcp_data(c, j, now, id);
        },
        None => {},
    }
}

proof fn lemma_tcp_from_guest(
    s: State,
    j: usize,
    hdr: TcpHdr,
    start: usize,
    end: usize,
    now: Instant,
    id: usize,
)
    ensures
        steady(s, s.tcp_from_guest(j, hdr, start, end, now), id),
{
    if s.holds(j) {
        let a = s.touched(j, now);
        match a.tcp(j) {
            None => {},
            Some(t) => match t.spec_verdict(hdr.flags) {
                Verdict::Close => lemma_remove_flow(a, j, id),
                Verdict::Ignore => {},
                Verdict::SynAck => lemma_send_syn_ack(a, j, id),
                Verdict::Process => {
                    let u = if hdr.flags & proto::TCP_ACK != 0 {
                        a.tcp_ack_from_guest(j, hdr, start >= end, now)
                    } else {
                        a
                    };
                    let v = State { after: After::TapTcp(j), ..u };
                    assert(steady(s, v, id));
                    let len = (if start < end {
                        end - start
                    } else {
                        0
                    }) as usize;
                    lemma_tcp_taken(v, j, hdr, len, 0, now, id);
                },
            },
        }
    }
}

proof fn lemma_send_burst(
    s: State,
    j: usize,
    t: Tcp,
    b: Burst,
    window: u16,
    off: int,
    id: usize,
)
    ensures
        steady(s, s.send_burst(j, t, b, window, off), id),
        s.send_burst(j, t, b, window, off).flows == s.flows,
    decreases b.send_len - off,
{
    let len = if b.chunk <= b.send_len - off {
        b.chunk as int
    } else {
        b.send_len - off
    };
    if off < b.send_len && len > 0 {
        let p = t.spec_piece(b, off);
        let seg = TcpSegment {
            seq: p.seq,
            ack: t.seq_from_guest,
            flags: proto::TCP_ACK,
            window,
            options: frame::TcpOptions::Empty,
            gso_size: if b.gso {
                Some(t.guest_mss)
            } else {
                None
            },
        };
        let start = (buf::HEADROOM + p.pos) as usize;
        let end = (buf::HEADROOM + p.pos + p.first) as usize;
        let end2 = (buf::HEADROOM + p.second) as usize;
        lemma_send_segment(s, j, seg, start, end, buf::HEADROOM, end2, id);
        let n = s.send_segment(j, seg, start, end, buf::HEADROOM, end2);
        lemma_send_burst(n, j, t, b, window, off + len, id);
    }
}

proof fn lemma_bursting(
    s: State,
    queued: Option<i32>,
    j: usize,
    drained: bool,
    now: Instant,
    id: usize,
)
    ensures
        steady(s, s.bursting(queued, j, drained, now), id),
{
    match s.tcp(j) {
        Some(t) => {
            let b = t.spec_burst(s.offloads.spec_tso());
            lemma_send_burst(s, j, t, b, t.spec_window(queued), 0, id);
            let a = s.send_burst(j, t, b, t.spec_window(queued), 0).with_tcp(
                j,
                t.sent(b.send_len as int, now),
            );
            assert(steady(s, a, id));
            lemma_arm_poll(a, j, POLL_RECV, id);
        },
        None => {},
    }
}

proof fn lemma_reply(s: State, j: usize, len: usize, gso: Option<u16>, now: Instant, id: usize)
    ensures
        steady(s, s.reply_to_guest(j, len, gso, now), id),
{
}

proof fn lemma_drained(
    s: State,
    got: Option<usize>,
    j: usize,
    seg: usize,
    total: usize,
    now: Instant,
    id: usize,
)
    ensures
        steady(s, s.drained(got, j, seg, total, now), id),
{
    let gso = state::spec_gso_of(total as int, seg as int);
    match got {
        None => lemma_reply(s, j, total, gso, now, id),
        Some(n) => {
            let a = s.count(Counter::SockRecv { empty: n == 0 });
            lemma_op(s, Op::Count(Counter::SockRecv { empty: n == 0 }), id);
            lemma_reply(a, j, total, gso, now, id);
            let more = (total + n) as usize;
            lemma_reply(a, j, more, state::spec_gso_of(more as int, seg as int), now, id);
        },
    }
}

proof fn lemma_retransmit(s: State, j: usize, now: Instant, id: usize)
    ensures
        steady(s, s.retransmit(j, now), id),
{
    match s.tcp(j) {
        Some(t) => {
            let a = s.with_tcp(j, t.rewound(now)).count(Counter::RtoRetransmit);
            assert(steady(s, a, id));
            lemma_tcp_data(a, j, now, id);
        },
        None => {},
    }
}

proof fn lemma_run_timer(s: State, now: Instant, id: usize)
    ensures
        steady(s, s.run_timer(now), id),
    decreases s.due.len(),
{
    if s.due.len() == 0 {
        if now >= FLOW_EXPIRY {
            let cutoff = (now - FLOW_EXPIRY) as u64;
            let ids = flow::ids_where(
                s.flows.slots,
                s.flows.slots.len(),
                |f: Flow| flow::is_expired(f, cutoff),
            );
            lemma_close_flows(s, ids, ids.len(), id);
        }
        lemma_op(s.expire_flows(now), Op::ArmTimer, id);
    } else {
        let rest = s.due.skip(1);
        let a = State { due: rest, ..s };
        lemma_retransmit(a, s.due[0], now, id);
        let b = State { due: rest, ..a.retransmit(s.due[0], now) };
        assert(steady(s, b, id));
        if b.is_idle() {
            lemma_run_timer(b, now, id);
        }
    }
}

/// Finishing a completion keeps flow `id`, starts no flow, and reads the
/// tap only once nothing is awaited.
proof fn lemma_proceed(s: State, now: Instant, id: usize)
    ensures
        kept(s, s.proceed(now), id),
        s.is_idle() && !starts_flow(s.ask) ==> !starts_flow(s.proceed(now).ask),
        no_tap_read(s.ops) && !s.proceed(now).is_idle() ==> no_tap_read(s.proceed(now).ops),
{
    if s.is_idle() {
        match s.after {
            After::Timer => lemma_run_timer(s, now, id),
            After::TapTcp(j) => lemma_remove_flow(s, j, id),
            After::Ready(j) => lemma_remove_flow(s, j, id),
            _ => {},
        }
    }
}

proof fn lemma_flow_completed(s: State, j: usize, res: i32, now: Instant, id: usize)
    ensures
        calm(s, s.flow_completed(j, res, now)),
        j != id ==> kept(s, s.flow_completed(j, res, now), id),
{
    if s.holds(j) {
        let a = State { after: After::Recv(j), ..s };
        lemma_tcp_reset(s, j, id);
        lemma_reply(a, j, res as usize, None, now, id);
        assert(calm(s, s.free_flow(j)) && (j != id ==> kept(s, s.free_flow(j), id)));
        let ready = s.tcp_socket_ready(j, res as u32, now);
        assert(calm(s, ready) && (j != id ==> kept(s, ready, id)));
        assert(steady(s, a.udp_to_guest(j, res as usize, now), id));
        assert(steady(s, a.udp_error_to_guest(j, (-res) as i32, now), id));
    }
}

/// The flow that is being created.
pub open spec fn pending_key(p: Pending) -> Option<FlowKey> {
    match p {
        Pending::NewFlow { key, .. } => Some(key),
        Pending::Resolving { key, .. } => Some(key),
        Pending::Opening { key, .. } => Some(key),
        Pending::NewTcp { key, .. } => Some(key),
        Pending::OpeningTcp { key, .. } => Some(key),
        _ => None,
    }
}

/// A new flow goes through the policy first: where the caller has one, it
/// is asked about exactly the destination that the guest addressed and no
/// socket is asked for; where it has none, no socket is asked for a
/// loopback destination.
pub open spec fn policy_applied(s: State, t: State) -> bool {
    &&& wants_socket(t.ask) ==> {
        &&& s.cfg.allow_flow is None
        &&& pending_key(t.pending) matches Some(key) && !key.dst.ip.spec_loopback()
    }
    &&& t.ask matches Request::Policy(dst) ==> pending_key(t.pending) matches Some(key) && dst
        == state::flow_dst(key)
}

/// A guest packet that may start a flow.
proof fn lemma_forward(
    s: State,
    key: FlowKey,
    kind: FlowKind,
    l4: usize,
    start: usize,
    end: usize,
    now: Instant,
    id: usize,
)
    ensures
        ({
            let t = s.forward(key, kind, l4, start, end, now);
            &&& kept(s, t, id)
            &&& no_tap_read(s.ops) ==> no_tap_read(t.ops)
            &&& s.is_idle() && s.ask is Wait ==> policy_applied(s, t) && (t.is_idle()
                ==> !starts_flow(t.ask))
        }),
{
    lemma_refuse(s, key, kind, l4, id);
}

proof fn lemma_handle_tcp(s: State, g: GuestFrame, now: Instant, id: usize)
    ensures
        ({
            let t = s.handle_tcp(g, now);
            &&& kept(s, t, id)
            &&& no_tap_read(s.ops) ==> no_tap_read(t.ops)
            &&& s.is_idle() && s.ask is Wait ==> policy_applied(s, t) && (t.is_idle()
                ==> !starts_flow(t.ask))
        }),
{
    match TcpHdr::spec_parse(s.tap().subrange(g.l4_start as int, g.l4_end as int)) {
        Some(hdr) => {
            let key = FlowKey {
                proto: proto::IPPROTO_TCP,
                guest_port: hdr.src_port,
                dst: SocketAddr { ip: g.dst_ip, port: hdr.dst_port },
            };
            lemma_refuse(s, key, FlowKind::Tcp, g.l4_start, id);
            match s.flows.lookup(key) {
                Some(j) => lemma_tcp_from_guest(
                    s,
                    j,
                    hdr,
                    (g.l4_start + hdr.header_len) as usize,
                    g.l4_end,
                    now,
                    id,
                ),
                None => {},
            }
        },
        None => {},
    }
}

proof fn lemma_handle_udp(s: State, g: GuestFrame, now: Instant, id: usize)
    ensures
        ({
            let t = s.handle_udp(g, now);
            &&& kept(s, t, id)
            &&& no_tap_read(s.ops) ==> no_tap_read(t.ops)
            &&& s.is_idle() && s.ask is Wait ==> policy_applied(s, t) && (t.is_idle()
                ==> !starts_flow(t.ask))
        }),
{
    match UdpHdr::spec_parse(s.tap().subrange(g.l4_start as int, g.l4_end as int)) {
        Some(udp) => {
            let key = FlowKey {
                proto: proto::IPPROTO_UDP,
                guest_port: udp.src_port,
                dst: SocketAddr { ip: g.dst_ip, port: udp.dst_port },
            };
            let start = (g.l4_start + proto::UDP_HDR_LEN) as usize;
            let end = (if g.l4_start + udp.len <= g.l4_end {
                g.l4_start + udp.len
            } else {
                g.l4_end as int
            }) as usize;
            lemma_forward(s, key, FlowKind::Udp, g.l4_start, start, end, now, id);
        },
        None => {},
    }
}

proof fn lemma_handle_echo(s: State, g: GuestFrame, now: Instant, id: usize)
    ensures
        ({
            let t = s.handle_echo(g, now);
            &&& kept(s, t, id)
            &&& no_tap_read(s.ops) ==> no_tap_read(t.ops)
            &&& s.is_idle() && s.ask is Wait ==> policy_applied(s, t) && (t.is_idle()
                ==> !starts_flow(t.ask))
        }),
{
    match EchoHdr::spec_parse(s.tap().subrange(g.l4_start as int, g.l4_end as int)) {
        Some(echo) => {
            let a = if g.dst_ip is V4 && s.cfg.nat64_prefix is Some {
                s.with_buf(
                    s.tap_buf,
                    s.tap().update(g.l4_start as int, proto::ICMPV6_ECHO_REQUEST),
                )
            } else {
                s
            };
            let key = FlowKey {
                proto: g.proto,
                guest_port: echo.id,
                dst: SocketAddr { ip: g.dst_ip, port: 0 },
            };
            lemma_forward(a, key, FlowKind::Ping, g.l4_start, g.l4_start, g.l4_end, now, id);
        },
        None => {},
    }
}

proof fn lemma_tap_frame(s: State, len: usize, now: Instant, id: usize)
    ensures
        ({
            let t = s.handle_tap_frame(len, now);
            &&& kept(s, t, id)
            &&& no_tap_read(s.ops) ==> no_tap_read(t.ops)
            &&& s.is_idle() && s.ask is Wait ==> policy_applied(s, t) && (t.is_idle()
                ==> !starts_flow(t.ask))
        }),
{
    let a = s.count(Counter::TapIn(len));
    lemma_op(s, Op::Count(Counter::TapIn(len)), id);
    match GuestFrame::spec_parse(s.tap().subrange(0, len as int)) {
        Some(g) => {
            let u = State { guest_mac: g.src_mac, ..a };
            lemma_handle_udp(u, g, now, id);
            lemma_handle_tcp(u, g, now, id);
            lemma_handle_echo(u, g, now, id);
        },
        None => {},
    }
}

/// What every completion but that of flow `id` keeps.
proof fn lemma_complete(s: State, ud: u64, res: i32, now: Instant, id: usize)
    ensures
        ({
            let t = s.complete(ud, res, now);
            &&& ud != id ==> kept(s, t, id)
            &&& s.is_idle() ==> policy_applied(s, t)
            &&& !t.is_idle() ==> no_tap_read(t.ops)
        }),
{
    let a = State { after: After::Nothing, ..s.begun() };
    if ud == TAP_UD {
        let b = State { after: After::Tap, ..a };
        lemma_tap_frame(b, res as usize, now, id);
        lemma_proceed(b.handle_tap_frame(res as usize, now), now, id);
    } else if ud == STOP_UD {
    } else if ud == TIMER_UD {
        lemma_proceed(State { after: After::Timer, ..a.with_due(now) }, now, id);
    } else if ud == CANCEL_UD || ud > usize::MAX {
    } else {
        lemma_flow_completed(a, ud as usize, res, now, id);
        lemma_proceed(a.flow_completed(ud as usize, res, now), now, id);
    }
}

proof fn lemma_opened(
    s: State,
    fd: Option<Fd>,
    key: FlowKey,
    kind: FlowKind,
    start: usize,
    end: usize,
    now: Instant,
    id: usize,
)
    requires
        s.wf(),
    ensures
        steady(s, s.opened(fd, key, kind, start, end, now), id),
{
    if let Some(fd) = fd {
        lemma_add_flow(s, key, kind, fd, None, now, id);
    }
}

proof fn lemma_opened_tcp(
    s: State,
    sock: Option<(Fd, u32)>,
    key: FlowKey,
    syn: TcpHdr,
    now: Instant,
    id: usize,
)
    requires
        s.wf(),
    ensures
        steady(s, s.opened_tcp(sock, key, syn, now), id),
{
    if let Some((fd, sndbuf)) = sock {
        let t = Tcp::spec_connecting(syn, sndbuf, now);
        lemma_add_flow(s, key, FlowKind::Tcp, fd, Some(t), now, id);
        let b = s.add_flow(key, FlowKind::Tcp, fd, Some(t), now);
        match s.added_id() {
            Some(j) => lemma_arm_poll(b, j, POLL_OUT, id),
            None => {},
        }
    }
}

proof fn lemma_acking(s: State, queued: Option<i32>, j: usize, now: Instant, id: usize)
    ensures
        steady(s, s.acking(queued, j, now), id),
{
    if let Some(t) = s.tcp(j) {
        lemma_send_control(s, j, proto::TCP_ACK, t.spec_window(queued), id);
        lemma_tcp_data(s.send_control(j, proto::TCP_ACK, t.spec_window(queued)), j, now, id);
    }
}

proof fn lemma_finning(s: State, queued: Option<i32>, j: usize, id: usize)
    ensures
        steady(s, s.finning(queued, j), id),
{
    if let Some(t) = s.tcp(j) {
        let flags = proto::TCP_FIN | proto::TCP_ACK;
        lemma_send_control(s, j, flags, t.spec_window(queued), id);
        let a = s.send_control(j, flags, t.spec_window(queued));
        assert(steady(a, s.finning(queued, j), id));
    }
}

proof fn lemma_tcp_checked(s: State, err: i32, j: usize, events: u32, now: Instant, id: usize)
    ensures
        steady(s, s.tcp_checked(err, j, events, now), id),
{
    if let Some(t) = s.tcp(j) {
        lemma_tcp_reset(s, j, id);
        let a = s.with_tcp(j, Tcp { state: TcpState::Established, ..t });
        assert(steady(s, a, id));
        lemma_send_syn_ack(a, j, id);
        lemma_arm_poll(a.send_syn_ack(j), j, POLL_RECV, id);
        lemma_tcp_data(State { after: After::Ready(j), ..s }, j, now, id);
    }
}

proof fn lemma_answered(s: State, reply: Reply, now: Instant, id: usize)
    requires
        s.wf(),
    ensures
        kept(s, s.answered(reply, now), id),
        no_tap_read(s.answered(reply, now).ops),
        starts_flow(s.answered(reply, now).ask) ==> {
            ||| reply == Reply::Policy(true)
            ||| s.pending is Resolving
        },
{
    let a = State { pending: Pending::Idle, ..s.begun() };
    assert(kept(s, a, id));
    assert(a.wf());
    match (s.pending, reply) {
        (Pending::NewFlow { key, kind, l4, .. }, Reply::Policy(_)) => {
            lemma_refuse(a, key, kind, l4, id);
        },
        (Pending::NewTcp { key, l4, .. }, Reply::Policy(_)) => {
            lemma_refuse(a, key, FlowKind::Tcp, l4, id);
        },
        (Pending::Opening { key, kind, start, end }, Reply::Opened(fd)) => {
            lemma_opened(a, fd, key, kind, start, end, now, id);
        },
        (Pending::OpeningTcp { key, syn }, Reply::OpenedTcp(sock)) => {
            lemma_opened_tcp(a, sock, key, syn, now, id);
        },
        (Pending::Sending { id: j, hdr, start, end }, Reply::Sent(n)) => {
            let len = (end - start) as usize;
            let c = Counter::SockSend { accepted: n, wanted: len };
            lemma_op(a, Op::Count(c), id);
            lemma_tcp_taken(a.count(c), j, hdr, len, n, now, id);
        },
        (Pending::Acking { id: j }, Reply::Queued(q)) => lemma_acking(a, q, j, now, id),
        (Pending::Filling { id: j }, Reply::Read(r)) => lemma_tcp_filled(a, r, j, id),
        (Pending::Finning { id: j }, Reply::Queued(q)) => lemma_finning(a, q, j, id),
        (Pending::Bursting { id: j, drained }, Reply::Queued(q)) => {
            lemma_bursting(a, q, j, drained, now, id);
        },
        (Pending::Checking { id: j, events }, Reply::SockError(e)) => {
            lemma_tcp_checked(a, e, j, events, now, id);
        },
        (Pending::Draining { id: j, seg, total }, Reply::Datagram(got)) => {
            lemma_drained(a, got, j, seg, total, now, id);
        },
        _ => {},
    }
}

/// An operation in the ring keeps its flow: no completion but its own
/// frees the flow's slot, socket or buffer, or hands them to another flow.
pub proof fn law_completion_keeps_others(s: State, ud: u64, res: i32, now: Instant, id: usize)
    requires
        ud != id,
    ensures
        kept(s, s.complete(ud, res, now), id),
{
    lemma_complete(s, ud, res, now, id);
}

/// An answer keeps every flow that has an operation in the ring.
pub proof fn law_answer_keeps_all(s: State, reply: Reply, now: Instant, id: usize)
    requires
        s.wf(),
        s.spec_accepts(reply),
    ensures
        kept(s, s.resume(reply, now), id),
{
    lemma_answered(s, reply, now, id);
    lemma_proceed(s.answered(reply, now), now, id);
}

/// No completion opens a socket for a flow that the policy has not let
/// through.
pub proof fn law_policy_first(s: State, ud: u64, res: i32, now: Instant)
    requires
        s.is_idle(),
    ensures
        policy_applied(s, s.complete(ud, res, now)),
{
    lemma_complete(s, ud, res, now, 0);
}

/// The tap buffer is not read into while an answer is awaited, so the
/// guest bytes that wait in it are still there when the answer comes.
pub proof fn law_tap_read_only_when_idle(
    s: State,
    ud: u64,
    res: i32,
    reply: Reply,
    now: Instant,
)
    requires
        s.wf(),
    ensures
        s.is_idle() && !s.complete(ud, res, now).is_idle() ==> no_tap_read(
            s.complete(ud, res, now).ops,
        ),
        !s.resume(reply, now).is_idle() ==> no_tap_read(s.resume(reply, now).ops),
{
    lemma_complete(s, ud, res, now, 0);
    lemma_answered(s, reply, now, 0);
    lemma_proceed(s.answered(reply, now), now, 0);
}

/// An answer leads to a socket only where it is the policy's consent, or
/// where the host resolver for a flow that was let through is known.
pub proof fn law_socket_needs_consent(s: State, reply: Reply, now: Instant)
    requires
        s.wf(),
        wants_socket(s.resume(reply, now).ask),
    ensures
        reply == Reply::Policy(true) || s.pending is Resolving,
{
    lemma_answered(s, reply, now, 0);
    lemma_proceed(s.answered(reply, now), now, 0);
}

/// The completion of a closing flow's operation frees the flow: its slot
/// is empty, its buffer back in the pool and its socket closed.
pub proof fn law_closing_flow_is_freed(s: State, id: usize, res: i32, now: Instant)
    requires
        s.wf(),
        s.is_idle(),
        s.holds(id),
        s.flow(id).closing,
    ensures
        ({
            let t = s.complete(id as u64, res, now);
            &&& !t.holds(id)
            &&& t.flows.lookup(s.flow(id).key) is None
            &&& t.pool.free == s.pool.free.push(s.flow(id).buf)
            &&& t.ops == seq![Op::Close { fd: s.flow(id).sock }]
        }),
{
    flow::law_remove(s.flows, id);
}

/// A frame that does not parse, or that was not sent from a configured
/// guest address, changes nothing: it is counted and the next read of the
/// tap is submitted.
pub proof fn law_foreign_frame_ignored(s: State, len: i32, now: Instant)
    requires
        s.is_idle(),
        len > 0,
        GuestFrame::spec_parse(s.tap().subrange(0, len as int)) matches Some(g) ==> g.src_ip
            != IpAddr::V4(s.cfg.guest4) && g.src_ip != IpAddr::V6(s.cfg.guest6),
    ensures
        s.complete(TAP_UD, len, now) == (State {
            ops: seq![
                Op::Count(Counter::TapIn(len as usize)),
                Op::ArmTapRead { buf: s.tap_buf },
            ],
            hdrs: Seq::empty(),
            after: After::Nothing,
            ask: Request::Wait,
            ..s
        }),
{
    assert(s.complete(TAP_UD, len, now).ops =~= seq![
        Op::Count(Counter::TapIn(len as usize)),
        Op::ArmTapRead { buf: s.tap_buf },
    ]);
}

/// Under the default policy a loopback destination is refused, IPv4-mapped
/// ones included, and a socket is asked for towards every other
/// destination.
pub proof fn law_default_policy(
    s: State,
    key: FlowKey,
    kind: FlowKind,
    syn: TcpHdr,
    l4: usize,
    start: usize,
    end: usize,
)
    requires
        s.cfg.allow_flow is None,
    ensures
        ({
            let loopback = match key.dst.ip {
                IpAddr::V4(ip) => ip.spec_loopback(),
                IpAddr::V6(ip) => ip.spec_loopback() || (ip.spec_mapped() matches Some(m)
                    && m.spec_loopback()),
            };
            let t = s.new_flow(key, kind, l4, start, end);
            let u = s.new_tcp_flow(key, syn, l4);
            &&& loopback ==> t == s.refused(key, kind, l4) && u == s.refused(
                key,
                FlowKind::Tcp,
                l4,
            )
            &&& !loopback ==> wants_socket(t.ask) && wants_socket(u.ask)
        }),
{
}

/// The flow that a guest frame asks for, if there is none for it yet.
pub open spec fn wanted_flow(s: State, g: GuestFrame) -> Option<(FlowKey, FlowKind)> {
    let l4 = s.tap().subrange(g.l4_start as int, g.l4_end as int);
    let found = if g.proto == proto::IPPROTO_UDP {
        match UdpHdr::spec_parse(l4) {
            Some(udp) => Some((udp.src_port, udp.dst_port, FlowKind::Udp)),
            None => None,
        }
    } else if g.proto == proto::IPPROTO_TCP {
        match TcpHdr::spec_parse(l4) {
            Some(tcp) => if tcp.flags & (proto::TCP_SYN | proto::TCP_ACK | proto::TCP_RST)
                == proto::TCP_SYN {
                Some((tcp.src_port, tcp.dst_port, FlowKind::Tcp))
            } else {
                None
            },
            None => None,
        }
    } else if g.proto == proto::IPPROTO_ICMP || g.proto == proto::IPPROTO_ICMPV6 {
        match EchoHdr::spec_parse(l4) {
            Some(echo) => if echo.msg_type == (if g.dst_ip is V4 {
                proto::ICMP_ECHO_REQUEST
            } else {
                proto::ICMPV6_ECHO_REQUEST
            }) {
                Some((echo.id, 0u16, FlowKind::Ping))
            } else {
                None
            },
            None => None,
        }
    } else {
        None
    };
    match found {
        Some((guest_port, port, kind)) => {
            let key = FlowKey {
                proto: g.proto,
                guest_port,
                dst: SocketAddr { ip: g.dst_ip, port },
            };
            if s.flows.lookup(key) is None {
                Some((key, kind))
            } else {
                None
            }
        },
        None => None,
    }
}

/// From `s` to `t` the guest frame `g` was refused. Exactly one frame is
/// written, before the tap is read again; it tells the guest that the host
/// it addressed is unreachable and holds the start of the guest's own
/// packet. No flow, no buffer and no socket is taken.
pub open spec fn told_unreachable(s: State, t: State, g: GuestFrame) -> bool {
    let at = t.ops.len() - 2;
    let packet = s.tap().subrange(L3_OFF as int, g.l4_start + 8);
    &&& t.flows == s.flows && t.pool.free == s.pool.free
    &&& forall|i: int|
        0 <= i < s.pool.bufs.len() && i != s.tap_buf ==> #[trigger] t.pool.bufs[i]
            == s.pool.bufs[i]
    &&& t.is_idle() && t.ask is Wait
    &&& at >= 0
    &&& forall|i: int|
        0 <= i < at ==> (#[trigger] t.ops[i]) is Count
    &&& t.ops[at] matches Op::WriteTap { buf, start, end } && frame::is_refusal(
        t.link(),
        t.pool.bufs[buf as int].subrange(start as int, end as int),
        g,
        packet,
    )
    &&& t.ops.last() == Op::ArmTapRead { buf: s.tap_buf }
    &&& frame::packet_of_guest(packet, g)
    &&& packet.skip(g.l4_start - L3_OFF) == s.tap().subrange(g.l4_start as int, g.l4_start + 8)
}

/// The step that refuses the flow wanted by the guest frame `g` in `tap`.
proof fn lemma_refused_frame(
    s: State,
    tap: Seq<u8>,
    len: int,
    g: GuestFrame,
    key: FlowKey,
    kind: FlowKind,
)
    requires
        s.tap_buf < s.pool.bufs.len(),
        s.tap().len() == buf::BUF_SIZE,
        tap.len() == buf::BUF_SIZE,
        0 <= len <= buf::BUF_SIZE,
        GuestFrame::spec_parse(tap.subrange(0, len)) == Some(g),
        g.l4_start + 8 <= g.l4_end,
        key.dst.ip == g.dst_ip,
        s.rewritten(key, kind) matches Some(x) ==> tap[g.l4_start as int] == x,
        s.tap() == tap || (s.rewritten(key, kind) is Some && exists|x: u8|
            s.tap() == tap.update(g.l4_start as int, x)),
    ensures
        ({
            let t = s.refused(key, kind, g.l4_start);
            let packet = tap.subrange(L3_OFF as int, g.l4_start + 8);
            &&& t.ops.len() == s.ops.len() + 2
            &&& t.ops[t.ops.len() - 2] is Count
            &&& t.ops.last() matches Op::WriteTap { buf, start, end } && frame::is_refusal(
                s.link(),
                t.pool.bufs[buf as int].subrange(start as int, end as int),
                g,
                packet,
            )
            &&& frame::packet_of_guest(packet, g)
            &&& packet.skip(g.l4_start - L3_OFF) == tap.subrange(
                g.l4_start as int,
                g.l4_start + 8,
            )
        }),
{
    let f = tap.subrange(0, len);
    let l4 = g.l4_start as int;
    frame::lemma_guest_frame(f);
    frame::law_refusal(s.link(), f, g);
    let packet = tap.subrange(L3_OFF as int, l4 + 8);
    assert(frame::packet_start(f, l4, None) =~= packet);
    assert(f.subrange(l4, l4 + 8) =~= tap.subrange(l4, l4 + 8));
    assert(frame::packet_start(s.tap(), l4, s.rewritten(key, kind)) =~= packet);
    let out = s.link().unreachable_frame(key.dst.ip, packet, (1, 3));
    frame::lemma_unreachable_len(s.link(), key.dst.ip, packet, (1, 3));
    let start = buf::HEADROOM - frame::frame_hdr_len(key.dst.ip);
    wire::lemma_splice(s.tap(), start, out);
    let t = s.refused(key, kind, g.l4_start);
    assert(t.tap().subrange(start, start + out.len()) =~= out);
}

/// The state in which the policy decides on the flow that `g` wants: an
/// echo request is rewritten for NAT64 by then.
spec fn at_policy(s: State, g: GuestFrame, key: FlowKey, kind: FlowKind) -> State {
    if s.rewritten(key, kind) is Some {
        s.with_buf(s.tap_buf, s.tap().update(g.l4_start as int, proto::ICMPV6_ECHO_REQUEST))
    } else {
        s
    }
}

/// A guest frame that wants a flow goes to the policy.
proof fn lemma_to_policy(s: State, len: usize, g: GuestFrame, now: Instant)
    requires
        GuestFrame::spec_parse(s.tap().subrange(0, len as int)) == Some(g),
        g.src_ip == IpAddr::V4(s.cfg.guest4) || g.src_ip == IpAddr::V6(s.cfg.guest6),
        wanted_flow(s, g) is Some,
    ensures
        ({
            let (key, kind) = wanted_flow(s, g)->0;
            let a = State { guest_mac: g.src_mac, ..s.count(Counter::TapIn(len)) };
            let t = s.handle_tap_frame(len, now);
            &&& s.cfg.allow_flow is Some ==> refusable(t.pending, key, kind, g.l4_start) && t
                == at_policy(a, g, key, kind).wait_for(
                t.pending,
                Request::Policy(state::flow_dst(key)),
            )
            &&& s.cfg.allow_flow is None && key.dst.ip.spec_loopback() ==> t == at_policy(
                a,
                g,
                key,
                kind,
            ).refused(key, kind, g.l4_start)
        }),
{
}

/// The policy decides on a flow for the packet whose L4 message is at `l4`.
spec fn refusable(p: Pending, key: FlowKey, kind: FlowKind, l4: usize) -> bool {
    match p {
        Pending::NewFlow { key: k, kind: d, l4: at, .. } => k == key && d == kind && at == l4,
        Pending::NewTcp { key: k, l4: at, .. } => k == key && kind == FlowKind::Tcp && at == l4,
        _ => false,
    }
}

/// What follows from a wanted flow: its packet holds eight L4 bytes, and an
/// echo request has the guest's type.
proof fn lemma_wanted_flow(s: State, len: int, g: GuestFrame)
    requires
        s.tap().len() == buf::BUF_SIZE,
        0 <= len <= buf::BUF_SIZE,
        GuestFrame::spec_parse(s.tap().subrange(0, len)) == Some(g),
        wanted_flow(s, g) is Some,
    ensures
        ({
            let (key, kind) = wanted_flow(s, g)->0;
            &&& g.l4_start + 8 <= g.l4_end <= len
            &&& key.dst.ip == g.dst_ip
            &&& s.rewritten(key, kind) matches Some(x) ==> s.tap()[g.l4_start as int] == x
        }),
{
    frame::lemma_guest_frame(s.tap().subrange(0, len));
    let l4 = s.tap().subrange(g.l4_start as int, g.l4_end as int);
    assert(l4.len() == g.l4_end - g.l4_start);
}

/// A refused flow is answered: the guest sees an unreachable host. Where a
/// guest frame wants a flow that does not exist yet, a caller with a policy
/// is asked about its destination, and refusing it has the guest told; with
/// the default policy the guest is told at once of a loopback destination.
pub proof fn law_refusal_reaches_guest(
    s: State,
    len: i32,
    g: GuestFrame,
    now: Instant,
    later: Instant,
)
    requires
        s.wf(),
        s.spec_ready(TAP_UD, len),
        len > 0,
        GuestFrame::spec_parse(s.tap().subrange(0, len as int)) == Some(g),
        g.src_ip == IpAddr::V4(s.cfg.guest4) || g.src_ip == IpAddr::V6(s.cfg.guest6),
        wanted_flow(s, g) is Some,
    ensures
        ({
            let (key, kind) = wanted_flow(s, g)->0;
            let t = s.complete(TAP_UD, len, now);
            &&& s.cfg.allow_flow is Some ==> t.ask == Request::Policy(state::flow_dst(key))
                && no_tap_write(t.ops) && told_unreachable(
                s,
                t.resume(Reply::Policy(false), later),
                g,
            )
            &&& s.cfg.allow_flow is None && key.dst.ip.spec_loopback() ==> told_unreachable(
                s,
                t,
                g,
            )
        }),
{
    let (key, kind) = wanted_flow(s, g)->0;
    let b = State { after: After::Tap, ..s.begun() };
    assert(b.tap() == s.tap() && wanted_flow(b, g) == wanted_flow(s, g));
    lemma_to_policy(b, len as usize, g, now);
    lemma_wanted_flow(s, len as int, g);
    let a = State { guest_mac: g.src_mac, ..b.count(Counter::TapIn(len as usize)) };
    let c = at_policy(a, g, key, kind);
    assert(a.rewritten(key, kind) == s.rewritten(key, kind));
    let h = b.handle_tap_frame(len as usize, now);
    let t = s.complete(TAP_UD, len, now);
    assert(t == h.proceed(now));
    if s.cfg.allow_flow is Some {
        assert(t == h);
        let d = State { pending: Pending::Idle, ..t.begun() };
        lemma_refused_frame(d, s.tap(), len as int, g, key, kind);
        let r = d.refused(key, kind, g.l4_start);
        let u = t.resume(Reply::Policy(false), later);
        assert(t.answered(Reply::Policy(false), later) == r);
        lemma_read_on(r, later);
        assert(u == r.proceed(later));
    } else if key.dst.ip.spec_loopback() {
        lemma_refused_frame(c, s.tap(), len as int, g, key, kind);
        lemma_read_on(h, now);
    }
}

/// After a guest frame the tap is read again.
pub proof fn lemma_read_on(s: State, now: Instant)
    requires
        s.is_idle(),
        s.after is Tap,
    ensures
        s.proceed(now) == (State {
            ops: s.ops.push(Op::ArmTapRead { buf: s.tap_buf }),
            after: After::Nothing,
            ask: Request::Wait,
            ..s
        }),
{
}

/// DNS to the gateway goes to the host resolver: an allowed flow to port
/// 53 of a gateway address asks for the resolver and connects there, and
/// no other flow does.
pub proof fn law_gateway_dns(
    s: State,
    key: FlowKey,
    start: usize,
    end: usize,
    resolver: SocketAddr,
)
    requires
        s.cfg.dns_forward,
    ensures
        ({
            let gateway = key.dst.port == 53 && (key.dst.ip == IpAddr::V4(s.cfg.gateway4)
                || key.dst.ip == IpAddr::V6(s.cfg.gateway6));
            let t = s.open_flow(key, FlowKind::Udp, start, end);
            &&& gateway ==> t.ask is Resolver && t.resolved(
                Some(resolver),
                key,
                start,
                end,
            ).ask == Request::OpenUdp(s.cfg.spec_nat64_target(resolver))
            &&& !gateway ==> t.ask == Request::OpenUdp(s.cfg.spec_nat64_target(key.dst))
        }),
{
}

/// Every socket that is opened has an owner: the new flow holds it, or it
/// is closed at once.
pub proof fn law_opened_socket_is_owned(
    s: State,
    fd: Fd,
    key: FlowKey,
    kind: FlowKind,
    tcp: Option<Tcp>,
    now: Instant,
)
    requires
        s.wf(),
    ensures
        ({
            let t = s.add_flow(key, kind, fd, tcp, now);
            match s.added_id() {
                Some(id) => {
                    &&& t.holds(id) && t.flow(id).sock == fd && t.flow(id).key == key
                    &&& t.flows.lookup(key) == Some(id)
                    &&& t.ops == s.ops
                },
                None => t.ops.last() == Op::Close { fd },
            }
        }),
{
    if s.pool.free.len() > 0 {
        flow::law_insert(s.flows, s.new_flow_value(key, kind, fd, tcp, now));
    }
}

/// A flow is evicted only where no buffer is free, and then it is a UDP or
/// ping flow that no other such flow was idle for longer than.
pub proof fn law_eviction(
    s: State,
    fd: Fd,
    key: FlowKey,
    kind: FlowKind,
    tcp: Option<Tcp>,
    now: Instant,
    id: usize,
)
    requires
        s.wf(),
        s.holds(id),
        !s.flow(id).closing,
        !s.add_flow(key, kind, fd, tcp, now).holds(id) || s.add_flow(
            key,
            kind,
            fd,
            tcp,
            now,
        ).flow(id).closing,
    ensures
        s.pool.free.len() == 0,
        s.flow(id).kind != FlowKind::Tcp,
        forall|j: usize|
            #![trigger s.flows.holds(j)]
            s.flows.holds(j) && flow::is_evictable(s.flow(j)) ==> s.flow(id).last_active <= s.flow(
                j,
            ).last_active,
{
    if s.pool.free.len() > 0 {
        flow::law_insert(s.flows, s.new_flow_value(key, kind, fd, tcp, now));
        assert(s.flows.inserted(s.new_flow_value(key, kind, fd, tcp, now)).holds(id));
    } else {
        flow::law_lru(s.flows.slots, s.flows.slots.len());
        assert forall|j: usize|
            #![trigger s.flows.holds(j)]
            s.flows.holds(j) && flow::is_evictable(s.flow(j)) implies s.flow(id).last_active
            <= s.flow(j).last_active by {
            assert(s.flows.slots[j as int] is Some);
        }
    }
}

/// Closing a list of flows leaves every other flow as it is, and every
/// flow in the list gone or closing.
proof fn lemma_remove_flows(s: State, ids: Seq<usize>, n: nat, id: usize)
    requires
        n <= ids.len(),
    ensures
        ({
            let t = s.remove_flows(ids, n);
            &&& t.holds(id) ==> s.holds(id)
            &&& t.holds(id) && !t.flow(id).closing ==> t.flow(id) == s.flow(id)
            &&& forall|i: int|
                0 <= i < n && #[trigger] ids[i] == id ==> !t.holds(id) || t.flow(id).closing
        }),
    decreases n,
{
    if n > 0 {
        lemma_remove_flows(s, ids, (n - 1) as nat, id);
    }
}

/// After the expiry sweep no flow is left that was idle for the expiry
/// time, unless it is closing.
pub proof fn law_expiry(s: State, now: Instant, id: usize)
    requires
        s.wf(),
        now >= FLOW_EXPIRY,
        s.expire_flows(now).holds(id),
        !s.expire_flows(now).flow(id).closing,
    ensures
        s.holds(id),
        s.expire_flows(now).flow(id) == s.flow(id),
        s.flow(id).last_active >= now - FLOW_EXPIRY,
{
    let cutoff = (now - FLOW_EXPIRY) as u64;
    let p = |f: Flow| flow::is_expired(f, cutoff);
    let slots = s.flows.slots;
    let ids = flow::ids_where(slots, slots.len(), p);
    lemma_remove_flows(s, ids, ids.len(), id);
    flow::law_ids_where(slots, slots.len(), p);
    if s.flow(id).last_active < cutoff {
        assert(slots[id as int] is Some && p(slots[id as int]->0));
        assert(ids.contains(id));
        let i = choose|i: int| 0 <= i < ids.len() && ids[i] == id;
        assert(ids[i] == id);
    }
}

/// The timer goes through exactly the TCP flows that have data in flight
/// and made no progress for the retransmission timeout.
pub proof fn law_stalled_flows_found(s: State, now: Instant, id: usize)
    requires
        s.wf(),
        now >= state::RTO,
    ensures
        s.with_due(now).due.contains(id) <==> s.holds(id) && flow::is_stalled(
            s.flow(id),
            (now - state::RTO) as u64,
        ),
{
    let cutoff = (now - state::RTO) as u64;
    let p = |f: Flow| flow::is_stalled(f, cutoff);
    let slots = s.flows.slots;
    flow::law_ids_where(slots, slots.len(), p);
    let ids = flow::ids_where(slots, slots.len(), p);
    if ids.contains(id) {
        let i = choose|i: int| 0 <= i < ids.len() && ids[i] == id;
        assert(ids[i] == id);
    }
    if s.holds(id) && flow::is_stalled(s.flow(id), cutoff) {
        assert(slots[id as int] is Some && p(slots[id as int]->0));
    }
}

/// The bytes that a segment's action writes to the tap.
pub open spec fn segment_bytes(t: State, o: Op) -> Seq<u8> {
    match o {
        Op::WriteSegment { hdr_start, hdr_end, buf, start, end, start2, end2 } => {
            let b = t.pool.bufs[buf as int];
            t.hdrs.subrange(hdr_start as int, hdr_end as int) + (b.subrange(
                start as int,
                end as int,
            ) + b.subrange(start2 as int, end2 as int))
        },
        _ => Seq::empty(),
    }
}

/// A segment sent on a flow reaches the guest as a frame from where the
/// guest connected to, to the guest's port, with the segment's sequence
/// numbers, flags and window and with the payload as it is in the buffer.
pub proof fn law_segment_reaches_guest(
    s: State,
    id: usize,
    seg: TcpSegment,
    start: usize,
    end: usize,
    start2: usize,
    end2: usize,
)
    requires
        s.wf(),
        s.holds(id),
        start <= end <= buf::BUF_SIZE,
        start2 <= end2 <= buf::BUF_SIZE,
        frame::fits_packet(
            s.flow(id).key.dst.ip,
            (proto::TCP_HDR_LEN + seg.options.bytes().len() + (end - start) + (end2 - start2)) as nat,
        ),
        s.hdrs.len() + buf::HEADROOM <= usize::MAX,
    ensures
        ({
            let t = s.send_segment(id, seg, start, end, start2, end2);
            let b = s.pool.bufs[s.flow(id).buf as int];
            let payload = b.subrange(start as int, end as int) + b.subrange(
                start2 as int,
                end2 as int,
            );
            let f = segment_bytes(t, t.ops.last());
            let g = GuestFrame::spec_parse(f)->0;
            let l4 = f.subrange(g.l4_start as int, g.l4_end as int);
            let h = TcpHdr::spec_parse(l4)->0;
            &&& GuestFrame::spec_parse(f) is Some && TcpHdr::spec_parse(l4) is Some
            &&& g.src_ip == s.flow(id).key.dst.ip
            &&& g.dst_ip == s.link().guest(s.flow(id).key.dst.ip)
            &&& h.src_port == s.flow(id).key.dst.port
            &&& h.dst_port == s.flow(id).key.guest_port
            &&& h.seq == seg.seq && h.ack == seg.ack
            &&& h.flags == seg.flags && h.window == seg.window
            &&& l4.skip(h.header_len as int) == payload
        }),
{
    let fl = s.flow(id);
    assert(s.flows.holds(id));
    let b = s.pool.bufs[fl.buf as int];
    let payload = b.subrange(start as int, end as int) + b.subrange(start2 as int, end2 as int);
    let csum = s.offloads.spec_csum();
    let hdr = s.link().segment_hdr(fl.key, seg, csum, payload);
    frame::lemma_segment_hdr_len(s.link(), fl.key, seg, csum, payload);
    let t = s.send_segment(id, seg, start, end, start2, end2);
    assert(t.hdrs.subrange(s.hdrs.len() as int, (s.hdrs.len() + hdr.len()) as int) =~= hdr);
    assert(segment_bytes(t, t.ops.last()) == hdr + payload);
    frame::law_segment_roundtrip(s.link(), fl.key, seg, csum, payload);
}

/// Nothing is written to the tap.
pub open spec fn no_tap_write(ops: Seq<Op>) -> bool {
    forall|i: int|
        0 <= i < ops.len() ==> !(#[trigger] ops[i] is WriteTap) && !(ops[i] is WriteSegment)
}

/// The SYN-ACK waits for the host connection: neither opening the socket
/// of a TCP flow nor a guest segment on a flow that still connects writes
/// anything to the guest.
pub proof fn law_connecting_is_silent(
    s: State,
    sock: Option<(Fd, u32)>,
    key: FlowKey,
    hdr: TcpHdr,
    id: usize,
    start: usize,
    end: usize,
    now: Instant,
)
    requires
        no_tap_write(s.ops),
    ensures
        no_tap_write(s.opened_tcp(sock, key, hdr, now).ops),
        s.tcp(id) matches Some(t) && t.state == TcpState::Connecting ==> no_tap_write(
            s.tcp_from_guest(id, hdr, start, end, now).ops,
        ),
{
}

/// Action `at` of `t` writes a TCP segment of flow `id` to the guest: it
/// comes from where the guest connects to, has these flags and no payload.
pub open spec fn control_sent(s: State, t: State, id: usize, at: int, flags: u8) -> bool {
    let f = segment_bytes(t, t.ops[at]);
    let g = GuestFrame::spec_parse(f)->0;
    let l4 = f.subrange(g.l4_start as int, g.l4_end as int);
    let h = TcpHdr::spec_parse(l4)->0;
    &&& 0 <= at < t.ops.len()
    &&& GuestFrame::spec_parse(f) is Some && TcpHdr::spec_parse(l4) is Some
    &&& g.src_ip == s.flow(id).key.dst.ip
    &&& h.src_port == s.flow(id).key.dst.port
    &&& h.dst_port == s.flow(id).key.guest_port
    &&& h.flags == flags
    &&& l4.skip(h.header_len as int).len() == 0
}

/// A connect that failed resets the guest's connection: an RST goes to the
/// guest and the flow is gone, or closing where an operation is pending.
pub proof fn law_refused_connect_resets(s: State, id: usize, err: i32, events: u32, now: Instant)
    requires
        s.wf(),
        s.hdrs.len() + buf::HEADROOM <= usize::MAX,
        s.tcp(id) matches Some(t) && t.state == TcpState::Connecting,
        err != 0 || events & (state::POLL_ERR | state::POLL_HUP) != 0,
    ensures
        ({
            let t = s.tcp_checked(err, id, events, now);
            &&& control_sent(s, t, id, s.ops.len() as int + 2, proto::TCP_RST | proto::TCP_ACK)
            &&& !t.holds(id) || t.flow(id).closing
        }),
{
    let a = s.count(Counter::TcpCtrl);
    let tcp = s.tcp(id)->0;
    let seg = TcpSegment {
        seq: tcp.spec_next_seq(),
        ack: tcp.seq_from_guest,
        flags: proto::TCP_RST | proto::TCP_ACK,
        window: 0,
        options: frame::TcpOptions::Empty,
        gso_size: None,
    };
    let h = buf::HEADROOM;
    lemma_control(a, id, seg);
    let b = a.send_segment(id, seg, h, h, h, h);
    let t = s.tcp_checked(err, id, events, now);
    assert(b.ops.len() == s.ops.len() + 3);
    assert(t.ops[s.ops.len() as int + 2] == b.ops.last());
    assert(segment_bytes(t, b.ops.last()) == segment_bytes(b, b.ops.last()));
}

proof fn lemma_control(s: State, id: usize, seg: TcpSegment)
    requires
        s.pool.wf(),
        s.holds(id),
        s.flow(id).buf < s.pool.bufs.len(),
        s.hdrs.len() + buf::HEADROOM <= usize::MAX,
    ensures
        ({
            let h = buf::HEADROOM;
            let t = s.send_segment(id, seg, h, h, h, h);
            control_sent(s, t, id, t.ops.len() - 1, seg.flags)
        }),
{
    let fl = s.flow(id);
    let h = buf::HEADROOM;
    let b = s.pool.bufs[fl.buf as int];
    let payload = b.subrange(h as int, h as int) + b.subrange(h as int, h as int);
    let csum = s.offloads.spec_csum();
    let hdr = s.link().segment_hdr(fl.key, seg, csum, payload);
    frame::lemma_segment_hdr_len(s.link(), fl.key, seg, csum, payload);
    let t = s.send_segment(id, seg, h, h, h, h);
    assert(t.hdrs.subrange(s.hdrs.len() as int, (s.hdrs.len() + hdr.len()) as int) =~= hdr);
    assert(segment_bytes(t, t.ops.last()) == hdr + payload);
    frame::law_segment_roundtrip(s.link(), fl.key, seg, csum, payload);
}

/// A connect that succeeded is answered with the SYN-ACK, and the flow then
/// waits for host data.
pub proof fn law_connected_sends_syn_ack(s: State, id: usize, events: u32, now: Instant)
    requires
        s.wf(),
        s.hdrs.len() + buf::HEADROOM <= usize::MAX,
        s.tcp(id) matches Some(t) && t.state == TcpState::Connecting,
        events & (state::POLL_ERR | state::POLL_HUP) == 0,
    ensures
        ({
            let t = s.tcp_checked(0, id, events, now);
            &&& control_sent(s, t, id, s.ops.len() as int + 1, proto::TCP_SYN | proto::TCP_ACK)
            &&& t.ops.last() == Op::ArmPoll { id, fd: s.flow(id).sock, events: POLL_RECV }
            &&& t.tcp(id) matches Some(u) && u.state == TcpState::Established && u.poll_armed
        }),
{
    let tcp = s.tcp(id)->0;
    let a = s.with_tcp(id, Tcp { state: TcpState::Established, ..tcp });
    let seg = TcpSegment {
        seq: tcp::TCP_ISN,
        ack: tcp.seq_from_guest,
        flags: proto::TCP_SYN | proto::TCP_ACK,
        window: tcp.spec_syn_window(),
        options: if tcp.guest_wscale is Some {
            frame::TcpOptions::MssAndScale
        } else {
            frame::TcpOptions::Mss
        },
        gso_size: None,
    };
    let h = buf::HEADROOM;
    lemma_control(a, id, seg);
    let b = a.send_segment(id, seg, h, h, h, h);
    let t = s.tcp_checked(0, id, events, now);
    assert(b.ops.len() == s.ops.len() + 2);
    assert(t.ops[s.ops.len() as int + 1] == b.ops.last());
    assert(segment_bytes(t, b.ops.last()) == segment_bytes(b, b.ops.last()));
}

/// What the guest makes of a super-frame: its payload cut every `seg`
/// bytes.
pub open spec fn segments(b: Seq<u8>, seg: int) -> Seq<Seq<u8>>
    decreases b.len(),
{
    if seg <= 0 || b.len() == 0 {
        Seq::empty()
    } else if b.len() <= seg {
        seq![b]
    } else {
        seq![b.take(seg)] + segments(b.skip(seg), seg)
    }
}

proof fn lemma_segments_append(a: Seq<u8>, d: Seq<u8>, seg: int)
    requires
        seg > 0,
        a.len() % (seg as nat) == 0,
        0 < d.len() <= seg,
    ensures
        segments(a + d, seg) == segments(a, seg).push(d),
    decreases a.len(),
{
    if a.len() == 0 {
        assert(a + d =~= d);
        assert(segments(a, seg).push(d) =~= seq![d]);
    } else {
        if a.len() < seg {
            vstd::arithmetic::div_mod::lemma_small_mod(a.len(), seg as nat);
        }
        let rest = a.skip(seg);
        vstd::arithmetic::div_mod::lemma_mod_sub_multiples_vanish(a.len() as int, seg);
        lemma_segments_append(rest, d, seg);
        assert((a + d).take(seg) =~= a.take(seg));
        assert((a + d).skip(seg) =~= rest + d);
        if a.len() == seg {
            assert(a.take(seg) =~= a);
            assert(rest =~= Seq::empty());
            assert(segments(rest, seg) =~= Seq::empty());
        }
        assert(segments(a, seg) =~= seq![a.take(seg)] + segments(rest, seg));
        assert(segments(a + d, seg) =~= segments(a, seg).push(d));
    }
}

/// Writing a UDP reply leaves the payload and what is behind it alone.
proof fn lemma_reply_keeps_payload(
    s: State,
    id: usize,
    total: usize,
    gso: Option<u16>,
    now: Instant,
)
    requires
        s.wf(),
        s.holds(id),
        s.flow(id).kind == FlowKind::Udp,
        total <= buf::FRAME,
    ensures
        ({
            let h = buf::HEADROOM as int;
            let buf = s.flow(id).buf as int;
            s.reply_to_guest(id, total, gso, now).pool.bufs[buf].skip(h) == s.pool.bufs[buf].skip(h)
        }),
{
    let h = buf::HEADROOM as int;
    let fl = s.flow(id);
    assert(s.flows.holds(id));
    let b = s.pool.bufs[fl.buf as int];
    let a = b.subrange(h, h + total);
    let out = s.link().udp_frame(fl.key, a, gso);
    let written = s.reply_to_guest(id, total, gso, now).pool.bufs[fl.buf as int];
    frame::lemma_udp_frame(s.link(), fl.key, a, gso);
    let at = h + total - out.len();
    assert(written == wire::splice(b, at, out));
    wire::lemma_splice(b, at, out);
    assert forall|i: int| h <= i < b.len() implies written[i] == b[i] by {
        if i < h + total {
            assert(out.skip(out.len() - total)[i - h] == a[i - h]);
        }
    }
    assert(written.skip(h) =~= b.skip(h));
}

/// Collecting datagrams into super-frames loses no boundary: a datagram
/// that joins a super-frame comes out of it, at the guest, as one more
/// segment behind the others; writing a super-frame leaves the bytes behind
/// it alone; and a datagram that starts a new super-frame is its only
/// segment.
pub proof fn law_super_frame_resegments(
    s: State,
    id: usize,
    seg: usize,
    total: usize,
    n: usize,
    gso: Option<u16>,
    now: Instant,
)
    requires
        s.wf(),
        s.holds(id),
        s.flow(id).kind == FlowKind::Udp,
        inv::super_frame_ok(seg, total),
        0 < n <= buf::FRAME - total,
    ensures
        ({
            let h = buf::HEADROOM as int;
            let buf = s.flow(id).buf as int;
            let b = s.pool.bufs[buf];
            let datagram = b.subrange(h + total, h + total + n);
            let written = s.reply_to_guest(id, total, gso, now).pool.bufs[buf];
            let moved = s.flushed(id, total, n).pool.bufs[buf];
            &&& n <= seg ==> segments(b.subrange(h, h + total + n), seg as int) == segments(
                b.subrange(h, h + total),
                seg as int,
            ).push(datagram)
            &&& n <= seg && total + n <= state::UDP_MAX_PAYLOAD ==> state::spec_gso_of(
                total + n,
                seg as int,
            ) == Some(seg as u16)
            &&& written.skip(h) == b.skip(h)
            &&& segments(moved.subrange(h, h + n), n as int) == seq![datagram]
        }),
{
    let h = buf::HEADROOM as int;
    let fl = s.flow(id);
    assert(s.flows.holds(id));
    let b = s.pool.bufs[fl.buf as int];
    let a = b.subrange(h, h + total);
    let d = b.subrange(h + total, h + total + n);
    if n <= seg {
        assert(a + d =~= b.subrange(h, h + total + n));
        lemma_segments_append(a, d, seg as int);
    }
    lemma_reply_keeps_payload(s, id, total, gso, now);
    let moved = s.flushed(id, total, n).pool.bufs[fl.buf as int];
    assert(moved == wire::splice(b, h, d));
    assert(moved.subrange(h, h + n) =~= d);
}

} // verus!
