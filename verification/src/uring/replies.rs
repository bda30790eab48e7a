//! What reaches the guest: datagrams, echo replies and errors of the host's
//! sockets, framed as if they came from where the guest sent to.

use vstd::prelude::*;

use crate::addr::IpAddr;
use crate::buf;
use crate::flow::{Flow, FlowKey, FlowKind, Instant};
use crate::frame;
use crate::frame::GuestFrame;
use crate::proto;
use crate::proto::{EchoHdr, Ipv4Hdr, Ipv6Hdr, UdpHdr};
use crate::tap::VnetHdr;
use crate::uring::paths;
use crate::uring::state;
use crate::uring::state::{Counter, Op, Pending, Reply, Request, State};
use crate::wire;

verus! {

/// The bytes that action `k` of `t` writes to the tap.
pub open spec fn written(t: State, k: int) -> Seq<u8> {
    match t.ops[k] {
        Op::WriteTap { buf, start, end } => t.pool.bufs[buf as int].subrange(
            start as int,
            end as int,
        ),
        _ => Seq::empty(),
    }
}

/// The guest's address of the family of `ip`.
pub open spec fn guest_address(s: State, ip: IpAddr) -> IpAddr {
    match ip {
        IpAddr::V4(_) => IpAddr::V4(s.cfg.guest4),
        IpAddr::V6(_) => IpAddr::V6(s.cfg.guest6),
    }
}

/// The L4 message in the frame `f`.
pub open spec fn message_in(f: Seq<u8>) -> Seq<u8> {
    let g = GuestFrame::spec_parse(f)->0;
    f.subrange(g.l4_start as int, g.l4_end as int)
}

/// The frame `f` goes from `src` to the guest, by way of the gateway's and
/// the guest's hardware address, with a message of protocol `proto`.
pub open spec fn to_guest(s: State, f: Seq<u8>, src: IpAddr, proto: u8) -> bool {
    &&& GuestFrame::spec_parse(f) matches Some(g) && g.src_ip == src && g.dst_ip == guest_address(
        s,
        src,
    ) && g.proto == proto
    &&& f.subrange(10, 16) == s.guest_mac@
    &&& f.subrange(16, 22) == s.cfg.gateway_mac@
}

/// The frame `f` brings the guest `data` from where its flow `key` goes, to
/// the port it sends from: as one datagram that checks out, or as a
/// super-frame that the device cuts into datagrams of `gso` bytes.
pub open spec fn brings(
    s: State,
    f: Seq<u8>,
    key: FlowKey,
    data: Seq<u8>,
    gso: Option<u16>,
) -> bool {
    let l4 = message_in(f);
    let v = VnetHdr::spec_parse(f.take(10));
    &&& to_guest(s, f, key.dst.ip, 17)
    &&& paths::number_at(l4, 0) == key.dst.port
    &&& paths::number_at(l4, 2) == key.guest_port
    &&& paths::number_at(l4, 4) == data.len() + 8
    &&& l4.skip(8) == data
    &&& match gso {
        Some(g) => v.flags == 1 && v.gso_type == 5 && v.gso_size == g,
        None => v == VnetHdr::zero() && proto::spec_checksum(
            l4,
            s.link().pseudo(key.dst.ip, 17, (data.len() + 8) as u16),
        ) == 0,
    }
}

/// A UDP frame brings its payload.
proof fn lemma_brings(s: State, key: FlowKey, data: Seq<u8>, gso: Option<u16>)
    requires
        frame::fits_packet(key.dst.ip, data.len() + 8),
    ensures
        brings(s, s.link().udp_frame(key, data, gso), key, data, gso),
{
    let link = s.link();
    let f = link.udp_frame(key, data, gso);
    frame::law_udp_reply(link, key, data, gso);
    frame::law_udp_offload(link, key, data, gso);
    let pseudo = link.pseudo(key.dst.ip, 17, (data.len() + 8) as u16);
    let m = proto::udp_bytes(key.dst.port, key.guest_port, data, pseudo, gso is Some);
    assert(proto::len16(proto::UDP_HDR_LEN as nat + data.len()) == (data.len() + 8) as u16);
    let vnet = frame::udp_vnet(key.dst.ip, gso);
    assert(f == link.frame(key.dst.ip, 17, m, vnet));
    frame::law_frame_headers(link, key.dst.ip, 17, m, vnet);
    frame::law_frame_roundtrip(link, key.dst.ip, 17, m, vnet);
    let l4 = message_in(f);
    let n = frame::frame_hdr_len(key.dst.ip);
    assert(l4 =~= f.skip(n));
    assert(UdpHdr::spec_parse(l4) is Some);
}

/// What is known of a flow and its buffer.
pub open spec fn has_buffer(s: State, id: usize) -> bool {
    &&& s.holds(id)
    &&& s.flow(id).buf < s.pool.bufs.len()
    &&& s.pool.bufs[s.flow(id).buf as int].len() == buf::BUF_SIZE
}

/// The first `len` bytes behind the headroom of flow `id`'s buffer.
pub open spec fn received(s: State, id: usize, len: int) -> Seq<u8> {
    s.pool.bufs[s.flow(id).buf as int].subrange(256, 256 + len)
}

/// Every flow has a buffer of its own and is known by a small number.
pub proof fn lemma_has_buffer(s: State, id: usize)
    requires
        s.wf(),
        s.holds(id),
    ensures
        has_buffer(s, id),
        id <= u32::MAX,
{
    assert(s.flows.holds(id));
}

/// A reply on a UDP flow is framed and written.
proof fn lemma_udp_written(s: State, id: usize, len: usize, gso: Option<u16>, now: Instant)
    requires
        has_buffer(s, id),
        s.flow(id).kind == FlowKind::Udp,
        len <= buf::FRAME,
        frame::fits_packet(s.flow(id).key.dst.ip, (len + 8) as nat),
    ensures
        ({
            let t = s.reply_to_guest(id, len, gso, now);
            let n = s.ops.len() as int;
            &&& t.ops.len() == n + 2 && t.ops.take(n) == s.ops
            &&& t.ops[n] is Count && t.ops[n + 1] is WriteTap
            &&& brings(s, written(t, n + 1), s.flow(id).key, received(s, id, len as int), gso)
            &&& t == (State {
                pool: s.pool.with_buf(s.flow(id).buf, t.pool.bufs[s.flow(id).buf as int]),
                flows: s.flows.with_flow(id, Flow { last_active: now, ..s.flow(id) }),
                ops: t.ops,
                ..s
            })
            &&& t.pool.bufs[s.flow(id).buf as int].len() == buf::BUF_SIZE
            &&& t.pool.bufs[s.flow(id).buf as int].skip(256)
                == s.pool.bufs[s.flow(id).buf as int].skip(256)
        }),
{
    let f = s.flow(id);
    let b = s.pool.bufs[f.buf as int];
    let data = received(s, id, len as int);
    let out = s.link().udp_frame(f.key, data, gso);
    frame::lemma_udp_frame(s.link(), f.key, data, gso);
    lemma_brings(s, f.key, data, gso);
    let at = 256 + len - out.len();
    wire::lemma_splice(b, at, out);
    let t = s.reply_to_guest(id, len, gso, now);
    let n = s.ops.len() as int;
    assert(t.ops.take(n) =~= s.ops);
    let w = t.pool.bufs[f.buf as int];
    assert(w == wire::splice(b, at, out));
    assert(written(t, n + 1) == out);
    assert forall|i: int| 256 <= i < b.len() implies w[i] == b[i] by {
        if i < 256 + len {
            assert(out.skip(out.len() - len)[i - 256] == data[i - 256]);
        }
    }
    assert(w.skip(256) =~= b.skip(256));
}

/// After a completion on a UDP or ping flow its next receive is submitted.
proof fn lemma_receive_on(s: State, id: usize, now: Instant)
    requires
        s.is_idle(),
        s.after == state::After::Recv(id),
        s.holds(id),
    ensures
        s.proceed(now) == (State {
            ops: s.ops.push(
                Op::ArmRecv {
                    id,
                    fd: s.flow(id).sock,
                    buf: s.flow(id).buf,
                    start: 256,
                    end: 262_400,
                },
            ),
            after: state::After::Nothing,
            ask: Request::Wait,
            ..s
        }),
{
}

/// Action `k` of `t` is the last and submits the next receive of flow `id`
/// of `s`, into all of its buffer behind the headroom; nothing is awaited.
pub open spec fn receives_on(s: State, t: State, id: usize, k: int) -> bool {
    &&& t.ops.len() == k + 1
    &&& t.ops[k] == Op::ArmRecv {
        id,
        fd: s.flow(id).sock,
        buf: s.flow(id).buf,
        start: 256,
        end: 262_400,
    }
    &&& t.is_idle() && t.ask is Wait
    &&& t.holds(id) && t.flow(id).key == s.flow(id).key && t.flow(id).sock == s.flow(id).sock
}

/// A receive on flow `id` completed.
proof fn lemma_received(s: State, id: usize, res: i32, now: Instant)
    requires
        s.is_idle(),
        s.holds(id),
        id <= u32::MAX,
        !s.flow(id).closing,
        s.flow(id).kind != FlowKind::Tcp,
        res != -125,
    ensures
        ({
            let a = State { after: state::After::Recv(id), ..s.begun() };
            s.complete(id as u64, res, now) == (if s.flow(id).kind == FlowKind::Udp {
                if res >= 0 {
                    a.udp_to_guest(id, res as usize, now)
                } else {
                    a.udp_error_to_guest(id, (-res) as i32, now)
                }
            } else if res >= 0 {
                a.reply_to_guest(id, res as usize, None, now)
            } else {
                a
            }).proceed(now)
        }),
{
}

/// A datagram that arrives on a flow reaches the guest: exactly one frame is
/// written, it brings what the socket received, and the next receive is
/// submitted.
pub proof fn law_datagram_reaches_guest(s: State, id: usize, res: i32, now: Instant)
    requires
        s.wf(),
        s.is_idle(),
        s.holds(id),
        s.flow(id).kind == FlowKind::Udp,
        !s.flow(id).closing,
        0 <= res,
        frame::fits_packet(s.flow(id).key.dst.ip, (res + 8) as nat),
        !(s.offloads.spec_uso() && s.offloads.spec_csum()) || res == 0,
    ensures
        ({
            let t = s.complete(id as u64, res, now);
            &&& t.ops[0] is Count && t.ops[1] is WriteTap
            &&& brings(s, written(t, 1), s.flow(id).key, received(s, id, res as int), None)
            &&& receives_on(s, t, id, 2)
            &&& t.flow(id).last_active == now
        }),
{
    lemma_has_buffer(s, id);
    lemma_received(s, id, res, now);
    let a = State { after: state::After::Recv(id), ..s.begun() };
    lemma_udp_written(a, id, res as usize, None, now);
    let b = a.reply_to_guest(id, res as usize, None, now);
    lemma_receive_on(b, id, now);
    let t = s.complete(id as u64, res, now);
    assert(t == b.proceed(now));
    assert(received(a, id, res as int) == received(s, id, res as int));
    assert(written(t, 1) == written(b, 1));
}

/// Where the tap takes super-frames, a datagram waits in its buffer while
/// the next one is asked for, right behind it.
pub proof fn law_datagram_waits_for_more(s: State, id: usize, res: i32, now: Instant)
    requires
        s.wf(),
        s.is_idle(),
        s.holds(id),
        s.flow(id).kind == FlowKind::Udp,
        !s.flow(id).closing,
        0 < res <= 262_144,
        s.offloads.spec_uso() && s.offloads.spec_csum(),
    ensures
        ({
            let t = s.complete(id as u64, res, now);
            &&& t.ask == Request::RecvUdp {
                fd: s.flow(id).sock,
                buf: s.flow(id).buf,
                start: (256 + res) as usize,
                end: 262_400,
            }
            &&& t.pending == Pending::Draining { id, seg: res as usize, total: res as usize }
            &&& t.ops.len() == 0
            &&& t.pool == s.pool && t.flows == s.flows
            &&& t.after == state::After::Recv(id)
        }),
{
    lemma_has_buffer(s, id);
    lemma_received(s, id, res, now);
}

/// What becomes of the datagrams collected so far once the next one, if
/// any, is there: nothing more waits, and they leave as they are; it is
/// shorter than they are and fits, and they leave with it; it is as long
/// and fits, and the one after it is asked for; or it does not fit, and
/// they leave first. They leave as a super-frame if there are several, and
/// none of their bytes is lost.
pub proof fn law_datagrams_leave(
    s: State,
    id: usize,
    seg: usize,
    total: usize,
    got: Option<usize>,
    now: Instant,
)
    requires
        s.wf(),
        s.holds(id),
        s.flow(id).kind == FlowKind::Udp,
        s.pending == (Pending::Draining { id, seg, total }),
        s.after == state::After::Recv(id),
        s.spec_accepts(Reply::Datagram(got)),
        frame::fits_packet(s.flow(id).key.dst.ip, (total + 8) as nat),
        seg <= 65_535,
    ensures
        ({
            let t = s.resume(Reply::Datagram(got), now);
            let key = s.flow(id).key;
            let gso = |n: int|
                if n > seg {
                    Some(seg as u16)
                } else {
                    None
                };
            match got {
                None => {
                    &&& t.ops[1] is WriteTap && receives_on(s, t, id, 2)
                    &&& brings(s, written(t, 1), key, received(s, id, total as int), gso(
                        total as int,
                    ))
                },
                Some(n) => if n == 0 {
                    &&& t.ops[2] is WriteTap && receives_on(s, t, id, 3)
                    &&& brings(s, written(t, 2), key, received(s, id, total as int), gso(
                        total as int,
                    ))
                } else if n < seg && total + n <= 65_507 {
                    &&& t.ops[2] is WriteTap && receives_on(s, t, id, 3)
                    &&& brings(s, written(t, 2), key, received(s, id, total + n), Some(seg as u16))
                } else if n == seg && total + n <= 65_507 {
                    &&& t.ops.len() == 1 && t.ops[0] is Count
                    &&& t.pool == s.pool
                    &&& t.pending == Pending::Draining { id, seg, total: (total + n) as usize }
                    &&& t.ask == Request::RecvUdp {
                        fd: s.flow(id).sock,
                        buf: s.flow(id).buf,
                        start: (256 + total + n) as usize,
                        end: 262_400,
                    }
                } else {
                    &&& t.ops.len() == 3 && t.ops[2] is WriteTap
                    &&& brings(s, written(t, 2), key, received(s, id, total as int), gso(
                        total as int,
                    ))
                    &&& t.ask is Flush && t.pending == Pending::Flushing { id, total, n }
                    &&& t.pool.bufs[s.flow(id).buf as int].skip(256)
                        == s.pool.bufs[s.flow(id).buf as int].skip(256)
                },
            }
        }),
{
    lemma_has_buffer(s, id);
    let a = State { pending: Pending::Idle, ..s.begun() };
    let t = s.resume(Reply::Datagram(got), now);
    let g = |n: int|
        if n > seg {
            Some(seg as u16)
        } else {
            None
        };
    match got {
        None => {
            assert(state::spec_gso_of(total as int, seg as int) == g(total as int));
            lemma_leave(s, a, id, total, g(total as int), now);
        },
        Some(n) => {
            let c = a.count(Counter::SockRecv { empty: n == 0 });
            if n == 0 {
                assert(state::spec_gso_of(total as int, seg as int) == g(total as int));
                lemma_leave(s, c, id, total, g(total as int), now);
            } else if n < seg && total + n <= 65_507 {
                let more = (total + n) as usize;
                assert(state::spec_gso_of(more as int, seg as int) == Some(seg as u16));
                lemma_leave(s, c, id, more, Some(seg as u16), now);
            } else if n == seg && total + n <= 65_507 {
            } else {
                assert(state::spec_gso_of(total as int, seg as int) == g(total as int));
                lemma_udp_written(c, id, total, g(total as int), now);
                let b = c.reply_to_guest(id, total, g(total as int), now);
                assert(t == b.wait_for(Pending::Flushing { id, total, n }, Request::Flush));
                assert(received(c, id, total as int) == received(s, id, total as int));
                assert(written(t, 2) == written(b, 2));
            }
        },
    }
}

/// Collected datagrams leave, and the next receive is submitted.
proof fn lemma_leave(
    s: State,
    a: State,
    id: usize,
    len: usize,
    gso: Option<u16>,
    now: Instant,
)
    requires
        has_buffer(s, id),
        s.flow(id).kind == FlowKind::Udp,
        a.flows == s.flows && a.pool == s.pool && a.cfg == s.cfg && a.guest_mac == s.guest_mac,
        a.is_idle(),
        a.after == state::After::Recv(id),
        len <= buf::FRAME,
        frame::fits_packet(s.flow(id).key.dst.ip, (len + 8) as nat),
    ensures
        ({
            let t = a.reply_to_guest(id, len, gso, now).proceed(now);
            let n = a.ops.len() as int;
            &&& t.ops[n + 1] is WriteTap
            &&& receives_on(s, t, id, n + 2)
            &&& brings(s, written(t, n + 1), s.flow(id).key, received(s, id, len as int), gso)
        }),
{
    lemma_udp_written(a, id, len, gso, now);
    let b = a.reply_to_guest(id, len, gso, now);
    lemma_receive_on(b, id, now);
    let t = b.proceed(now);
    let n = a.ops.len() as int;
    assert(received(a, id, len as int) == received(s, id, len as int));
    assert(written(t, n + 1) == written(b, n + 1));
    assert(a.link() == s.link());
}

/// A datagram that did not fit is first in the next super-frame: it moves
/// to the front, and the one after it is asked for right behind it.
pub proof fn law_datagram_moves_up(s: State, id: usize, total: usize, n: usize, now: Instant)
    requires
        s.wf(),
        s.holds(id),
        s.pending == (Pending::Flushing { id, total, n }),
    ensures
        ({
            let t = s.resume(Reply::Flushed, now);
            &&& received(t, id, n as int) == s.pool.bufs[s.flow(id).buf as int].subrange(
                256 + total,
                256 + total + n,
            )
            &&& t.flows == s.flows
            &&& t.ops.len() == 0
            &&& t.pending == Pending::Draining { id, seg: n, total: n }
            &&& t.ask == Request::RecvUdp {
                fd: s.flow(id).sock,
                buf: s.flow(id).buf,
                start: (256 + n) as usize,
                end: 262_400,
            }
        }),
{
    lemma_has_buffer(s, id);
    let b = s.pool.bufs[s.flow(id).buf as int];
    let d = b.subrange(256 + total, 256 + total + n);
    wire::lemma_splice(b, 256, d);
    let t = s.resume(Reply::Flushed, now);
    assert(t.pool.bufs[s.flow(id).buf as int] == wire::splice(b, 256, d));
    assert(received(t, id, n as int) =~= d);
}

/// An echo reply that arrives on a ping flow reaches the guest from where
/// it sent its request to: with the guest's identifier, as an ICMP reply
/// under NAT64, and otherwise as it came. What is no whole echo header, or
/// under NAT64 no echo reply, is dropped. Either way the next receive is
/// submitted.
pub proof fn law_echo_reply_reaches_guest(s: State, id: usize, res: i32, now: Instant)
    requires
        s.wf(),
        s.is_idle(),
        s.holds(id),
        s.flow(id).kind == FlowKind::Ping,
        !s.flow(id).closing,
        0 <= res,
        frame::fits_packet(s.flow(id).key.dst.ip, res as nat),
    ensures
        ({
            let t = s.complete(id as u64, res, now);
            let key = s.flow(id).key;
            let msg = received(s, id, res as int);
            let nat64 = s.cfg.nat64_prefix is Some && key.dst.ip is V4;
            if res < 8 || (nat64 && msg[0] != 129) {
                receives_on(s, t, id, 0) && t.pool == s.pool
            } else {
                let f = written(t, 1);
                let l4 = message_in(f);
                &&& t.ops[0] is Count && t.ops[1] is WriteTap
                &&& receives_on(s, t, id, 2)
                &&& to_guest(s, f, key.dst.ip, key.proto)
                &&& l4.len() == res
                &&& l4[0] == (if nat64 {
                    0
                } else {
                    msg[0]
                }) && l4[1] == msg[1]
                &&& paths::number_at(l4, 4) == key.guest_port
                &&& l4.skip(6) == msg.skip(6)
                &&& proto::spec_checksum(
                    l4,
                    if key.dst.ip is V4 {
                        0
                    } else {
                        s.link().pseudo(key.dst.ip, key.proto, res as u16)
                    },
                ) == 0
            }
        }),
{
    lemma_has_buffer(s, id);
    lemma_received(s, id, res, now);
    let a = State { after: state::After::Recv(id), ..s.begun() };
    let key = s.flow(id).key;
    let msg = received(s, id, res as int);
    let b = a.reply_to_guest(id, res as usize, None, now);
    let t = s.complete(id as u64, res, now);
    let nat64 = s.cfg.nat64_prefix is Some;
    let link = s.link();
    assert(a.link() == link);
    match link.ping_frame(key, nat64, msg) {
        None => {
            lemma_receive_on(b, id, now);
        },
        Some(out) => {
            lemma_ping_frame(s, key, nat64, msg);
            let x = s.pool.bufs[s.flow(id).buf as int];
            let at = 256 + res - out.len();
            wire::lemma_splice(x, at, out);
            assert(b.pool.bufs[s.flow(id).buf as int] == wire::splice(x, at, out));
            assert(written(b, 1) == out);
            lemma_receive_on(b, id, now);
            assert(written(t, 1) == written(b, 1));
        },
    }
}

/// What a ping frame holds, and that its headers fit the headroom.
proof fn lemma_ping_frame(s: State, key: FlowKey, nat64: bool, msg: Seq<u8>)
    requires
        frame::fits_packet(key.dst.ip, msg.len()),
        s.link().ping_frame(key, nat64, msg) is Some,
    ensures
        ({
            let f = s.link().ping_frame(key, nat64, msg)->0;
            let l4 = message_in(f);
            &&& msg.len() <= f.len() <= msg.len() + 256
            &&& to_guest(s, f, key.dst.ip, key.proto)
            &&& l4.len() == msg.len()
            &&& l4[0] == (if nat64 && key.dst.ip is V4 {
                0
            } else {
                msg[0]
            }) && l4[1] == msg[1]
            &&& paths::number_at(l4, 4) == key.guest_port
            &&& l4.skip(6) == msg.skip(6)
            &&& proto::spec_checksum(
                l4,
                if key.dst.ip is V4 {
                    0
                } else {
                    s.link().pseudo(key.dst.ip, key.proto, msg.len() as u16)
                },
            ) == 0
        }),
{
    let link = s.link();
    frame::law_ping_reply(link, key, nat64, msg);
    let typed = if nat64 && key.dst.ip is V4 {
        msg.update(0, proto::ICMP_ECHO_REPLY)
    } else {
        msg
    };
    let pseudo = match key.dst.ip {
        IpAddr::V4(_) => 0,
        IpAddr::V6(_) => link.pseudo(key.dst.ip, key.proto, proto::len16(msg.len())),
    };
    let m = EchoHdr::patched(typed, key.guest_port, pseudo);
    let f = link.ping_frame(key, nat64, msg)->0;
    assert(f == link.frame(key.dst.ip, key.proto, m, VnetHdr::zero()));
    assert(m.len() == msg.len());
    frame::law_frame_headers(link, key.dst.ip, key.proto, m, VnetHdr::zero());
    frame::law_frame_roundtrip(link, key.dst.ip, key.proto, m, VnetHdr::zero());
}

/// An error on a UDP flow's socket reaches the guest: a refused connection
/// as an unreachable port, an unreachable host and network as such, about a
/// datagram of the guest's on that flow. Of other errors, and of errors on
/// a ping flow, the guest hears nothing. The next receive is submitted.
pub proof fn law_socket_error_reaches_guest(s: State, id: usize, errno: i32, now: Instant)
    requires
        s.wf(),
        s.is_idle(),
        s.holds(id),
        s.flow(id).kind != FlowKind::Tcp,
        !s.flow(id).closing,
        0 < errno,
        errno != 125,
    ensures
        ({
            let t = s.complete(id as u64, (-errno) as i32, now);
            let key = s.flow(id).key;
            let known = errno == 111 || errno == 113 || errno == 101;
            if s.flow(id).kind == FlowKind::Udp && known {
                let f = written(t, 1);
                let l4 = message_in(f);
                let inner = l4.skip(8);
                &&& t.ops[0] is Count && t.ops[1] is WriteTap
                &&& receives_on(s, t, id, 2)
                &&& match key.dst.ip {
                    IpAddr::V4(dst) => {
                        &&& to_guest(s, f, key.dst.ip, 1)
                        &&& l4[0] == 3
                        &&& l4[1] == (if errno == 111 {
                            3u8
                        } else if errno == 113 {
                            1u8
                        } else {
                            0u8
                        })
                        &&& Ipv4Hdr::spec_parse(inner) matches Some(ip) && ip.src == s.cfg.guest4
                            && ip.dst == dst && ip.proto == 17
                        &&& paths::number_at(inner, 20) == key.guest_port
                        &&& paths::number_at(inner, 22) == key.dst.port
                    },
                    IpAddr::V6(dst) => {
                        &&& to_guest(s, f, key.dst.ip, 58)
                        &&& l4[0] == 1
                        &&& l4[1] == (if errno == 111 {
                            4u8
                        } else if errno == 113 {
                            3u8
                        } else {
                            0u8
                        })
                        &&& Ipv6Hdr::spec_parse(inner) matches Some(ip) && ip.src == s.cfg.guest6
                            && ip.dst == dst && ip.next_header == 17
                        &&& paths::number_at(inner, 40) == key.guest_port
                        &&& paths::number_at(inner, 42) == key.dst.port
                    },
                }
            } else {
                receives_on(s, t, id, 0) && t.pool == s.pool && t.flows == s.flows
            }
        }),
{
    lemma_has_buffer(s, id);
    lemma_received(s, id, (-errno) as i32, now);
    frame::law_error_codes(errno);
    let a = State { after: state::After::Recv(id), ..s.begun() };
    let key = s.flow(id).key;
    let t = s.complete(id as u64, (-errno) as i32, now);
    if s.flow(id).kind == FlowKind::Udp && frame::spec_unreachable_codes(errno) is Some {
        let codes = frame::spec_unreachable_codes(errno)->0;
        let link = s.link();
        assert(a.link() == link);
        let off = link.offending(key);
        let out = link.unreachable_frame(key.dst.ip, off, codes);
        frame::law_unreachable(link, key, codes);
        frame::lemma_unreachable_len(link, key.dst.ip, off, codes);
        lemma_offending(s, key, codes);
        let x = s.pool.bufs[s.flow(id).buf as int];
        let start = 256 - frame::frame_hdr_len(key.dst.ip);
        wire::lemma_splice(x, start, out);
        let b = a.udp_error_to_guest(id, errno, now);
        assert(b.pool.bufs[s.flow(id).buf as int] == wire::splice(x, start, out));
        assert(written(b, 1) == out);
        lemma_receive_on(b, id, now);
        assert(written(t, 1) == written(b, 1));
    } else {
        lemma_receive_on(a, id, now);
    }
}

/// The headers of a message about a datagram of the guest's on a flow.
proof fn lemma_offending(s: State, key: FlowKey, codes: (u8, u8))
    ensures
        ({
            let off = s.link().offending(key);
            let out = s.link().unreachable_frame(key.dst.ip, off, codes);
            let n: int = if key.dst.ip is V4 {
                20
            } else {
                40
            };
            &&& off.len() == n + 8
            &&& paths::number_at(off, n) == key.guest_port
            &&& paths::number_at(off, n + 2) == key.dst.port
            &&& out.subrange(10, 16) == s.guest_mac@
            &&& out.subrange(16, 22) == s.cfg.gateway_mac@
        }),
{
    let link = s.link();
    let off = link.offending(key);
    let udp = proto::udp_bytes(
        key.guest_port,
        key.dst.port,
        Seq::empty(),
        link.pseudo(key.dst.ip, proto::IPPROTO_UDP, 8),
        false,
    );
    let n: int = if key.dst.ip is V4 {
        20
    } else {
        40
    };
    assert(link.ip_from_guest(key.dst.ip, proto::IPPROTO_UDP, 8).len() == n);
    assert(off[n] == udp[0] && off[n + 1] == udp[1] && off[n + 2] == udp[2] && off[n + 3]
        == udp[3]);
    let m = link.unreachable(key.dst.ip, off, codes);
    let p = if key.dst.ip is V4 {
        proto::IPPROTO_ICMP
    } else {
        proto::IPPROTO_ICMPV6
    };
    frame::law_frame_headers(link, key.dst.ip, p, m, VnetHdr::zero());
}

} // verus!
