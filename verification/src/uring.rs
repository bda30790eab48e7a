//! Event loop.
//!
//! The loop performs no I/O. It is fed completions of ring operations and
//! answers to its own requests; each step leaves a list of actions to
//! perform and a request to answer (or to wait for the next completion).

pub mod inv;
pub mod laws;
pub mod paths;
pub mod replies;
pub mod state;
pub mod streams;

use vstd::prelude::*;

use crate::addr::{IpAddr, SocketAddr};
use crate::buf;
use crate::buf::{BufId, Pool};
use crate::flow::{Fd, Flow, FlowKey, FlowKind, FlowTable, Instant};
use crate::frame;
use crate::frame::{GuestFrame, Link, TcpOptions, TcpSegment};
use crate::proto;
use crate::proto::tcp::TcpHdr;
use crate::proto::{EchoHdr, UdpHdr};
use crate::tap::Offloads;
use crate::tcp;
use crate::tcp::{FinState, Next, Push, Tcp, TcpState, Verdict};
use crate::wire;
use crate::{Config, FlowDst};
use state::{
    After, Counter, Op, Pending, Reply, Request, State, TcpRead, CANCEL_UD, DNS_PORT, ECANCELED,
    FLOW_EXPIRY, POLL_ERR, POLL_HUP, POLL_OUT, POLL_RECV, RTO, STOP_UD, TAP_UD, TIMER_UD,
    UDP_MAX_PAYLOAD,
};

verus! {

/// The datapath of one tap device.
pub struct EventLoop {
    pool: Pool,
    flows: FlowTable,
    offloads: Offloads,
    cfg: Config,
    guest_mac: [u8; 6],
    tap_buf: BufId,
    due: Vec<usize>,
    due_at: usize,
    pending: Pending,
    after: After,
    ask: Request,
    ops: Vec<Op>,
    hdrs: Vec<u8>,
}

impl View for EventLoop {
    type V = State;

    closed spec fn view(&self) -> State {
        State {
            pool: self.pool@,
            flows: self.flows@,
            offloads: self.offloads,
            cfg: self.cfg,
            guest_mac: self.guest_mac,
            tap_buf: self.tap_buf,
            due: self.due@.skip(self.due_at as int),
            pending: self.pending,
            after: self.after,
            ask: self.ask,
            ops: self.ops@,
            hdrs: self.hdrs@,
        }
    }
}

/// UDP GSO segment size for a super-frame of `total` payload bytes
/// resegmented at `seg`; single-datagram frames carry no GSO metadata.
fn gso_of(total: usize, seg: usize) -> (r: Option<u16>)
    ensures
        r == state::spec_gso_of(total as int, seg as int),
{
    if total > seg {
        Some(
            if seg <= 0xffff {
                seg as u16
            } else {
                0xffff
            },
        )
    } else {
        None
    }
}

/// One more segment of `m` bytes keeps a multiple of `m`.
proof fn lemma_mod_step(n: int, m: int)
    requires
        m > 0,
        n % m == 0,
    ensures
        (n + m) % m == 0,
{
    vstd::arithmetic::div_mod::lemma_mod_add_multiples_vanish(n, m);
}

impl EventLoop {
    /// The state is well formed.
    pub closed spec fn inv(self) -> bool {
        &&& self.pool.inv()
        &&& self.flows.inv()
        &&& self.due_at <= self.due@.len()
        &&& self@.wf()
    }

    /// The state is well formed.
    pub proof fn lemma_inv(self)
        requires
            self.inv(),
        ensures
            self@.wf(),
    {
    }

    // Parts of the state.

    fn op(&mut self, o: Op)
        requires
            old(self).inv(),
            old(self)@.op_ok(o),
        ensures
            final(self).inv(),
            final(self)@ == old(self)@.op(o),
    {
        self.ops.push(o);
        proof {
            inv::lemma_op_wf(old(self)@, o);
            assert(self@ =~= old(self)@.op(o));
        }
    }

    fn count(&mut self, c: Counter)
        requires
            old(self).inv(),
            inv::counter_ok(c),
        ensures
            final(self).inv(),
            final(self)@ == old(self)@.count(c),
    {
        self.op(Op::Count(c));
    }

    fn wait_for(&mut self, pending: Pending, ask: Request)
        requires
            old(self).inv(),
            old(self)@.pending_ok(pending),
            old(self)@.ask_ok(ask),
        ensures
            final(self).inv(),
            final(self)@ == old(self)@.wait_for(pending, ask),
    {
        self.pending = pending;
        self.ask = ask;
        proof {
            assert(self@ =~= old(self)@.wait_for(pending, ask));
            assert forall|i: int| 0 <= i < self@.ops.len() implies self@.op_ok(
                #[trigger] self@.ops[i],
            ) by {
                assert(old(self)@.op_ok(old(self)@.ops[i]));
            }
        }
    }

    fn set_after(&mut self, after: After)
        requires
            old(self).inv(),
            old(self)@.is_idle(),
        ensures
            final(self).inv(),
            final(self)@ == (State { after, ..old(self)@ }),
    {
        self.after = after;
        proof {
            assert(self@ =~= (State { after, ..old(self)@ }));
            assert forall|i: int| 0 <= i < self@.ops.len() implies self@.op_ok(
                #[trigger] self@.ops[i],
            ) by {
                assert(old(self)@.op_ok(old(self)@.ops[i]));
            }
        }
    }

    fn flow(&self, id: usize) -> (r: Option<Flow>)
        requires
            self.inv(),
        ensures
            match r {
                Some(f) => {
                    &&& self@.holds(id)
                    &&& f == self@.flow(id)
                    &&& inv::flow_ok(f)
                    &&& inv::owns_buf(self@.pool, self@.tap_buf, f)
                },
                None => !self@.holds(id),
            },
    {
        match self.flows.get_by_id(id) {
            Some(f) => {
                assert(self@.flows.holds(id));
                Some(*f)
            },
            None => None,
        }
    }

    fn tcp(&self, id: usize) -> (r: Option<Tcp>)
        requires
            self.inv(),
        ensures
            r == self@.tcp(id),
            r matches Some(t) ==> t.wf() && (self@.flow(id).closing ==> t.poll_armed),
    {
        match self.flow(id) {
            Some(f) => f.tcp,
            None => None,
        }
    }

    fn set_flow(&mut self, id: usize, f: Flow)
        requires
            old(self).inv(),
            old(self)@.holds(id),
            f.key == old(self)@.flow(id).key,
            f.buf == old(self)@.flow(id).buf,
            inv::flow_ok(f),
        ensures
            final(self).inv(),
            final(self)@ == old(self)@.with_flow(id, f),
    {
        proof {
            inv::lemma_with_flow_wf(self@, id, f);
        }
        match self.flows.get_mut(id) {
            Some(slot) => {
                *slot = f;
            },
            None => {},
        }
        assert(self@ =~= old(self)@.with_flow(id, f));
    }

    /// Replace the TCP state of a TCP flow.
    fn set_tcp(&mut self, id: usize, t: Tcp)
        requires
            old(self).inv(),
            old(self)@.tcp(id) is Some,
            t.wf(),
            old(self)@.flow(id).closing ==> t.poll_armed,
        ensures
            final(self).inv(),
            final(self)@ == old(self)@.with_tcp(id, t),
            final(self)@.tcp(id) == Some(t),
    {
        match self.flow(id) {
            Some(f) => {
                self.set_flow(id, Flow { tcp: Some(t), ..f });
            },
            None => {},
        }
    }

    /// Note that a flow is in use.
    fn touch(&mut self, id: usize, now: Instant)
        requires
            old(self).inv(),
            old(self)@.holds(id),
        ensures
            final(self).inv(),
            final(self)@ == old(self)@.touched(id, now),
            final(self)@.holds(id),
    {
        match self.flow(id) {
            Some(f) => {
                self.set_flow(id, Flow { last_active: now, ..f });
            },
            None => {},
        }
    }

    fn link(&self) -> (r: Link)
        ensures
            r == self@.link(),
    {
        Link {
            guest4: self.cfg.guest4,
            guest6: self.cfg.guest6,
            guest_mac: self.guest_mac,
            gateway_mac: self.cfg.gateway_mac,
        }
    }

    // Teardown.

    /// Drop a flow: free its slot and buffer and close its socket.
    fn free_flow(&mut self, id: usize)
        requires
            old(self).inv(),
        ensures
            final(self).inv(),
            final(self)@ == old(self)@.free_flow(id),
    {
        if let Some(f) = self.flow(id) {
            proof {
                inv::lemma_free_flow_wf(self@, id);
            }
            if let Some(buf) = self.flows.remove(id) {
                self.pool.free(buf);
            }
            assert(self@ =~= (State {
                flows: old(self)@.flows.removed(id),
                pool: old(self)@.pool.freed(f.buf),
                ..old(self)@
            }));
            self.op(Op::Close { fd: f.sock });
        }
    }

    /// Close a flow. If an operation is still pending for it, the slot
    /// and buffer are only freed once the cancelled operation
    /// completes, so in-flight completions never hit a reused slot.
    fn remove_flow(&mut self, id: usize)
        requires
            old(self).inv(),
        ensures
            final(self).inv(),
            final(self)@ == old(self)@.remove_flow(id),
    {
        self.count(Counter::Dump);
        if let Some(f) = self.flow(id) {
            let pending = match f.tcp {
                Some(t) => t.poll_armed,
                None => true,
            };
            if pending {
                self.set_flow(id, Flow { closing: true, ..f });
                self.op(Op::Cancel { id });
            } else {
                self.free_flow(id);
            }
        }
    }

    /// Reclaim every idle flow.
    fn expire_flows(&mut self, now: Instant)
        requires
            old(self).inv(),
        ensures
            final(self).inv(),
            final(self)@ == old(self)@.expire_flows(now),
            final(self)@.pending == old(self)@.pending,
    {
        if now < FLOW_EXPIRY {
            return;
        }
        let cutoff: Instant = now - FLOW_EXPIRY;
        let ids = self.flows.expired(cutoff);
        let mut i: usize = 0;
        while i < ids.len()
            invariant
                self.inv(),
                i <= ids@.len(),
                self@ == old(self)@.remove_flows(ids@, i as nat),
                self@.pending == old(self)@.pending,
            decreases ids@.len() - i,
        {
            self.remove_flow(ids[i]);
            i += 1;
        }
    }

    // New flows.

    /// Insert a flow with a buffer of its own. When the pool is dry, evict
    /// the least-recently-used idle UDP/ping flow: its buffer is back once
    /// the cancelled recv completes, so the guest's retry gets through
    /// instead of new flows stalling until a flow expires.
    fn add_flow(
        &mut self,
        key: FlowKey,
        kind: FlowKind,
        fd: Fd,
        tcp: Option<Tcp>,
        now: Instant,
    ) -> (r: Option<usize>)
        requires
            old(self).inv(),
            old(self)@.is_idle(),
            inv::key_is_new(old(self)@.flows, key),
            kind == FlowKind::Tcp <==> tcp is Some,
            tcp matches Some(t) ==> t.wf(),
        ensures
            final(self).inv(),
            final(self)@ == old(self)@.add_flow(key, kind, fd, tcp, now),
            r == old(self)@.added_id(),
            r matches Some(id) ==> final(self)@.holds(id) && final(self)@.flow(id)
                == old(self)@.new_flow_value(key, kind, fd, tcp, now),
    {
        let ghost s = self@;
        match self.pool.alloc_buf() {
            Some(buf) => {
                let f = Flow { key, kind, sock: fd, buf, last_active: now, tcp, closing: false };
                proof {
                    inv::lemma_add_flow_wf(s, f);
                }
                let id: usize = self.flows.insert(f);
                assert(self@ =~= s.add_flow(key, kind, fd, tcp, now));
                Some(id)
            },
            None => {
                assert(self@ =~= s);
                if let Some(id) = self.flows.lru_evictable() {
                    self.count(Counter::FlowEvicted);
                    self.remove_flow(id);
                }
                self.op(Op::Close { fd });
                None
            },
        }
    }

    // Guest to host: UDP and ping.

    /// Send the guest bytes at `start..end` of the tap buffer to a flow's
    /// socket; what it does not take is dropped.
    fn deliver(&mut self, id: usize, start: usize, end: usize, now: Instant)
        requires
            old(self).inv(),
            inv::tap_range_ok(start, end),
        ensures
            final(self).inv(),
            final(self)@ == old(self)@.deliver(id, start, end, now),
    {
        if let Some(f) = self.flow(id) {
            self.touch(id, now);
            self.op(Op::Send { fd: f.sock, start, end });
        }
    }

    /// Request the host socket of an allowed flow. DNS to the gateway is
    /// redirected to the host resolver, looked up anew per flow so changes
    /// (e.g. by a DHCP client on the host) are picked up without a reload.
    fn open_flow(&mut self, key: FlowKey, kind: FlowKind, start: usize, end: usize)
        requires
            old(self).inv(),
            old(self)@.after is Tap,
            inv::key_is_new(old(self)@.flows, key),
            kind != FlowKind::Tcp,
            inv::tap_range_ok(start, end),
        ensures
            final(self).inv(),
            final(self)@ == old(self)@.open_flow(key, kind, start, end),
    {
        if kind == FlowKind::Udp {
            let gateway_dns = key.dst.port == DNS_PORT && (key.dst.ip.same(
                &IpAddr::V4(self.cfg.gateway4),
            ) || key.dst.ip.same(&IpAddr::V6(self.cfg.gateway6)));
            if gateway_dns && self.cfg.dns_forward {
                self.wait_for(Pending::Resolving { key, start, end }, Request::Resolver);
            } else {
                let target = self.cfg.nat64_target(key.dst);
                self.wait_for(
                    Pending::Opening { key, kind, start, end },
                    Request::OpenUdp(target),
                );
            }
        } else {
            let target = self.cfg.nat64_target(SocketAddr { ip: key.dst.ip, port: 0 });
            self.wait_for(Pending::Opening { key, kind, start, end }, Request::OpenPing(target));
        }
    }

    /// Refuse a new flow: tell the guest that the host is unreachable. The
    /// message is built in the tap buffer, around the headers of the
    /// guest's packet there, and goes out before the tap is read again.
    fn refuse(&mut self, key: &FlowKey, kind: FlowKind, l4: usize)
        requires
            old(self).inv(),
            frame::l4_start_ok(l4),
        ensures
            final(self).inv(),
            final(self)@ == old(self)@.refused(*key, kind, l4),
    {
        let ghost s = self@;
        let link = self.link();
        let first: Option<u8> = if kind == FlowKind::Ping && key.dst.ip.is_ipv4()
            && self.cfg.nat64_prefix.is_some() {
            Some(proto::ICMP_ECHO_REQUEST)
        } else {
            None
        };
        let ghost b = s.tap();
        let out = self.pool.get_mut(self.tap_buf);
        // Host unreachable (ICMP), address unreachable (ICMPv6).
        let (start, end): (usize, usize) = link.write_refusal(out, key.dst.ip, l4, first, (1, 3));
        let ghost w = link.unreachable_frame(
            key.dst.ip,
            frame::packet_start(b, l4 as int, first),
            (1, 3),
        );
        let ghost nb = wire::splice(b, start as int, w);
        proof {
            wire::lemma_splice(b, start as int, w);
            inv::lemma_with_buf_wf(s, s.tap_buf, nb);
            assert(self@ =~= s.with_buf(s.tap_buf, nb));
        }
        self.count(Counter::TapOut(end - start));
        self.op(Op::WriteTap { buf: self.tap_buf, start, end });
    }

    /// Apply the caller's flow policy (or the default: refuse loopback
    /// destinations) to a new UDP or ping flow.
    fn new_flow(&mut self, key: FlowKey, kind: FlowKind, l4: usize, start: usize, end: usize)
        requires
            old(self).inv(),
            old(self)@.after is Tap,
            inv::key_is_new(old(self)@.flows, key),
            kind != FlowKind::Tcp,
            frame::l4_start_ok(l4),
            inv::tap_range_ok(start, end),
        ensures
            final(self).inv(),
            final(self)@ == old(self)@.new_flow(key, kind, l4, start, end),
    {
        if self.cfg.allow_flow.is_some() {
            let dst = FlowDst { proto: key.proto, ip: key.dst.ip, port: key.dst.port };
            self.wait_for(Pending::NewFlow { key, kind, l4, start, end }, Request::Policy(dst));
        } else if key.dst.ip.is_loopback() {
            self.refuse(&key, kind, l4);
        } else {
            self.open_flow(key, kind, start, end);
        }
    }

    /// Look up or create the flow for `key` and send the guest bytes
    /// at `start..end` of the tap buffer to its socket.
    fn forward(
        &mut self,
        key: FlowKey,
        kind: FlowKind,
        l4: usize,
        start: usize,
        end: usize,
        now: Instant,
    )
        requires
            old(self).inv(),
            old(self)@.after is Tap,
            kind != FlowKind::Tcp,
            frame::l4_start_ok(l4),
            inv::tap_range_ok(start, end),
        ensures
            final(self).inv(),
            final(self)@ == old(self)@.forward(key, kind, l4, start, end, now),
    {
        match self.flows.get(&key) {
            Some(id) => self.deliver(id, start, end, now),
            None => self.new_flow(key, kind, l4, start, end),
        }
    }

    /// Create the flow for an opened host socket and arm its first recv.
    fn opened(
        &mut self,
        fd: Option<Fd>,
        key: FlowKey,
        kind: FlowKind,
        start: usize,
        end: usize,
        now: Instant,
    )
        requires
            old(self).inv(),
            old(self)@.after is Tap,
            old(self)@.is_idle(),
            inv::key_is_new(old(self)@.flows, key),
            kind != FlowKind::Tcp,
            inv::tap_range_ok(start, end),
        ensures
            final(self).inv(),
            final(self)@ == old(self)@.opened(fd, key, kind, start, end, now),
    {
        if let Some(fd) = fd {
            if let Some(id) = self.add_flow(key, kind, fd, None, now) {
                if let Some(f) = self.flow(id) {
                    self.wait_for(
                        Pending::Arming { id, start, end },
                        Request::ArmRecv {
                            id,
                            fd,
                            buf: f.buf,
                            start: buf::HEADROOM,
                            end: buf::BUF_SIZE,
                        },
                    );
                }
            }
        }
    }

    /// The L4 message of a guest frame.
    fn l4(&self, g: &GuestFrame) -> (r: &[u8])
        requires
            self.inv(),
            g.l4_start <= g.l4_end <= buf::BUF_SIZE,
        ensures
            r@ == self@.tap().subrange(g.l4_start as int, g.l4_end as int),
            r@.len() == g.l4_end - g.l4_start,
    {
        vstd::slice::slice_subrange(self.pool.get(self.tap_buf), g.l4_start, g.l4_end)
    }

    fn handle_udp(&mut self, g: &GuestFrame, now: Instant)
        requires
            old(self).inv(),
            old(self)@.after is Tap,
            g.l4_start <= g.l4_end <= buf::BUF_SIZE,
            frame::l4_start_ok(g.l4_start),
        ensures
            final(self).inv(),
            final(self)@ == old(self)@.handle_udp(*g, now),
    {
        let parsed = UdpHdr::parse(self.l4(g));
        if let Some(udp) = parsed {
            let key = FlowKey {
                proto: proto::IPPROTO_UDP,
                guest_port: udp.src_port,
                dst: SocketAddr { ip: g.dst_ip, port: udp.dst_port },
            };
            let start: usize = g.l4_start + proto::UDP_HDR_LEN;
            let stop: usize = g.l4_start + udp.len as usize;
            let end: usize = if stop <= g.l4_end {
                stop
            } else {
                g.l4_end
            };
            self.forward(key, FlowKind::Udp, g.l4_start, start, end, now);
        }
    }

    /// Overwrite a byte of the tap buffer.
    fn set_tap_byte(&mut self, at: usize, x: u8)
        requires
            old(self).inv(),
            at < buf::BUF_SIZE,
        ensures
            final(self).inv(),
            final(self)@ == old(self)@.with_buf(
                old(self)@.tap_buf,
                old(self)@.tap().update(at as int, x),
            ),
    {
        let ghost s = self@;
        let ghost b = s.tap().update(at as int, x);
        proof {
            inv::lemma_with_buf_wf(s, s.tap_buf, b);
        }
        let tap = self.pool.get_mut(self.tap_buf);
        tap[at] = x;
        assert(self@ =~= s.with_buf(s.tap_buf, b));
    }

    /// Forward an ICMP/ICMPv6 echo request over a ping socket. The
    /// kernel assigns its own echo identifier on send, so replies are
    /// matched per flow and patched back in [`Self::reply_to_guest`].
    fn handle_echo(&mut self, g: &GuestFrame, now: Instant)
        requires
            old(self).inv(),
            old(self)@.after is Tap,
            g.l4_start <= g.l4_end <= buf::BUF_SIZE,
            frame::l4_start_ok(g.l4_start),
        ensures
            final(self).inv(),
            final(self)@ == old(self)@.handle_echo(*g, now),
    {
        let parsed = EchoHdr::parse(self.l4(g));
        if let Some(echo) = parsed {
            let v4 = g.dst_ip.is_ipv4();
            let expected: u8 = if v4 {
                proto::ICMP_ECHO_REQUEST
            } else {
                proto::ICMPV6_ECHO_REQUEST
            };
            if echo.msg_type != expected {
                return;
            }
            // Under NAT64 the ping socket speaks ICMPv6, so the guest's
            // ICMPv4 echo request becomes an ICMPv6 one (the kernel fills
            // in identifier and checksum on send).
            if v4 && self.cfg.nat64_prefix.is_some() {
                self.set_tap_byte(g.l4_start, proto::ICMPV6_ECHO_REQUEST);
            }
            let key = FlowKey {
                proto: g.proto,
                guest_port: echo.id,
                dst: SocketAddr { ip: g.dst_ip, port: 0 },
            };
            self.forward(key, FlowKind::Ping, g.l4_start, g.l4_start, g.l4_end, now);
        }
    }

    // Host to guest: UDP and ping.

    /// Build the ethernet/IP/L4 frame for `len` payload bytes sitting
    /// at the flow buffer's headroom offset and write it to the tap.
    /// `gso` marks a UDP super-frame the guest resegments.
    fn reply_to_guest(&mut self, id: usize, len: usize, gso: Option<u16>, now: Instant)
        requires
            old(self).inv(),
            len <= buf::FRAME,
        ensures
            final(self).inv(),
            final(self)@ == old(self)@.reply_to_guest(id, len, gso, now),
    {
        if let Some(f) = self.flow(id) {
            self.touch(id, now);
            let ghost s = self@;
            let link = self.link();
            let nat64 = self.cfg.nat64_prefix.is_some();
            let ghost b = s.pool.bufs[f.buf as int];
            let out = self.pool.get_mut(f.buf);
            let written = link.write_reply(out, &f.key, f.kind, nat64, len, gso);
            let end: usize = buf::HEADROOM + len;
            match written {
                Some(start) => {
                    let ghost w = link.reply_frame(
                        f.key,
                        f.kind,
                        nat64,
                        b.subrange(buf::HEADROOM as int, end as int),
                        gso,
                    )->0;
                    let ghost nb = wire::splice(b, end - w.len(), w);
                    proof {
                        wire::lemma_splice(b, end - w.len(), w);
                        inv::lemma_with_buf_wf(s, f.buf, nb);
                        assert(self@ =~= s.with_buf(f.buf, nb));
                    }
                    self.count(Counter::TapOut(end - start));
                    self.op(Op::WriteTap { buf: f.buf, start, end });
                },
                None => {
                    proof {
                        assert(s.pool.with_buf(f.buf, b) =~= s.pool);
                        assert(self@ =~= s);
                    }
                },
            }
        }
    }

    /// Request the next datagram that waits on a UDP flow's socket.
    fn drain(&mut self, id: usize, seg: usize, total: usize)
        requires
            old(self).inv(),
            inv::super_frame_ok(seg, total),
        ensures
            final(self).inv(),
            final(self)@ == old(self)@.drain(id, seg, total),
    {
        if let Some(f) = self.flow(id) {
            // The buffer keeps at least a full datagram of space beyond
            // a super-frame, so drained datagrams are never truncated.
            self.wait_for(
                Pending::Draining { id, seg, total },
                Request::RecvUdp {
                    fd: f.sock,
                    buf: f.buf,
                    start: buf::HEADROOM + total,
                    end: buf::BUF_SIZE,
                },
            );
        }
    }

    /// Deliver a received UDP datagram of `len` bytes to the guest.
    /// When the tap supports UDP GSO, further datagrams waiting on the
    /// socket are drained into the same buffer first and equal-sized
    /// runs leave as one super-frame that the guest kernel resegments;
    /// without it every datagram costs one tap write.
    fn udp_to_guest(&mut self, id: usize, len: usize, now: Instant)
        requires
            old(self).inv(),
            len <= buf::FRAME,
        ensures
            final(self).inv(),
            final(self)@ == old(self)@.udp_to_guest(id, len, now),
    {
        if !(self.offloads.uso() && self.offloads.csum()) || len == 0 {
            self.reply_to_guest(id, len, None, now);
            return;
        }
        assert(len % len == 0) by (nonlinear_arith)
            requires
                len > 0,
        ;
        self.drain(id, len, len);
    }

    /// Go on with a super-frame once a further datagram was drained, or
    /// none waits.
    fn drained(&mut self, got: Option<usize>, id: usize, seg: usize, total: usize, now: Instant)
        requires
            old(self).inv(),
            inv::super_frame_ok(seg, total),
            got matches Some(n) ==> total + n <= buf::FRAME,
        ensures
            final(self).inv(),
            final(self)@ == old(self)@.drained(got, id, seg, total, now),
    {
        match got {
            None => {
                self.reply_to_guest(id, total, gso_of(total, seg), now);
            },
            Some(n) => {
                self.count(Counter::SockRecv { empty: n == 0 });
                if n == 0 {
                    self.reply_to_guest(id, total, gso_of(total, seg), now);
                } else if n <= seg && total + n <= UDP_MAX_PAYLOAD {
                    let more: usize = total + n;
                    if n < seg {
                        // A shorter datagram becomes the super-frame's
                        // tail segment.
                        self.reply_to_guest(id, more, gso_of(more, seg), now);
                    } else {
                        proof {
                            lemma_mod_step(total as int, seg as int);
                        }
                        self.drain(id, seg, more);
                    }
                } else {
                    // The datagram does not fit this super-frame (larger
                    // than the segment size or over the length limit):
                    // flush what we have and start a new super-frame with
                    // it.
                    self.reply_to_guest(id, total, gso_of(total, seg), now);
                    self.wait_for(Pending::Flushing { id, total, n }, Request::Flush);
                }
            },
        }
    }

    /// Start a new super-frame with the datagram behind the flushed one.
    fn flushed(&mut self, id: usize, total: usize, n: usize)
        requires
            old(self).inv(),
            0 < n,
            total + n <= buf::FRAME,
        ensures
            final(self).inv(),
            final(self)@ == old(self)@.flushed(id, total, n),
    {
        if let Some(f) = self.flow(id) {
            let ghost s = self@;
            let ghost b = s.pool.bufs[f.buf as int];
            let from: usize = buf::HEADROOM + total;
            let ghost nb = wire::splice(
                b,
                buf::HEADROOM as int,
                b.subrange(from as int, from + n),
            );
            proof {
                assert(b.len() == buf::BUF_SIZE);
                wire::lemma_splice(b, buf::HEADROOM as int, b.subrange(from as int, from + n));
                inv::lemma_with_buf_wf(s, f.buf, nb);
            }
            let out = self.pool.get_mut(f.buf);
            wire::copy_within(out, from, n, buf::HEADROOM);
            assert(self@ =~= s.with_buf(f.buf, nb));
            assert(n % n == 0) by (nonlinear_arith)
                requires
                    n > 0,
            ;
            self.drain(id, n, n);
        }
    }

    /// Translate a host socket error on a UDP flow (delivered by ICMP
    /// to the connected socket) into an ICMP/ICMPv6 destination
    /// unreachable towards the guest, so guest sockets see e.g.
    /// ECONNREFUSED for closed ports just like on a kernel path.
    fn udp_error_to_guest(&mut self, id: usize, errno: i32, now: Instant)
        requires
            old(self).inv(),
        ensures
            final(self).inv(),
            final(self)@ == old(self)@.udp_error_to_guest(id, errno, now),
    {
        if let Some(codes) = frame::unreachable_codes(errno) {
            if let Some(f) = self.flow(id) {
                self.touch(id, now);
                let ghost s = self@;
                let link = self.link();
                let ghost b = s.pool.bufs[f.buf as int];
                let out = self.pool.get_mut(f.buf);
                let (start, end): (usize, usize) = link.write_unreachable(out, &f.key, codes);
                let ghost w = link.unreachable_frame(f.key.dst.ip, link.offending(f.key), codes);
                let ghost nb = wire::splice(b, start as int, w);
                proof {
                    assert(b.len() == buf::BUF_SIZE);
                    wire::lemma_splice(b, start as int, w);
                    inv::lemma_with_buf_wf(s, f.buf, nb);
                    assert(self@ =~= s.with_buf(f.buf, nb));
                }
                self.count(Counter::TapOut(end - start));
                self.op(Op::WriteTap { buf: f.buf, start, end });
            }
        }
    }

    fn submit_flow_recv(&mut self, id: usize)
        requires
            old(self).inv(),
        ensures
            final(self).inv(),
            final(self)@ == old(self)@.submit_flow_recv(id),
    {
        if let Some(f) = self.flow(id) {
            self.op(
                Op::ArmRecv {
                    id,
                    fd: f.sock,
                    buf: f.buf,
                    start: buf::HEADROOM,
                    end: buf::BUF_SIZE,
                },
            );
        }
    }

    // TCP.

    /// Frame one TCP segment: headers are built apart and written to the
    /// tap together with the payload, which stays untouched in the flow's
    /// buffer so it can be retransmitted.
    fn send_segment(
        &mut self,
        id: usize,
        seg: &TcpSegment,
        start: usize,
        end: usize,
        start2: usize,
        end2: usize,
    )
        requires
            old(self).inv(),
            start <= end <= buf::BUF_SIZE,
            start2 <= end2 <= buf::BUF_SIZE,
            (end - start) + (end2 - start2) <= buf::FRAME,
        ensures
            final(self).inv(),
            final(self)@ == old(self)@.send_segment(id, *seg, start, end, start2, end2),
    {
        if let Some(f) = self.flow(id) {
            let ghost s = self@;
            let link = self.link();
            let csum = self.offloads.csum();
            let b = self.pool.get(f.buf);
            let payload = vstd::slice::slice_subrange(b, start, end);
            let payload2 = vstd::slice::slice_subrange(b, start2, end2);
            let hdr_start: usize = self.hdrs.len();
            let n: usize = link.push_segment_hdr(
                &mut self.hdrs,
                &f.key,
                seg,
                csum,
                payload,
                payload2,
            );
            let hdr_end: usize = self.hdrs.len();
            proof {
                let t = self@;
                assert(t.hdrs == s.hdrs + link.segment_hdr(
                    f.key,
                    *seg,
                    csum,
                    payload@ + payload2@,
                ));
                assert forall|i: int| 0 <= i < t.ops.len() implies t.op_ok(
                    #[trigger] t.ops[i],
                ) by {
                    assert(s.op_ok(s.ops[i]));
                }
            }
            self.count(Counter::TapOut(n + (end - start) + (end2 - start2)));
            self.op(Op::WriteSegment { hdr_start, hdr_end, buf: f.buf, start, end, start2, end2 });
        }
    }

    /// Send a payload-less segment (ACK, FIN, RST) at the current
    /// send position.
    fn send_control(&mut self, id: usize, flags: u8, window: u16)
        requires
            old(self).inv(),
        ensures
            final(self).inv(),
            final(self)@ == old(self)@.send_control(id, flags, window),
    {
        if let Some(t) = self.tcp(id) {
            let seg = TcpSegment {
                seq: t.next_seq(),
                ack: t.seq_from_guest,
                flags,
                window,
                options: TcpOptions::Empty,
                gso_size: None,
            };
            self.send_segment(
                id,
                &seg,
                buf::HEADROOM,
                buf::HEADROOM,
                buf::HEADROOM,
                buf::HEADROOM,
            );
        }
    }

    fn send_syn_ack(&mut self, id: usize)
        requires
            old(self).inv(),
        ensures
            final(self).inv(),
            final(self)@ == old(self)@.send_syn_ack(id),
    {
        if let Some(t) = self.tcp(id) {
            let seg = TcpSegment {
                seq: tcp::TCP_ISN,
                ack: t.seq_from_guest,
                flags: proto::TCP_SYN | proto::TCP_ACK,
                window: t.syn_window(),
                options: if t.guest_wscale.is_some() {
                    TcpOptions::MssAndScale
                } else {
                    TcpOptions::Mss
                },
                gso_size: None,
            };
            self.send_segment(
                id,
                &seg,
                buf::HEADROOM,
                buf::HEADROOM,
                buf::HEADROOM,
                buf::HEADROOM,
            );
            // Assume the SYN-ACK is acked; a lost one shows up as a SYN
            // retransmit and is resent from `tcp_from_guest`.
            assert(tcp::seq_add(tcp::TCP_ISN, 1) == 0x0001_0001u32) by {
                reveal(tcp::seq_add);
            }
            self.set_tcp(id, Tcp { seq_una: 0x0001_0001, ..t });
        }
    }

    /// Arm a oneshot poll on the flow's host socket.
    fn arm_poll(&mut self, id: usize, events: u32)
        requires
            old(self).inv(),
        ensures
            final(self).inv(),
            final(self)@ == old(self)@.arm_poll(id, events),
    {
        if let Some(f) = self.flow(id) {
            if let Some(t) = f.tcp {
                self.set_tcp(id, Tcp { poll_armed: true, ..t });
                self.op(Op::ArmPoll { id, fd: f.sock, events });
            }
        }
    }

    /// Abort the flow towards both sides.
    fn tcp_reset(&mut self, id: usize)
        requires
            old(self).inv(),
        ensures
            final(self).inv(),
            final(self)@ == old(self)@.tcp_reset(id),
    {
        self.count(Counter::TcpCtrl);
        self.send_control(id, proto::TCP_RST | proto::TCP_ACK, 0);
        self.remove_flow(id);
    }

    /// Drop the flow once both directions are closed and acknowledged.
    fn tcp_maybe_close(&mut self, id: usize)
        requires
            old(self).inv(),
        ensures
            final(self).inv(),
            final(self)@ == old(self)@.tcp_maybe_close(id),
    {
        if let Some(t) = self.tcp(id) {
            if t.finished() {
                self.remove_flow(id);
            }
        }
    }

    /// Ask for the bytes queued towards the host, on which the window to
    /// the guest depends.
    fn ask_queued(&mut self, id: usize, pending: Pending)
        requires
            old(self).inv(),
            old(self)@.holds(id),
            old(self)@.pending_ok(pending),
        ensures
            final(self).inv(),
            final(self)@ == old(self)@.ask_queued(id, pending),
    {
        if let Some(f) = self.flow(id) {
            self.wait_for(pending, Request::Queued { fd: f.sock });
        }
    }

    /// Request a socket whose connect to the (possibly NAT64-mapped)
    /// target is under way; guest-facing framing keeps using the key.
    fn open_tcp(&mut self, key: FlowKey, syn: &TcpHdr)
        requires
            old(self).inv(),
            old(self)@.after is Tap,
            inv::key_is_new(old(self)@.flows, key),
        ensures
            final(self).inv(),
            final(self)@ == old(self)@.open_tcp(key, *syn),
    {
        let target = self.cfg.nat64_target(key.dst);
        self.wait_for(Pending::OpeningTcp { key, syn: *syn }, Request::OpenTcp(target));
    }

    /// Apply the flow policy to a new TCP flow for the SYN at `l4` of the
    /// tap buffer.
    fn new_tcp_flow(&mut self, key: FlowKey, syn: &TcpHdr, l4: usize)
        requires
            old(self).inv(),
            old(self)@.after is Tap,
            inv::key_is_new(old(self)@.flows, key),
            frame::l4_start_ok(l4),
        ensures
            final(self).inv(),
            final(self)@ == old(self)@.new_tcp_flow(key, *syn, l4),
    {
        if self.cfg.allow_flow.is_some() {
            let dst = FlowDst { proto: key.proto, ip: key.dst.ip, port: key.dst.port };
            self.wait_for(Pending::NewTcp { key, syn: *syn, l4 }, Request::Policy(dst));
        } else if key.dst.ip.is_loopback() {
            self.refuse(&key, FlowKind::Tcp, l4);
        } else {
            self.open_tcp(key, syn);
        }
    }

    /// Create the flow for a socket whose connect is under way and poll
    /// for its outcome; the SYN-ACK is only sent once the host connection
    /// is established, so connection refusal maps to RST.
    fn opened_tcp(&mut self, sock: Option<(Fd, u32)>, key: FlowKey, syn: &TcpHdr, now: Instant)
        requires
            old(self).inv(),
            old(self)@.after is Tap,
            old(self)@.is_idle(),
            inv::key_is_new(old(self)@.flows, key),
        ensures
            final(self).inv(),
            final(self)@ == old(self)@.opened_tcp(sock, key, *syn, now),
    {
        if let Some((fd, sndbuf)) = sock {
            let t = Tcp::connecting(syn, sndbuf, now);
            if let Some(id) = self.add_flow(key, FlowKind::Tcp, fd, Some(t), now) {
                self.arm_poll(id, POLL_OUT);
            }
        }
    }

    /// Handle the ack and window fields of a guest segment: release
    /// acknowledged data from the flow's buffer and detect duplicate
    /// acks for fast retransmit.
    fn tcp_ack_from_guest(&mut self, id: usize, hdr: &TcpHdr, payload_empty: bool, now: Instant)
        requires
            old(self).inv(),
        ensures
            final(self).inv(),
            final(self)@ == old(self)@.tcp_ack_from_guest(id, *hdr, payload_empty, now),
    {
        if let Some(t) = self.tcp(id) {
            let mut u = t;
            let fast = u.ack(hdr, payload_empty, now);
            self.set_tcp(id, u);
            self.count(Counter::GuestWindow(u.guest_window));
            if fast {
                self.count(Counter::DupAckRetransmit);
            }
        }
    }

    fn handle_tcp(&mut self, g: &GuestFrame, now: Instant)
        requires
            old(self).inv(),
            old(self)@.is_idle(),
            old(self)@.after is Tap,
            g.l4_start <= g.l4_end <= buf::BUF_SIZE,
            frame::l4_start_ok(g.l4_start),
        ensures
            final(self).inv(),
            final(self)@ == old(self)@.handle_tcp(*g, now),
    {
        let parsed = TcpHdr::parse(self.l4(g));
        if let Some(hdr) = parsed {
            let key = FlowKey {
                proto: proto::IPPROTO_TCP,
                guest_port: hdr.src_port,
                dst: SocketAddr { ip: g.dst_ip, port: hdr.dst_port },
            };
            match self.flows.get(&key) {
                Some(id) => {
                    let start: usize = g.l4_start + hdr.header_len;
                    self.tcp_from_guest(id, &hdr, start, g.l4_end, now);
                },
                None => {
                    if hdr.flags & (proto::TCP_SYN | proto::TCP_ACK | proto::TCP_RST)
                        == proto::TCP_SYN {
                        self.new_tcp_flow(key, &hdr, g.l4_start);
                    }
                },
            }
        }
    }

    /// Handle a TCP segment from the guest: acks and window updates,
    /// payload into the host socket, FIN/RST teardown.
    fn tcp_from_guest(
        &mut self,
        id: usize,
        hdr: &TcpHdr,
        start: usize,
        end: usize,
        now: Instant,
    )
        requires
            old(self).inv(),
            old(self)@.is_idle(),
            end <= buf::BUF_SIZE,
        ensures
            final(self).inv(),
            final(self)@ == old(self)@.tcp_from_guest(id, *hdr, start, end, now),
    {
        let f = match self.flow(id) {
            Some(f) => f,
            None => {
                return;
            },
        };
        self.touch(id, now);
        let t = match f.tcp {
            Some(t) => t,
            None => {
                return;
            },
        };
        match t.verdict(hdr.flags) {
            Verdict::Close => {
                self.remove_flow(id);
            },
            Verdict::Ignore => {},
            Verdict::SynAck => {
                self.send_syn_ack(id);
            },
            Verdict::Process => {
                if hdr.flags & proto::TCP_ACK != 0 {
                    self.tcp_ack_from_guest(id, hdr, start >= end, now);
                }
                self.set_after(After::TapTcp(id));
                // Guest payload into the host socket. Only in-order data is
                // accepted; anything else is dropped and the resulting
                // duplicate ack makes the guest retransmit.
                if start < end && hdr.seq == t.seq_from_guest {
                    self.wait_for(
                        Pending::Sending { id, hdr: *hdr, start, end },
                        Request::SendTcp { fd: f.sock, start, end },
                    );
                } else {
                    let len: usize = if start < end {
                        end - start
                    } else {
                        0
                    };
                    self.tcp_taken(id, hdr, len, 0, now);
                }
            },
        }
    }

    /// Account for the payload and FIN of a guest segment once the host
    /// socket took `n` of its `len` bytes; then ack it, or move data.
    fn tcp_taken(&mut self, id: usize, hdr: &TcpHdr, len: usize, n: usize, now: Instant)
        requires
            old(self).inv(),
            n <= len <= buf::BUF_SIZE,
        ensures
            final(self).inv(),
            final(self)@ == old(self)@.tcp_taken(id, *hdr, len, n, now),
    {
        let f = match self.flow(id) {
            Some(f) => f,
            None => {
                return;
            },
        };
        if let Some(t) = f.tcp {
            let mut u = t;
            let r = u.take(hdr.flags, hdr.seq, len, n);
            self.set_tcp(id, u);
            if r.deferred {
                self.count(Counter::AckDeferred);
            }
            if r.shutdown {
                self.op(Op::ShutdownWrite { fd: f.sock });
            }
            if r.ack {
                self.count(Counter::TcpCtrl);
                self.ask_queued(id, Pending::Acking { id });
            } else {
                // Acks or window updates may allow more data towards the
                // guest.
                self.tcp_data_to_guest(id, now);
            }
        }
    }

    /// Send the ack that was due, then move data.
    fn acking(&mut self, queued: Option<i32>, id: usize, now: Instant)
        requires
            old(self).inv(),
        ensures
            final(self).inv(),
            final(self)@ == old(self)@.acking(queued, id, now),
    {
        if let Some(t) = self.tcp(id) {
            self.send_control(id, proto::TCP_ACK, t.window(queued));
            self.tcp_data_to_guest(id, now);
        }
    }

    /// Read data waiting on the host socket into the flow's ring
    /// buffer and send whatever fits in the guest's window as GSO
    /// super-frames (or MSS-sized segments without TSO). Buffered data
    /// is dropped only once the guest acks it, so retransmission
    /// resends from the ring without touching the socket.
    fn tcp_data_to_guest(&mut self, id: usize, now: Instant)
        requires
            old(self).inv(),
        ensures
            final(self).inv(),
            final(self)@ == old(self)@.tcp_data_to_guest(id, now),
    {
        let f = match self.flow(id) {
            Some(f) => f,
            None => {
                return;
            },
        };
        if let Some(t) = f.tcp {
            match t.push() {
                Push::Skip => {},
                Push::WindowFull => {
                    self.count(Counter::WindowFull);
                },
                Push::Fill => {
                    match t.space() {
                        Some(sp) => {
                            self.wait_for(
                                Pending::Filling { id },
                                Request::RecvTcp {
                                    fd: f.sock,
                                    buf: f.buf,
                                    start: buf::HEADROOM + sp.wpos,
                                    end: buf::HEADROOM + sp.wpos + sp.first,
                                    start2: buf::HEADROOM,
                                    end2: buf::HEADROOM + sp.second,
                                },
                            );
                        },
                        None => {
                            self.tcp_next(id, false);
                        },
                    }
                },
            }
        }
    }

    /// Account for a read into the flow's ring buffer. A read error resets
    /// the flow.
    fn tcp_filled(&mut self, read: TcpRead, id: usize)
        requires
            old(self).inv(),
            old(self)@.tcp(id) matches Some(t) ==> (read matches TcpRead::Data(n) ==> n
                <= t.free()),
        ensures
            final(self).inv(),
            final(self)@ == old(self)@.tcp_filled(read, id),
    {
        if let Some(t) = self.tcp(id) {
            match read {
                TcpRead::Again => {
                    self.count(Counter::SockRecv { empty: true });
                    self.tcp_next(id, true);
                },
                TcpRead::Failed => {
                    self.tcp_reset(id);
                },
                TcpRead::Data(n) => {
                    if n > 0 {
                        self.count(Counter::SockRecv { empty: false });
                    }
                    let mut u = t;
                    let drained = u.fill(n);
                    self.set_tcp(id, u);
                    self.tcp_next(id, drained);
                },
            }
        }
    }

    /// Go on once the ring is topped up.
    fn tcp_next(&mut self, id: usize, drained: bool)
        requires
            old(self).inv(),
        ensures
            final(self).inv(),
            final(self)@ == old(self)@.tcp_next(id, drained),
    {
        if let Some(t) = self.tcp(id) {
            match t.next(drained) {
                Next::Fin => {
                    // Everything the host sent has been forwarded and
                    // acknowledged; forward its FIN.
                    self.count(Counter::TcpCtrl);
                    self.ask_queued(id, Pending::Finning { id });
                },
                Next::Arm => {
                    self.arm_poll(id, POLL_RECV);
                },
                Next::Rest => {},
                Next::Send => {
                    if t.burst(self.offloads.tso()).short {
                        self.count(Counter::BudgetShort);
                    }
                    self.ask_queued(id, Pending::Bursting { id, drained });
                },
            }
        }
    }

    /// Forward the host's FIN.
    fn finning(&mut self, queued: Option<i32>, id: usize)
        requires
            old(self).inv(),
        ensures
            final(self).inv(),
            final(self)@ == old(self)@.finning(queued, id),
    {
        if let Some(t) = self.tcp(id) {
            self.send_control(id, proto::TCP_FIN | proto::TCP_ACK, t.window(queued));
            self.set_tcp(id, Tcp { host_fin: FinState::Sent, ..t });
        }
    }

    /// Send what the guest's window allows.
    fn bursting(&mut self, queued: Option<i32>, id: usize, drained: bool, now: Instant)
        requires
            old(self).inv(),
        ensures
            final(self).inv(),
            final(self)@ == old(self)@.bursting(queued, id, drained, now),
    {
        if let Some(t) = self.tcp(id) {
            let ghost s = self@;
            let ghost tso = self.offloads.spec_tso();
            let b = t.burst(self.offloads.tso());
            let window: u16 = t.window(queued);
            let mut off: usize = 0;
            assert(b == t.spec_burst(tso));
            while off < b.send_len
                invariant
                    self.inv(),
                    t.wf(),
                    b == t.spec_burst(tso),
                    off <= b.send_len,
                    b.send_len <= buf::FRAME,
                    s.send_burst(id, t, b, window, 0) == self@.send_burst(
                        id,
                        t,
                        b,
                        window,
                        off as int,
                    ),
                    self@.flows == s.flows,
                    self@.offloads == s.offloads,
                decreases b.send_len - off,
            {
                let p = t.piece(&b, off);
                let seg = TcpSegment {
                    seq: p.seq,
                    ack: t.seq_from_guest,
                    flags: proto::TCP_ACK,
                    window,
                    options: TcpOptions::Empty,
                    gso_size: if b.gso {
                        Some(t.guest_mss)
                    } else {
                        None
                    },
                };
                self.send_segment(
                    id,
                    &seg,
                    buf::HEADROOM + p.pos,
                    buf::HEADROOM + p.pos + p.first,
                    buf::HEADROOM,
                    buf::HEADROOM + p.second,
                );
                off = off + (p.first + p.second);
            }
            assert(self@ == s.send_burst(id, t, b, window, 0));
            let mut u = t;
            u.mark_sent(&b, now);
            self.set_tcp(id, u);
            // Only re-arm when the socket was drained; otherwise guest
            // acks free buffer space and pull in the rest as they arrive.
            if drained && !b.short && !t.poll_armed {
                self.arm_poll(id, POLL_RECV);
            }
        }
    }

    /// Handle a poll completion on a TCP flow's host socket.
    fn tcp_socket_ready(&mut self, id: usize, events: u32, now: Instant)
        requires
            old(self).inv(),
            old(self)@.holds(id) ==> !old(self)@.flow(id).closing,
        ensures
            final(self).inv(),
            final(self)@ == old(self)@.tcp_socket_ready(id, events, now),
    {
        if let Some(f) = self.flow(id) {
            self.touch(id, now);
            if let Some(t) = f.tcp {
                self.set_tcp(id, Tcp { poll_armed: false, ..t });
                self.wait_for(
                    Pending::Checking { id, events },
                    Request::SockError { fd: f.sock },
                );
            }
        }
    }

    /// Act on a poll completion once the socket's error is known.
    fn tcp_checked(&mut self, err: i32, id: usize, events: u32, now: Instant)
        requires
            old(self).inv(),
            old(self)@.is_idle(),
        ensures
            final(self).inv(),
            final(self)@ == old(self)@.tcp_checked(err, id, events, now),
    {
        if let Some(t) = self.tcp(id) {
            match t.state {
                TcpState::Connecting => {
                    if events & (POLL_ERR | POLL_HUP) != 0 || err != 0 {
                        self.tcp_reset(id);
                        return;
                    }
                    self.set_tcp(id, Tcp { state: TcpState::Established, ..t });
                    self.send_syn_ack(id);
                    self.arm_poll(id, POLL_RECV);
                },
                TcpState::Established => {
                    if events & POLL_ERR != 0 || err != 0 {
                        self.tcp_reset(id);
                        return;
                    }
                    self.set_after(After::Ready(id));
                    self.tcp_data_to_guest(id, now);
                },
            }
        }
    }

    // The loop.

    /// Handle a frame of `len` bytes in the tap buffer.
    fn handle_tap_frame(&mut self, len: usize, now: Instant)
        requires
            old(self).inv(),
            old(self)@.is_idle(),
            old(self)@.after is Tap,
            len <= buf::BUF_SIZE,
        ensures
            final(self).inv(),
            final(self)@ == old(self)@.handle_tap_frame(len, now),
    {
        self.count(Counter::TapIn(len));
        let frame = vstd::slice::slice_subrange(self.pool.get(self.tap_buf), 0, len);
        if let Some(g) = GuestFrame::parse(frame) {
            // Ignore anything not sourced from the configured guest address.
            if !g.src_ip.same(&IpAddr::V4(self.cfg.guest4)) && !g.src_ip.same(
                &IpAddr::V6(self.cfg.guest6),
            ) {
                return;
            }
            self.set_guest_mac(g.src_mac);
            if g.proto == proto::IPPROTO_UDP {
                self.handle_udp(&g, now);
            } else if g.proto == proto::IPPROTO_TCP {
                self.handle_tcp(&g, now);
            } else if g.proto == proto::IPPROTO_ICMP || g.proto == proto::IPPROTO_ICMPV6 {
                self.handle_echo(&g, now);
            }
        }
    }

    fn set_guest_mac(&mut self, mac: [u8; 6])
        requires
            old(self).inv(),
        ensures
            final(self).inv(),
            final(self)@ == (State { guest_mac: mac, ..old(self)@ }),
    {
        self.guest_mac = mac;
        proof {
            let s = old(self)@;
            assert(self@ =~= (State { guest_mac: mac, ..s }));
            assert forall|i: int| 0 <= i < self@.ops.len() implies self@.op_ok(
                #[trigger] self@.ops[i],
            ) by {
                assert(s.op_ok(s.ops[i]));
            }
        }
    }

    fn set_ask(&mut self, ask: Request)
        requires
            old(self).inv(),
            old(self)@.ask_ok(ask),
        ensures
            final(self).inv(),
            final(self)@ == (State { ask, ..old(self)@ }),
    {
        self.wait_for(self.pending, ask);
    }

    /// Begin a step: no actions yet.
    fn begin(&mut self)
        requires
            old(self).inv(),
        ensures
            final(self).inv(),
            final(self)@ == old(self)@.begun(),
    {
        self.ops.clear();
        self.hdrs.clear();
        self.ask = Request::Wait;
        assert(self@ =~= old(self)@.begun());
    }

    fn set_due(&mut self, due: Vec<usize>)
        requires
            old(self).inv(),
        ensures
            final(self).inv(),
            final(self)@ == (State { due: due@, ..old(self)@ }),
    {
        self.due = due;
        self.due_at = 0;
        proof {
            let s = old(self)@;
            assert(self@ =~= (State { due: due@, ..s }));
            assert forall|i: int| 0 <= i < self@.ops.len() implies self@.op_ok(
                #[trigger] self@.ops[i],
            ) by {
                assert(s.op_ok(s.ops[i]));
            }
        }
    }

    /// Take the next stalled flow.
    fn next_due(&mut self) -> (id: usize)
        requires
            old(self).inv(),
            old(self)@.due.len() > 0,
        ensures
            final(self).inv(),
            id == old(self)@.due[0],
            final(self)@ == (State { due: old(self)@.due.skip(1), ..old(self)@ }),
    {
        let id: usize = self.due[self.due_at];
        assert(self.due_at < self.due.len());
        self.due_at = self.due_at + 1;
        proof {
            let s = old(self)@;
            assert(self@ =~= (State { due: s.due.skip(1), ..s }));
            assert forall|i: int| 0 <= i < self@.ops.len() implies self@.op_ok(
                #[trigger] self@.ops[i],
            ) by {
                assert(s.op_ok(s.ops[i]));
            }
        }
        id
    }

    /// Find the flows whose acks stalled for `RTO`.
    fn find_due(&mut self, now: Instant)
        requires
            old(self).inv(),
        ensures
            final(self).inv(),
            final(self)@ == old(self)@.with_due(now),
    {
        if now < RTO {
            self.set_due(Vec::new());
        } else {
            let due = self.flows.retransmit_due(now - RTO);
            self.set_due(due);
        }
    }

    /// Resend in-flight data of a stalled flow.
    fn retransmit(&mut self, id: usize, now: Instant)
        requires
            old(self).inv(),
        ensures
            final(self).inv(),
            final(self)@ == old(self)@.retransmit(id, now),
    {
        if let Some(t) = self.tcp(id) {
            let mut u = t;
            u.rewind(now);
            self.set_tcp(id, u);
            self.count(Counter::RtoRetransmit);
            self.tcp_data_to_guest(id, now);
        }
    }

    /// Resend in-flight data of the flows whose acks stalled, reclaim idle
    /// flows and submit the next timer.
    fn run_timer(&mut self, now: Instant)
        requires
            old(self).inv(),
            old(self)@.is_idle(),
        ensures
            final(self).inv(),
            final(self)@ == old(self)@.run_timer(now),
    {
        while self.due_at < self.due.len()
            invariant
                self.inv(),
                self@.is_idle(),
                self@.run_timer(now) == old(self)@.run_timer(now),
                self@.due.len() == self.due@.len() - self.due_at,
            decreases self.due@.len() - self.due_at,
        {
            let ghost s = self@;
            let id: usize = self.next_due();
            self.retransmit(id, now);
            proof {
                state::lemma_retransmit_frame(State { due: s.due.skip(1), ..s }, id, now);
                assert(self@.due == s.due.skip(1));
                assert(self@ =~= (State {
                    due: s.due.skip(1),
                    ..State { due: s.due.skip(1), ..s }.retransmit(s.due[0], now)
                }));
            }
            match self.pending {
                Pending::Idle => {},
                _ => {
                    return;
                },
            }
        }
        self.expire_flows(now);
        self.op(Op::ArmTimer);
        self.finish();
    }

    /// The completion is dealt with.
    fn finish(&mut self)
        requires
            old(self).inv(),
            old(self)@.is_idle(),
        ensures
            final(self).inv(),
            final(self)@ == (State { after: After::Nothing, ask: Request::Wait, ..old(self)@ }),
    {
        self.set_after(After::Nothing);
        self.set_ask(Request::Wait);
    }

    /// Do what is left to do for the completion, unless an answer is
    /// awaited.
    fn proceed(&mut self, now: Instant)
        requires
            old(self).inv(),
        ensures
            final(self).inv(),
            final(self)@ == old(self)@.proceed(now),
    {
        match self.pending {
            Pending::Idle => {},
            _ => {
                return;
            },
        }
        match self.after {
            After::Timer => {
                self.run_timer(now);
            },
            After::Nothing => {
                self.set_ask(Request::Wait);
            },
            After::Tap => {
                self.op(Op::ArmTapRead { buf: self.tap_buf });
                self.finish();
            },
            After::TapTcp(id) => {
                self.tcp_maybe_close(id);
                self.op(Op::ArmTapRead { buf: self.tap_buf });
                self.finish();
            },
            After::Ready(id) => {
                self.tcp_maybe_close(id);
                self.finish();
            },
            After::Recv(id) => {
                self.submit_flow_recv(id);
                self.finish();
            },
        }
    }

    /// Handle the completion of a flow's operation.
    fn flow_completed(&mut self, id: usize, res: i32, now: Instant)
        requires
            old(self).inv(),
            old(self)@.is_idle(),
            res > i32::MIN,
            old(self)@.holds(id) && old(self)@.flow(id).kind != FlowKind::Tcp ==> res
                <= buf::FRAME,
        ensures
            final(self).inv(),
            final(self)@ == old(self)@.flow_completed(id, res, now),
    {
        if let Some(f) = self.flow(id) {
            if f.closing || res == -ECANCELED {
                self.free_flow(id);
            } else if f.kind == FlowKind::Tcp {
                if res >= 0 {
                    self.tcp_socket_ready(id, res as u32, now);
                } else {
                    self.tcp_reset(id);
                }
            } else {
                self.set_after(After::Recv(id));
                if res >= 0 {
                    if f.kind == FlowKind::Udp {
                        self.udp_to_guest(id, res as usize, now);
                    } else {
                        self.reply_to_guest(id, res as usize, None, now);
                    }
                } else if f.kind == FlowKind::Udp {
                    self.udp_error_to_guest(id, -res, now);
                }
            }
        }
    }

    // Interface.

    /// A datapath with an empty flow table. `None` when the pool is
    /// configured with zero buffers.
    pub fn new(cfg: &Config, offloads: Offloads) -> (r: Option<Self>)
        requires
            cfg.buffers <= u32::MAX,
            cfg.buffers * buf::BUF_SIZE <= usize::MAX,
        ensures
            match r {
                Some(el) => {
                    &&& cfg.buffers > 0
                    &&& el.inv()
                    &&& el@ == State::initial(*cfg, offloads)
                },
                None => cfg.buffers == 0,
            },
    {
        let mut pool = Pool::new(cfg.buffers);
        let ghost p = pool@;
        match pool.alloc_buf() {
            Some(tap_buf) => {
                let el = EventLoop {
                    pool,
                    flows: FlowTable::new(),
                    offloads,
                    cfg: *cfg,
                    guest_mac: [0, 0, 0, 0, 0, 0],
                    tap_buf,
                    due: Vec::new(),
                    due_at: 0,
                    pending: Pending::Idle,
                    after: After::Nothing,
                    ask: Request::Wait,
                    ops: Vec::new(),
                    hdrs: Vec::new(),
                };
                proof {
                    assert(el@ =~= State::initial(*cfg, offloads));
                    inv::lemma_initial_wf(*cfg, offloads);
                }
                Some(el)
            },
            None => None,
        }
    }

    /// Start the loop: submit the first tap read and the timer.
    pub fn start(&mut self)
        requires
            old(self).inv(),
        ensures
            final(self).inv(),
            final(self)@ == old(self)@.begun().op(
                Op::ArmTapRead { buf: old(self)@.tap_buf },
            ).op(Op::ArmTimer),
    {
        self.begin();
        self.op(Op::ArmTapRead { buf: self.tap_buf });
        self.op(Op::ArmTimer);
    }

    /// Handle the completion of the operation that `ud` names.
    pub fn complete(&mut self, ud: u64, res: i32, now: Instant)
        requires
            old(self).inv(),
            old(self)@.spec_ready(ud, res),
        ensures
            final(self).inv(),
            final(self)@ == old(self)@.complete(ud, res, now),
    {
        self.begin();
        self.set_after(After::Nothing);
        if ud == TAP_UD {
            if res == 0 {
                self.set_ask(Request::Stop);  // tap torn down
            } else if res < 0 {
                self.set_ask(Request::Fail(-res));
            } else {
                self.set_after(After::Tap);
                self.handle_tap_frame(res as usize, now);
                self.proceed(now);
            }
        } else if ud == STOP_UD {
            self.set_ask(Request::Stop);
        } else if ud == TIMER_UD {
            self.find_due(now);
            self.set_after(After::Timer);
            self.proceed(now);
        } else if ud == CANCEL_UD || ud > usize::MAX as u64 {
            // Cancel completions carry no state to clean up.
        } else {
            self.flow_completed(ud as usize, res, now);
            self.proceed(now);
        }
    }

    /// Go on with the answer to what was asked.
    pub fn resume(&mut self, reply: Reply, now: Instant)
        requires
            old(self).inv(),
            old(self)@.spec_accepts(reply),
        ensures
            final(self).inv(),
            final(self)@ == old(self)@.resume(reply, now),
    {
        let pending = self.pending;
        self.begin();
        self.wait_for(Pending::Idle, Request::Wait);
        match (pending, reply) {
            (Pending::NewFlow { key, kind, l4, start, end }, Reply::Policy(ok)) => {
                if ok {
                    self.open_flow(key, kind, start, end);
                } else {
                    self.refuse(&key, kind, l4);
                }
            },
            (Pending::Resolving { key, start, end }, Reply::Resolver(to)) => {
                if let Some(a) = to {
                    let target = self.cfg.nat64_target(a);
                    self.wait_for(
                        Pending::Opening { key, kind: FlowKind::Udp, start, end },
                        Request::OpenUdp(target),
                    );
                }
            },
            (Pending::Opening { key, kind, start, end }, Reply::Opened(fd)) => {
                self.opened(fd, key, kind, start, end, now);
            },
            (Pending::Arming { id, start, end }, Reply::Armed(ok)) => {
                if ok {
                    self.deliver(id, start, end, now);
                }
            },
            (Pending::NewTcp { key, syn, l4 }, Reply::Policy(ok)) => {
                if ok {
                    self.open_tcp(key, &syn);
                } else {
                    self.refuse(&key, FlowKind::Tcp, l4);
                }
            },
            (Pending::OpeningTcp { key, syn }, Reply::OpenedTcp(sock)) => {
                self.opened_tcp(sock, key, &syn, now);
            },
            (Pending::Sending { id, hdr, start, end }, Reply::Sent(n)) => {
                self.count(Counter::SockSend { accepted: n, wanted: end - start });
                self.tcp_taken(id, &hdr, end - start, n, now);
            },
            (Pending::Acking { id }, Reply::Queued(q)) => {
                self.acking(q, id, now);
            },
            (Pending::Filling { id }, Reply::Read(r)) => {
                self.tcp_filled(r, id);
            },
            (Pending::Finning { id }, Reply::Queued(q)) => {
                self.finning(q, id);
            },
            (Pending::Bursting { id, drained }, Reply::Queued(q)) => {
                self.bursting(q, id, drained, now);
            },
            (Pending::Checking { id, events }, Reply::SockError(e)) => {
                self.tcp_checked(e, id, events, now);
            },
            (Pending::Draining { id, seg, total }, Reply::Datagram(got)) => {
                self.drained(got, id, seg, total, now);
            },
            (Pending::Flushing { id, total, n }, Reply::Flushed) => {
                self.flushed(id, total, n);
            },
            _ => {},
        }
        self.proceed(now);
    }

    /// Whether `reply` answers what was asked.
    #[must_use]
    pub fn accepts(&self, reply: &Reply) -> (r: bool)
        requires
            self.inv(),
        ensures
            r == self@.spec_accepts(*reply),
    {
        match (self.pending, *reply) {
            (Pending::NewFlow { .. }, Reply::Policy(_)) => true,
            (Pending::Resolving { .. }, Reply::Resolver(_)) => true,
            (Pending::Opening { .. }, Reply::Opened(_)) => true,
            (Pending::Arming { .. }, Reply::Armed(_)) => true,
            (Pending::NewTcp { .. }, Reply::Policy(_)) => true,
            (Pending::OpeningTcp { .. }, Reply::OpenedTcp(_)) => true,
            (Pending::Sending { start, end, .. }, Reply::Sent(n)) => n <= end - start,
            (Pending::Acking { .. }, Reply::Queued(_)) => true,
            (Pending::Filling { id }, Reply::Read(r)) => match (self.tcp(id), r) {
                (Some(t), TcpRead::Data(n)) => n <= (tcp::FRAME_LEN - t.buffered) as usize,
                _ => true,
            },
            (Pending::Finning { .. }, Reply::Queued(_)) => true,
            (Pending::Bursting { .. }, Reply::Queued(_)) => true,
            (Pending::Checking { .. }, Reply::SockError(_)) => true,
            (Pending::Draining { total, .. }, Reply::Datagram(got)) => match got {
                Some(n) => n <= buf::FRAME - total,
                None => true,
            },
            (Pending::Flushing { .. }, Reply::Flushed) => true,
            _ => false,
        }
    }

    /// Whether the completion can be handled now: no answer is awaited,
    /// and a read or receive claims no more bytes than it had room for.
    #[must_use]
    pub fn ready(&self, ud: u64, res: i32) -> (r: bool)
        requires
            self.inv(),
        ensures
            r == self@.spec_ready(ud, res),
    {
        match self.pending {
            Pending::Idle => {},
            _ => {
                return false;
            },
        }
        if res == i32::MIN || (ud == TAP_UD && res > 262_400) {
            return false;
        }
        if ud <= usize::MAX as u64 {
            if let Some(f) = self.flow(ud as usize) {
                return f.kind == FlowKind::Tcp || res <= 262_144;
            }
        }
        true
    }

    /// What the loop waits for.
    #[must_use]
    pub fn request(&self) -> (r: Request)
        ensures
            r == self@.ask,
    {
        self.ask
    }

    /// Actions of the last step, in order.
    #[must_use]
    pub fn ops(&self) -> (r: &[Op])
        ensures
            r@ == self@.ops,
    {
        self.ops.as_slice()
    }

    /// Headers built in the last step.
    #[must_use]
    pub fn hdrs(&self) -> (r: &[u8])
        ensures
            r@ == self@.hdrs,
    {
        self.hdrs.as_slice()
    }

    /// The tap buffer's id.
    #[must_use]
    pub fn tap_buf(&self) -> (r: BufId)
        ensures
            r == self@.tap_buf,
    {
        self.tap_buf
    }

    /// Number of buffers in the pool.
    pub open spec fn buffers(self) -> nat {
        self@.pool.bufs.len()
    }

    /// Bytes `start..end` of a buffer.
    #[must_use]
    pub fn bytes(&self, buf: BufId, start: usize, end: usize) -> (r: &[u8])
        requires
            self.inv(),
            inv::range_ok(self@.pool, buf, start, end),
        ensures
            r@ == self@.pool.bufs[buf as int].subrange(start as int, end as int),
    {
        vstd::slice::slice_subrange(self.pool.get(buf), start, end)
    }

    /// Bytes of a buffer, for reading into.
    pub fn bytes_mut(&mut self, buf: BufId) -> (r: &mut [u8])
        requires
            old(self).inv(),
            buf < old(self)@.pool.bufs.len(),
        ensures
            r@ == old(self)@.pool.bufs[buf as int],
            r@.len() == buf::BUF_SIZE,
            final(r)@.len() == buf::BUF_SIZE ==> {
                &&& final(self).inv()
                &&& final(self)@ == old(self)@.with_buf(buf, final(r)@)
            },
    {
        let ghost s = self@;
        assert forall|b: Seq<u8>| b.len() == buf::BUF_SIZE implies #[trigger] s.with_buf(
            buf,
            b,
        ).wf() by {
            inv::lemma_with_buf_wf(s, buf, b);
        }
        self.pool.get_mut(buf)
    }
}

} // verus!
