//! State of the event loop and how each event changes it.

use vstd::prelude::*;

use crate::addr::{IpAddr, SocketAddr};
use crate::buf;
use crate::buf::{BufId, PoolView};
use crate::flow;
use crate::flow::{Fd, Flow, FlowKey, FlowKind, Instant, TableView};
use crate::frame;
use crate::frame::{GuestFrame, Link, TcpOptions, TcpSegment};
use crate::proto;
use crate::proto::tcp::TcpHdr;
use crate::proto::{EchoHdr, UdpHdr};
use crate::tap::Offloads;
use crate::tcp;
use crate::tcp::{Burst, FinState, Next, Push, Tcp, TcpState, Verdict};
use crate::wire;
use crate::{Config, FlowDst};

verus! {

/// `user_data` of the tap read; flow ids use their table index.
pub const TAP_UD: u64 = 0xffff_ffff_ffff_ffff;

/// `user_data` of the periodic expiry timer.
pub const TIMER_UD: u64 = 0xffff_ffff_ffff_fffe;

/// `user_data` of cancel requests issued by flow expiry.
pub const CANCEL_UD: u64 = 0xffff_ffff_ffff_fffd;

/// `user_data` of the poll on the fd that stops the loop.
pub const STOP_UD: u64 = 0xffff_ffff_ffff_fffc;

/// Idle time after which a flow's socket and buffer are reclaimed: three
/// minutes.
pub const FLOW_EXPIRY: u64 = 180_000_000_000;

/// Period of the timer driving the retransmission timeout and the
/// idle-flow expiry sweep: half a second.
pub const TIMER_INTERVAL: u64 = 500_000_000;

/// Resend in-flight data when the guest has not acknowledged any of it
/// for this long. Backstop for lost tap frames that fast retransmit
/// cannot recover (nothing follows the loss, so no duplicate acks).
pub const RTO: u64 = 500_000_000;

/// The socket can be written (`POLLOUT`).
pub const POLL_OUT: u32 = 0x4;

/// The socket has data or its peer closed (`POLLIN | POLLRDHUP`).
pub const POLL_RECV: u32 = 0x2001;

/// The socket failed (`POLLERR | POLLNVAL`).
pub const POLL_ERR: u32 = 0x28;

/// The socket is closed (`POLLHUP`).
pub const POLL_HUP: u32 = 0x10;

/// The operation was cancelled (Linux `errno`).
pub const ECANCELED: i32 = 125;

/// Port of the DNS service.
pub const DNS_PORT: u16 = 53;

/// Largest payload of a UDP super-frame. The IPv4 total-length field
/// bounds it; that is tighter than IPv6's payload length (which excludes
/// the IP header), so one bound covers both families.
pub const UDP_MAX_PAYLOAD: usize = 65_507;

/// Something the counters take note of.
#[derive(Debug, Clone, Copy, PartialEq, Eq)]
pub enum Counter {
    TapIn(usize),
    TapOut(usize),
    TcpCtrl,
    AckDeferred,
    SockSend { accepted: usize, wanted: usize },
    SockRecv { empty: bool },
    GuestWindow(u32),
    WindowFull,
    BudgetShort,
    DupAckRetransmit,
    RtoRetransmit,
    FlowEvicted,
    /// Flow teardown is a natural checkpoint for the counters.
    Dump,
}

/// An action that has no answer. Actions are performed in order, before
/// the request that comes with them.
#[derive(Debug, Clone, Copy, PartialEq, Eq)]
pub enum Op {
    Count(Counter),
    /// Write bytes `start..end` of a buffer to the tap as one frame.
    WriteTap { buf: BufId, start: usize, end: usize },
    /// Write one frame to the tap: bytes `hdr_start..hdr_end` of the built
    /// headers, then `start..end` and `start2..end2` of a buffer.
    WriteSegment {
        hdr_start: usize,
        hdr_end: usize,
        buf: BufId,
        start: usize,
        end: usize,
        start2: usize,
        end2: usize,
    },
    /// Send bytes `start..end` of the tap buffer on a socket; what it does
    /// not take is dropped.
    Send { fd: Fd, start: usize, end: usize },
    /// Shut the socket down for writing.
    ShutdownWrite { fd: Fd },
    /// Close the socket.
    Close { fd: Fd },
    /// Submit a oneshot poll for a flow.
    ArmPoll { id: usize, fd: Fd, events: u32 },
    /// Submit a receive for a flow into bytes `start..end` of its buffer.
    ArmRecv { id: usize, fd: Fd, buf: BufId, start: usize, end: usize },
    /// Submit a read of the tap into the whole buffer.
    ArmTapRead { buf: BufId },
    /// Submit the periodic timer.
    ArmTimer,
    /// Cancel a flow's pending operation.
    Cancel { id: usize },
}

/// What the event loop waits for.
#[derive(Debug, Clone, Copy, PartialEq, Eq)]
pub enum Request {
    /// The next completion.
    Wait,
    /// Nothing: the tap was torn down, or the caller stopped the loop.
    Stop,
    /// Nothing: reading the tap failed with this error number.
    Fail(i32),
    /// The caller's decision on a new flow.
    Policy(FlowDst),
    /// The host resolver.
    Resolver,
    /// A connected, nonblocking UDP socket.
    OpenUdp(SocketAddr),
    /// A connected, nonblocking ping socket.
    OpenPing(SocketAddr),
    /// A nonblocking TCP socket with its connect under way, and the size
    /// of its send buffer.
    OpenTcp(SocketAddr),
    /// The first receive of a new flow, submitted.
    ArmRecv { id: usize, fd: Fd, buf: BufId, start: usize, end: usize },
    /// How much of the tap buffer's bytes `start..end` a socket takes.
    SendTcp { fd: Fd, start: usize, end: usize },
    /// What a socket holds, read into `start..end` and then `start2..end2`
    /// of a buffer.
    RecvTcp { fd: Fd, buf: BufId, start: usize, end: usize, start2: usize, end2: usize },
    /// The next datagram that waits on a socket, read into `start..end` of
    /// a buffer.
    RecvUdp { fd: Fd, buf: BufId, start: usize, end: usize },
    /// Bytes queued in a socket's send buffer.
    Queued { fd: Fd },
    /// A socket's pending error.
    SockError { fd: Fd },
    /// The actions, performed.
    Flush,
}

/// Outcome of reading a TCP socket.
#[derive(Debug, Clone, Copy, PartialEq, Eq)]
pub enum TcpRead {
    /// Nothing to read now.
    Again,
    Failed,
    /// Bytes read; none at the end of the stream.
    Data(usize),
}

/// Answer to a request.
#[derive(Debug, Clone, Copy, PartialEq, Eq)]
pub enum Reply {
    Policy(bool),
    Resolver(Option<SocketAddr>),
    Opened(Option<Fd>),
    OpenedTcp(Option<(Fd, u32)>),
    Armed(bool),
    Sent(usize),
    Read(TcpRead),
    Datagram(Option<usize>),
    Queued(Option<i32>),
    SockError(i32),
    Flushed,
}

/// Where to go on once the answer is there.
#[derive(Debug, Clone, Copy)]
pub enum Pending {
    /// No answer is awaited.
    Idle,
    /// The policy decides on a UDP or ping flow for `start..end` of the
    /// tap buffer, in a guest packet whose L4 message starts at `l4`.
    NewFlow { key: FlowKey, kind: FlowKind, l4: usize, start: usize, end: usize },
    /// A DNS flow waits for the host resolver's address.
    Resolving { key: FlowKey, start: usize, end: usize },
    /// A UDP or ping flow waits for its socket.
    Opening { key: FlowKey, kind: FlowKind, start: usize, end: usize },
    /// A UDP or ping flow waits for its first receive.
    Arming { id: usize, start: usize, end: usize },
    /// The policy decides on a TCP flow for the SYN at `l4` of the tap
    /// buffer.
    NewTcp { key: FlowKey, syn: TcpHdr, l4: usize },
    /// A TCP flow waits for its socket.
    OpeningTcp { key: FlowKey, syn: TcpHdr },
    /// The host socket takes the payload of a guest segment.
    Sending { id: usize, hdr: TcpHdr, start: usize, end: usize },
    /// An ack to the guest needs the window.
    Acking { id: usize },
    /// The ring is topped up.
    Filling { id: usize },
    /// The FIN to the guest needs the window.
    Finning { id: usize },
    /// A burst to the guest needs the window.
    Bursting { id: usize, drained: bool },
    /// A polled socket's error is looked up.
    Checking { id: usize, events: u32 },
    /// Further datagrams are drained behind the `total` bytes of a
    /// super-frame with segments of `seg` bytes.
    Draining { id: usize, seg: usize, total: usize },
    /// A super-frame of `total` bytes goes out before the `n` bytes behind
    /// it move down.
    Flushing { id: usize, total: usize, n: usize },
}

/// What is left to do for the completion being handled.
#[derive(Debug, Clone, Copy)]
pub enum After {
    Nothing,
    /// Submit the next tap read.
    Tap,
    /// Close the flow if it is finished, then submit the next tap read.
    TapTcp(usize),
    /// Close the flow if it is finished.
    Ready(usize),
    /// Submit the flow's next receive.
    Recv(usize),
    /// Retransmit for the remaining stalled flows, expire idle flows, then
    /// submit the timer.
    Timer,
}

/// State of the event loop.
#[verifier::ext_equal]
pub struct State {
    pub pool: PoolView,
    pub flows: TableView,
    pub offloads: Offloads,
    pub cfg: Config,
    pub guest_mac: [u8; 6],
    pub tap_buf: BufId,
    /// Stalled flows that the running timer has yet to look at.
    pub due: Seq<usize>,
    pub pending: Pending,
    pub after: After,
    /// What is asked of the caller.
    pub ask: Request,
    /// Actions of the step.
    pub ops: Seq<Op>,
    /// Headers built in the step.
    pub hdrs: Seq<u8>,
}

/// UDP GSO segment size for a super-frame of `total` payload bytes
/// resegmented at `seg`; single-datagram frames carry no GSO metadata.
pub open spec fn spec_gso_of(total: int, seg: int) -> Option<u16> {
    if total > seg {
        Some(
            if seg <= u16::MAX {
                seg as u16
            } else {
                u16::MAX
            },
        )
    } else {
        None
    }
}

/// A flow's policy-relevant destination.
pub open spec fn flow_dst(key: FlowKey) -> FlowDst {
    FlowDst { proto: key.proto, ip: key.dst.ip, port: key.dst.port }
}

/// An operation of the flow is in the ring: the receive of a UDP or ping
/// flow, or the poll of a TCP flow.
pub open spec fn has_pending_op(f: Flow) -> bool {
    f.tcp matches Some(t) ==> t.poll_armed
}

impl State {
    /// One more action.
    pub open spec fn op(self, o: Op) -> State {
        State { ops: self.ops.push(o), ..self }
    }

    /// One more note for the counters.
    pub open spec fn count(self, c: Counter) -> State {
        self.op(Op::Count(c))
    }

    /// Go on at `pending` once `ask` is answered.
    pub open spec fn wait_for(self, pending: Pending, ask: Request) -> State {
        State { pending, ask, ..self }
    }

    /// The flow in slot `id` replaced.
    pub open spec fn with_flow(self, id: usize, f: Flow) -> State {
        State { flows: self.flows.with_flow(id, f), ..self }
    }

    /// The TCP state of flow `id` replaced.
    pub open spec fn with_tcp(self, id: usize, t: Tcp) -> State {
        self.with_flow(id, Flow { tcp: Some(t), ..self.flows.flow(id) })
    }

    /// Flow `id` used just now.
    pub open spec fn touched(self, id: usize, now: Instant) -> State {
        self.with_flow(id, Flow { last_active: now, ..self.flows.flow(id) })
    }

    /// The bytes of a buffer replaced.
    pub open spec fn with_buf(self, id: BufId, b: Seq<u8>) -> State {
        State { pool: self.pool.with_buf(id, b), ..self }
    }

    /// Flow `id` exists.
    pub open spec fn holds(self, id: usize) -> bool {
        self.flows.holds(id)
    }

    /// Flow `id`.
    pub open spec fn flow(self, id: usize) -> Flow {
        self.flows.flow(id)
    }

    /// TCP state of flow `id`, if it is a TCP flow.
    pub open spec fn tcp(self, id: usize) -> Option<Tcp> {
        if self.holds(id) {
            self.flow(id).tcp
        } else {
            None
        }
    }

    /// The bytes of the tap buffer.
    pub open spec fn tap(self) -> Seq<u8> {
        self.pool.bufs[self.tap_buf as int]
    }

    /// Addresses for frames towards the guest.
    pub open spec fn link(self) -> Link {
        Link {
            guest4: self.cfg.guest4,
            guest6: self.cfg.guest6,
            guest_mac: self.guest_mac,
            gateway_mac: self.cfg.gateway_mac,
        }
    }

    // Teardown.

    /// Flow `id` gone: its slot and buffer are free, its socket closes.
    pub open spec fn free_flow(self, id: usize) -> State {
        if self.holds(id) {
            let f = self.flow(id);
            State {
                flows: self.flows.removed(id),
                pool: self.pool.freed(f.buf),
                ..self
            }.op(Op::Close { fd: f.sock })
        } else {
            self
        }
    }

    /// Flow `id` closed. If an operation is still pending for it, the slot
    /// and buffer are only freed once the cancelled operation completes.
    pub open spec fn remove_flow(self, id: usize) -> State {
        let s = self.count(Counter::Dump);
        if !s.holds(id) {
            s
        } else if has_pending_op(s.flow(id)) {
            s.with_flow(id, Flow { closing: true, ..s.flow(id) }).op(Op::Cancel { id })
        } else {
            s.free_flow(id)
        }
    }

    /// The first `n` of `ids` closed.
    pub open spec fn remove_flows(self, ids: Seq<usize>, n: nat) -> State
        decreases n,
    {
        if n == 0 {
            self
        } else {
            self.remove_flows(ids, (n - 1) as nat).remove_flow(ids[n - 1])
        }
    }

    /// Every idle flow closed.
    pub open spec fn expire_flows(self, now: Instant) -> State {
        if now < FLOW_EXPIRY {
            self
        } else {
            let cutoff = (now - FLOW_EXPIRY) as u64;
            let ids = flow::ids_where(
                self.flows.slots,
                self.flows.slots.len(),
                |f: Flow| flow::is_expired(f, cutoff),
            );
            self.remove_flows(ids, ids.len())
        }
    }

    // New flows.

    /// The flow that `add_flow` would insert.
    pub open spec fn new_flow_value(
        self,
        key: FlowKey,
        kind: FlowKind,
        fd: Fd,
        tcp: Option<Tcp>,
        now: Instant,
    ) -> Flow {
        Flow {
            key,
            kind,
            sock: fd,
            buf: self.pool.alloc_result()->0,
            last_active: now,
            tcp,
            closing: false,
        }
    }

    /// A flow inserted with a buffer of its own. When the pool is dry, the
    /// least-recently-used idle UDP/ping flow is evicted instead and the
    /// socket closed: its buffer is back once the cancelled receive
    /// completes, so the guest's retry gets through.
    pub open spec fn add_flow(
        self,
        key: FlowKey,
        kind: FlowKind,
        fd: Fd,
        tcp: Option<Tcp>,
        now: Instant,
    ) -> State {
        if self.pool.free.len() > 0 {
            State {
                pool: self.pool.alloced(),
                flows: self.flows.inserted(self.new_flow_value(key, kind, fd, tcp, now)),
                ..self
            }
        } else {
            match flow::lru_below(self.flows.slots, self.flows.slots.len()) {
                Some(id) => self.count(Counter::FlowEvicted).remove_flow(id),
                None => self,
            }.op(Op::Close { fd })
        }
    }

    /// Id of the flow that `add_flow` inserts, if there is a buffer.
    pub open spec fn added_id(self) -> Option<usize> {
        if self.pool.free.len() > 0 {
            Some(self.flows.next_id())
        } else {
            None
        }
    }

    // Guest to host: UDP and ping.

    /// Bytes `start..end` of the tap buffer sent to flow `id`.
    pub open spec fn deliver(self, id: usize, start: usize, end: usize, now: Instant) -> State {
        if self.holds(id) {
            self.touched(id, now).op(Op::Send { fd: self.flow(id).sock, start, end })
        } else {
            self
        }
    }

    /// Queries for this destination go to the host resolver.
    pub open spec fn is_gateway_dns(self, dst: SocketAddr) -> bool {
        &&& self.cfg.dns_forward
        &&& dst.port == DNS_PORT
        &&& (dst.ip == IpAddr::V4(self.cfg.gateway4) || dst.ip == IpAddr::V6(self.cfg.gateway6))
    }

    /// A socket requested for an allowed UDP or ping flow.
    pub open spec fn open_flow(self, key: FlowKey, kind: FlowKind, start: usize, end: usize) -> State {
        if kind == FlowKind::Udp && self.is_gateway_dns(key.dst) {
            self.wait_for(Pending::Resolving { key, start, end }, Request::Resolver)
        } else if kind == FlowKind::Udp {
            self.wait_for(
                Pending::Opening { key, kind, start, end },
                Request::OpenUdp(self.cfg.spec_nat64_target(key.dst)),
            )
        } else {
            self.wait_for(
                Pending::Opening { key, kind, start, end },
                Request::OpenPing(
                    self.cfg.spec_nat64_target(SocketAddr { ip: key.dst.ip, port: 0 }),
                ),
            )
        }
    }

    /// First byte of a refused packet's L4 message, where the tap buffer
    /// does not hold it any more: the type of an echo request that was
    /// rewritten for NAT64.
    pub open spec fn rewritten(self, key: FlowKey, kind: FlowKind) -> Option<u8> {
        if kind == FlowKind::Ping && key.dst.ip is V4 && self.cfg.nat64_prefix is Some {
            Some(proto::ICMP_ECHO_REQUEST)
        } else {
            None
        }
    }

    /// A new flow refused: the guest sees an unreachable host. The message
    /// is built in the tap buffer, which still holds the guest's packet,
    /// and nothing else is touched.
    pub open spec fn refused(self, key: FlowKey, kind: FlowKind, l4: usize) -> State {
        let packet = frame::packet_start(self.tap(), l4 as int, self.rewritten(key, kind));
        let out = self.link().unreachable_frame(key.dst.ip, packet, (1, 3));
        let start = buf::HEADROOM - frame::frame_hdr_len(key.dst.ip);
        self.with_buf(self.tap_buf, wire::splice(self.tap(), start, out)).count(
            Counter::TapOut(out.len() as usize),
        ).op(
            Op::WriteTap {
                buf: self.tap_buf,
                start: start as usize,
                end: (start + out.len()) as usize,
            },
        )
    }

    /// A new UDP or ping flow put to the policy: the caller's, or the
    /// default that refuses loopback destinations.
    pub open spec fn new_flow(
        self,
        key: FlowKey,
        kind: FlowKind,
        l4: usize,
        start: usize,
        end: usize,
    ) -> State {
        if self.cfg.allow_flow is Some {
            self.wait_for(
                Pending::NewFlow { key, kind, l4, start, end },
                Request::Policy(flow_dst(key)),
            )
        } else if key.dst.ip.spec_loopback() {
            self.refused(key, kind, l4)
        } else {
            self.open_flow(key, kind, start, end)
        }
    }

    /// Bytes `start..end` of the tap buffer forwarded on the flow for
    /// `key`, which is created first if need be.
    pub open spec fn forward(
        self,
        key: FlowKey,
        kind: FlowKind,
        l4: usize,
        start: usize,
        end: usize,
        now: Instant,
    ) -> State {
        match self.flows.lookup(key) {
            Some(id) => self.deliver(id, start, end, now),
            None => self.new_flow(key, kind, l4, start, end),
        }
    }

    /// The policy decided on a UDP or ping flow.
    pub open spec fn allowed(
        self,
        ok: bool,
        key: FlowKey,
        kind: FlowKind,
        l4: usize,
        start: usize,
        end: usize,
    ) -> State {
        if ok {
            self.open_flow(key, kind, start, end)
        } else {
            self.refused(key, kind, l4)
        }
    }

    /// The host resolver for a DNS flow is known, or there is none.
    pub open spec fn resolved(
        self,
        to: Option<SocketAddr>,
        key: FlowKey,
        start: usize,
        end: usize,
    ) -> State {
        match to {
            Some(a) => self.wait_for(
                Pending::Opening { key, kind: FlowKind::Udp, start, end },
                Request::OpenUdp(self.cfg.spec_nat64_target(a)),
            ),
            None => self,
        }
    }

    /// The socket of a UDP or ping flow is open, or could not be opened.
    pub open spec fn opened(
        self,
        fd: Option<Fd>,
        key: FlowKey,
        kind: FlowKind,
        start: usize,
        end: usize,
        now: Instant,
    ) -> State {
        match fd {
            Some(fd) => {
                let s = self.add_flow(key, kind, fd, None, now);
                match self.added_id() {
                    Some(id) => s.wait_for(
                        Pending::Arming { id, start, end },
                        Request::ArmRecv {
                            id,
                            fd,
                            buf: s.flow(id).buf,
                            start: buf::HEADROOM,
                            end: buf::BUF_SIZE,
                        },
                    ),
                    None => s,
                }
            },
            None => self,
        }
    }

    /// The first receive of a new flow is submitted, or could not be.
    pub open spec fn armed(
        self,
        ok: bool,
        id: usize,
        start: usize,
        end: usize,
        now: Instant,
    ) -> State {
        if ok {
            self.deliver(id, start, end, now)
        } else {
            self
        }
    }

    /// A UDP datagram from the guest.
    pub open spec fn handle_udp(self, g: GuestFrame, now: Instant) -> State {
        match UdpHdr::spec_parse(self.tap().subrange(g.l4_start as int, g.l4_end as int)) {
            Some(udp) => self.forward(
                FlowKey {
                    proto: proto::IPPROTO_UDP,
                    guest_port: udp.src_port,
                    dst: SocketAddr { ip: g.dst_ip, port: udp.dst_port },
                },
                FlowKind::Udp,
                g.l4_start,
                (g.l4_start + proto::UDP_HDR_LEN) as usize,
                (if g.l4_start + udp.len <= g.l4_end {
                    g.l4_start + udp.len
                } else {
                    g.l4_end as int
                }) as usize,
                now,
            ),
            None => self,
        }
    }

    /// An ICMP or ICMPv6 message from the guest: echo requests are
    /// forwarded over a ping socket, under NAT64 as ICMPv6.
    pub open spec fn handle_echo(self, g: GuestFrame, now: Instant) -> State {
        match EchoHdr::spec_parse(self.tap().subrange(g.l4_start as int, g.l4_end as int)) {
            Some(echo) => {
                let expected = match g.dst_ip {
                    IpAddr::V4(_) => proto::ICMP_ECHO_REQUEST,
                    IpAddr::V6(_) => proto::ICMPV6_ECHO_REQUEST,
                };
                if echo.msg_type != expected {
                    self
                } else {
                    let s = if g.dst_ip is V4 && self.cfg.nat64_prefix is Some {
                        self.with_buf(
                            self.tap_buf,
                            self.tap().update(g.l4_start as int, proto::ICMPV6_ECHO_REQUEST),
                        )
                    } else {
                        self
                    };
                    s.forward(
                        FlowKey {
                            proto: g.proto,
                            guest_port: echo.id,
                            dst: SocketAddr { ip: g.dst_ip, port: 0 },
                        },
                        FlowKind::Ping,
                        g.l4_start,
                        g.l4_start,
                        g.l4_end,
                        now,
                    )
                }
            },
            None => self,
        }
    }

    // Host to guest: UDP and ping.

    /// `len` payload bytes at the headroom offset of the flow's buffer
    /// framed and written to the tap, if a frame is due.
    pub open spec fn reply_to_guest(
        self,
        id: usize,
        len: usize,
        gso: Option<u16>,
        now: Instant,
    ) -> State {
        if !self.holds(id) {
            self
        } else {
            let s = self.touched(id, now);
            let f = self.flow(id);
            let b = self.pool.bufs[f.buf as int];
            let end = buf::HEADROOM + len;
            match self.link().reply_frame(
                f.key,
                f.kind,
                self.cfg.nat64_prefix is Some,
                b.subrange(buf::HEADROOM as int, end),
                gso,
            ) {
                Some(out) => s.with_buf(f.buf, wire::splice(b, end - out.len(), out)).count(
                    Counter::TapOut(out.len() as usize),
                ).op(
                    Op::WriteTap {
                        buf: f.buf,
                        start: (end - out.len()) as usize,
                        end: end as usize,
                    },
                ),
                None => s,
            }
        }
    }

    /// The next datagram requested behind `total` bytes of a super-frame.
    pub open spec fn drain(self, id: usize, seg: usize, total: usize) -> State {
        if self.holds(id) {
            let f = self.flow(id);
            self.wait_for(
                Pending::Draining { id, seg, total },
                Request::RecvUdp {
                    fd: f.sock,
                    buf: f.buf,
                    start: (buf::HEADROOM + total) as usize,
                    end: buf::BUF_SIZE,
                },
            )
        } else {
            self
        }
    }

    /// A datagram of `len` bytes arrived on a UDP flow. When the tap
    /// supports UDP GSO, further datagrams waiting on the socket are
    /// drained first.
    pub open spec fn udp_to_guest(self, id: usize, len: usize, now: Instant) -> State {
        if !(self.offloads.spec_uso() && self.offloads.spec_csum()) || len == 0 {
            self.reply_to_guest(id, len, None, now)
        } else {
            self.drain(id, len, len)
        }
    }

    /// A further datagram of `n` bytes was drained behind a super-frame,
    /// or none waits. Equal-sized runs leave as one super-frame; a shorter
    /// datagram becomes its tail segment; one that does not fit starts a
    /// new super-frame once this one is out.
    pub open spec fn drained(
        self,
        got: Option<usize>,
        id: usize,
        seg: usize,
        total: usize,
        now: Instant,
    ) -> State {
        match got {
            None => self.reply_to_guest(id, total, spec_gso_of(total as int, seg as int), now),
            Some(n) => {
                let s = self.count(Counter::SockRecv { empty: n == 0 });
                if n == 0 {
                    s.reply_to_guest(id, total, spec_gso_of(total as int, seg as int), now)
                } else if n <= seg && total + n <= UDP_MAX_PAYLOAD {
                    let more = (total + n) as usize;
                    if n < seg {
                        s.reply_to_guest(id, more, spec_gso_of(more as int, seg as int), now)
                    } else {
                        s.drain(id, seg, more)
                    }
                } else {
                    s.reply_to_guest(
                        id,
                        total,
                        spec_gso_of(total as int, seg as int),
                        now,
                    ).wait_for(Pending::Flushing { id, total, n }, Request::Flush)
                }
            },
        }
    }

    /// A super-frame is out: the datagram behind it moves to the front.
    pub open spec fn flushed(self, id: usize, total: usize, n: usize) -> State {
        if self.holds(id) {
            let buf = self.flow(id).buf;
            let b = self.pool.bufs[buf as int];
            let from = buf::HEADROOM + total;
            self.with_buf(
                buf,
                wire::splice(b, buf::HEADROOM as int, b.subrange(from, from + n)),
            ).drain(id, n, n)
        } else {
            self
        }
    }

    /// A host socket error on a UDP flow, reported to the guest as a
    /// destination unreachable message where there is one for it.
    pub open spec fn udp_error_to_guest(self, id: usize, errno: i32, now: Instant) -> State {
        match frame::spec_unreachable_codes(errno) {
            Some(codes) => if self.holds(id) {
                let f = self.flow(id);
                let b = self.pool.bufs[f.buf as int];
                let out = self.link().unreachable_frame(f.key.dst.ip, self.link().offending(f.key), codes);
                let start = buf::HEADROOM - frame::frame_hdr_len(f.key.dst.ip);
                self.touched(id, now).with_buf(f.buf, wire::splice(b, start, out)).count(
                    Counter::TapOut(out.len() as usize),
                ).op(
                    Op::WriteTap {
                        buf: f.buf,
                        start: start as usize,
                        end: (start + out.len()) as usize,
                    },
                )
            } else {
                self
            },
            None => self,
        }
    }

    /// The next receive of a UDP or ping flow submitted.
    pub open spec fn submit_flow_recv(self, id: usize) -> State {
        if self.holds(id) {
            self.op(
                Op::ArmRecv {
                    id,
                    fd: self.flow(id).sock,
                    buf: self.flow(id).buf,
                    start: buf::HEADROOM,
                    end: buf::BUF_SIZE,
                },
            )
        } else {
            self
        }
    }

    // TCP.

    /// A segment of flow `id` written to the tap, with payload from two
    /// ranges of its buffer.
    pub open spec fn send_segment(
        self,
        id: usize,
        seg: TcpSegment,
        start: usize,
        end: usize,
        start2: usize,
        end2: usize,
    ) -> State {
        if self.holds(id) {
            let f = self.flow(id);
            let b = self.pool.bufs[f.buf as int];
            let payload = b.subrange(start as int, end as int) + b.subrange(
                start2 as int,
                end2 as int,
            );
            let hdr = self.link().segment_hdr(f.key, seg, self.offloads.spec_csum(), payload);
            State { hdrs: self.hdrs + hdr, ..self }.count(
                Counter::TapOut((hdr.len() + payload.len()) as usize),
            ).op(
                Op::WriteSegment {
                    hdr_start: self.hdrs.len() as usize,
                    hdr_end: (self.hdrs.len() + hdr.len()) as usize,
                    buf: f.buf,
                    start,
                    end,
                    start2,
                    end2,
                },
            )
        } else {
            self
        }
    }

    /// A payload-less segment (ACK, FIN, RST) at the current send position.
    pub open spec fn send_control(self, id: usize, flags: u8, window: u16) -> State {
        match self.tcp(id) {
            Some(t) => self.send_segment(
                id,
                TcpSegment {
                    seq: t.spec_next_seq(),
                    ack: t.seq_from_guest,
                    flags,
                    window,
                    options: TcpOptions::Empty,
                    gso_size: None,
                },
                buf::HEADROOM,
                buf::HEADROOM,
                buf::HEADROOM,
                buf::HEADROOM,
            ),
            None => self,
        }
    }

    /// The SYN-ACK. It is taken as acked; a lost one shows up as a SYN
    /// retransmit and is sent again.
    pub open spec fn send_syn_ack(self, id: usize) -> State {
        match self.tcp(id) {
            Some(t) => self.send_segment(
                id,
                TcpSegment {
                    seq: tcp::TCP_ISN,
                    ack: t.seq_from_guest,
                    flags: proto::TCP_SYN | proto::TCP_ACK,
                    window: t.spec_syn_window(),
                    options: if t.guest_wscale is Some {
                        TcpOptions::MssAndScale
                    } else {
                        TcpOptions::Mss
                    },
                    gso_size: None,
                },
                buf::HEADROOM,
                buf::HEADROOM,
                buf::HEADROOM,
                buf::HEADROOM,
            ).with_tcp(id, Tcp { seq_una: tcp::seq_add(tcp::TCP_ISN, 1), ..t }),
            None => self,
        }
    }

    /// A oneshot poll on the flow's host socket.
    pub open spec fn arm_poll(self, id: usize, events: u32) -> State {
        match self.tcp(id) {
            Some(t) => self.with_tcp(id, Tcp { poll_armed: true, ..t }).op(
                Op::ArmPoll { id, fd: self.flow(id).sock, events },
            ),
            None => self,
        }
    }

    /// The flow aborted towards both sides.
    pub open spec fn tcp_reset(self, id: usize) -> State {
        self.count(Counter::TcpCtrl).send_control(
            id,
            proto::TCP_RST | proto::TCP_ACK,
            0,
        ).remove_flow(id)
    }

    /// The flow dropped once both directions are closed and acknowledged.
    pub open spec fn tcp_maybe_close(self, id: usize) -> State {
        match self.tcp(id) {
            Some(t) => if t.spec_finished() {
                self.remove_flow(id)
            } else {
                self
            },
            None => self,
        }
    }

    /// Bytes queued towards the host requested, for a segment to the guest.
    pub open spec fn ask_queued(self, id: usize, pending: Pending) -> State {
        self.wait_for(pending, Request::Queued { fd: self.flow(id).sock })
    }

    /// A socket requested for an allowed TCP flow.
    pub open spec fn open_tcp(self, key: FlowKey, syn: TcpHdr) -> State {
        self.wait_for(
            Pending::OpeningTcp { key, syn },
            Request::OpenTcp(self.cfg.spec_nat64_target(key.dst)),
        )
    }

    /// A new TCP flow put to the policy.
    pub open spec fn new_tcp_flow(self, key: FlowKey, syn: TcpHdr, l4: usize) -> State {
        if self.cfg.allow_flow is Some {
            self.wait_for(Pending::NewTcp { key, syn, l4 }, Request::Policy(flow_dst(key)))
        } else if key.dst.ip.spec_loopback() {
            self.refused(key, FlowKind::Tcp, l4)
        } else {
            self.open_tcp(key, syn)
        }
    }

    /// The policy decided on a TCP flow.
    pub open spec fn allowed_tcp(self, ok: bool, key: FlowKey, syn: TcpHdr, l4: usize) -> State {
        if ok {
            self.open_tcp(key, syn)
        } else {
            self.refused(key, FlowKind::Tcp, l4)
        }
    }

    /// The connect of a TCP flow is under way, or failed at once. The
    /// SYN-ACK is only sent once the host connection is established.
    pub open spec fn opened_tcp(
        self,
        sock: Option<(Fd, u32)>,
        key: FlowKey,
        syn: TcpHdr,
        now: Instant,
    ) -> State {
        match sock {
            Some((fd, sndbuf)) => {
                let t = Tcp::spec_connecting(syn, sndbuf, now);
                let s = self.add_flow(key, FlowKind::Tcp, fd, Some(t), now);
                match self.added_id() {
                    Some(id) => s.arm_poll(id, POLL_OUT),
                    None => s,
                }
            },
            None => self,
        }
    }

    /// A TCP segment from the guest.
    pub open spec fn handle_tcp(self, g: GuestFrame, now: Instant) -> State {
        match TcpHdr::spec_parse(self.tap().subrange(g.l4_start as int, g.l4_end as int)) {
            Some(hdr) => {
                let key = FlowKey {
                    proto: proto::IPPROTO_TCP,
                    guest_port: hdr.src_port,
                    dst: SocketAddr { ip: g.dst_ip, port: hdr.dst_port },
                };
                match self.flows.lookup(key) {
                    Some(id) => self.tcp_from_guest(
                        id,
                        hdr,
                        (g.l4_start + hdr.header_len) as usize,
                        g.l4_end,
                        now,
                    ),
                    None => if hdr.flags & (proto::TCP_SYN | proto::TCP_ACK | proto::TCP_RST)
                        == proto::TCP_SYN {
                        self.new_tcp_flow(key, hdr, g.l4_start)
                    } else {
                        self
                    },
                }
            },
            None => self,
        }
    }

    /// The ack and window fields of a guest segment taken in.
    pub open spec fn tcp_ack_from_guest(
        self,
        id: usize,
        hdr: TcpHdr,
        payload_empty: bool,
        now: Instant,
    ) -> State {
        match self.tcp(id) {
            Some(t) => {
                let u = t.acked(hdr, payload_empty, now);
                let s = self.with_tcp(id, u).count(Counter::GuestWindow(u.guest_window));
                if t.is_fast_retransmit(hdr, payload_empty) {
                    s.count(Counter::DupAckRetransmit)
                } else {
                    s
                }
            },
            None => self,
        }
    }

    /// A segment from the guest on an existing flow: acks and window
    /// updates, payload into the host socket, FIN/RST teardown.
    pub open spec fn tcp_from_guest(
        self,
        id: usize,
        hdr: TcpHdr,
        start: usize,
        end: usize,
        now: Instant,
    ) -> State {
        if !self.holds(id) {
            self
        } else {
            let s = self.touched(id, now);
            match s.tcp(id) {
                None => s,
                Some(t) => match t.spec_verdict(hdr.flags) {
                    Verdict::Close => s.remove_flow(id),
                    Verdict::Ignore => s,
                    Verdict::SynAck => s.send_syn_ack(id),
                    Verdict::Process => {
                        let u = if hdr.flags & proto::TCP_ACK != 0 {
                            s.tcp_ack_from_guest(id, hdr, start >= end, now)
                        } else {
                            s
                        };
                        let v = State { after: After::TapTcp(id), ..u };
                        if start < end && hdr.seq == t.seq_from_guest {
                            v.wait_for(
                                Pending::Sending { id, hdr, start, end },
                                Request::SendTcp { fd: self.flow(id).sock, start, end },
                            )
                        } else {
                            v.tcp_taken(
                                id,
                                hdr,
                                (if start < end {
                                    end - start
                                } else {
                                    0
                                }) as usize,
                                0,
                                now,
                            )
                        }
                    },
                },
            }
        }
    }

    /// The host socket took `n` bytes of a guest segment's payload.
    pub open spec fn tcp_sent(
        self,
        n: usize,
        id: usize,
        hdr: TcpHdr,
        start: usize,
        end: usize,
        now: Instant,
    ) -> State {
        let len = (end - start) as usize;
        self.count(Counter::SockSend { accepted: n, wanted: len }).tcp_taken(id, hdr, len, n, now)
    }

    /// Payload and FIN of a guest segment accounted for, `n` of `len`
    /// bytes taken; then the ack, if one is due, or data to the guest.
    pub open spec fn tcp_taken(
        self,
        id: usize,
        hdr: TcpHdr,
        len: usize,
        n: usize,
        now: Instant,
    ) -> State {
        match self.tcp(id) {
            Some(t) => {
                let (u, r) = t.spec_take(hdr.flags, hdr.seq, len as int, n as int);
                let fd = self.flow(id).sock;
                let a = self.with_tcp(id, u);
                let b = if r.deferred {
                    a.count(Counter::AckDeferred)
                } else {
                    a
                };
                let c = if r.shutdown {
                    b.op(Op::ShutdownWrite { fd })
                } else {
                    b
                };
                if r.ack {
                    c.count(Counter::TcpCtrl).ask_queued(id, Pending::Acking { id })
                } else {
                    c.tcp_data_to_guest(id, now)
                }
            },
            None => self,
        }
    }

    /// The window for an ack is known: the ack, then data to the guest.
    pub open spec fn acking(self, queued: Option<i32>, id: usize, now: Instant) -> State {
        match self.tcp(id) {
            Some(t) => self.send_control(
                id,
                proto::TCP_ACK,
                t.spec_window(queued),
            ).tcp_data_to_guest(id, now),
            None => self,
        }
    }

    /// Data moved towards the guest as far as its window allows: first the
    /// ring is topped up from the host socket.
    pub open spec fn tcp_data_to_guest(self, id: usize, now: Instant) -> State {
        match self.tcp(id) {
            Some(t) => match t.spec_push() {
                Push::Skip => self,
                Push::WindowFull => self.count(Counter::WindowFull),
                Push::Fill => match t.spec_space() {
                    Some(sp) => self.wait_for(
                        Pending::Filling { id },
                        Request::RecvTcp {
                            fd: self.flow(id).sock,
                            buf: self.flow(id).buf,
                            start: (buf::HEADROOM + sp.wpos) as usize,
                            end: (buf::HEADROOM + sp.wpos + sp.first) as usize,
                            start2: buf::HEADROOM,
                            end2: (buf::HEADROOM + sp.second) as usize,
                        },
                    ),
                    None => self.tcp_next(id, false),
                },
            },
            None => self,
        }
    }

    /// The host socket was read into the ring.
    pub open spec fn tcp_filled(self, read: TcpRead, id: usize) -> State {
        match self.tcp(id) {
            Some(t) => match read {
                TcpRead::Again => self.count(Counter::SockRecv { empty: true }).tcp_next(id, true),
                TcpRead::Failed => self.tcp_reset(id),
                TcpRead::Data(n) => {
                    let s = if n > 0 {
                        self.count(Counter::SockRecv { empty: false })
                    } else {
                        self
                    };
                    s.with_tcp(id, t.filled(n as int)).tcp_next(id, 0 < n < t.free())
                },
            },
            None => self,
        }
    }

    /// The ring is topped up: send what there is, or forward the host's
    /// FIN, or wait for host data.
    pub open spec fn tcp_next(self, id: usize, drained: bool) -> State {
        match self.tcp(id) {
            Some(t) => match t.spec_next(drained) {
                Next::Fin => self.count(Counter::TcpCtrl).ask_queued(id, Pending::Finning { id }),
                Next::Arm => self.arm_poll(id, POLL_RECV),
                Next::Rest => self,
                Next::Send => {
                    let s = if t.unsent() > t.budget() {
                        self.count(Counter::BudgetShort)
                    } else {
                        self
                    };
                    s.ask_queued(id, Pending::Bursting { id, drained })
                },
            },
            None => self,
        }
    }

    /// The window for a FIN is known.
    pub open spec fn finning(self, queued: Option<i32>, id: usize) -> State {
        match self.tcp(id) {
            Some(t) => self.send_control(
                id,
                proto::TCP_FIN | proto::TCP_ACK,
                t.spec_window(queued),
            ).with_tcp(id, Tcp { host_fin: FinState::Sent, ..t }),
            None => self,
        }
    }

    /// The frames of a burst from `off` on, written to the tap.
    pub open spec fn send_burst(self, id: usize, t: Tcp, b: Burst, window: u16, off: int) -> State
        decreases b.send_len - off,
    {
        let len = if b.chunk <= b.send_len - off {
            b.chunk as int
        } else {
            b.send_len - off
        };
        if off >= b.send_len || len <= 0 {
            self
        } else {
            let p = t.spec_piece(b, off);
            self.send_segment(
                id,
                TcpSegment {
                    seq: p.seq,
                    ack: t.seq_from_guest,
                    flags: proto::TCP_ACK,
                    window,
                    options: TcpOptions::Empty,
                    gso_size: if b.gso {
                        Some(t.guest_mss)
                    } else {
                        None
                    },
                },
                (buf::HEADROOM + p.pos) as usize,
                (buf::HEADROOM + p.pos + p.first) as usize,
                buf::HEADROOM,
                (buf::HEADROOM + p.second) as usize,
            ).send_burst(id, t, b, window, off + len)
        }
    }

    /// The window for a burst is known. The poll is only armed again when
    /// the socket was drained and everything is out; otherwise guest acks
    /// free buffer space and pull in the rest as they arrive.
    pub open spec fn bursting(
        self,
        queued: Option<i32>,
        id: usize,
        drained: bool,
        now: Instant,
    ) -> State {
        match self.tcp(id) {
            Some(t) => {
                let b = t.spec_burst(self.offloads.spec_tso());
                let s = self.send_burst(id, t, b, t.spec_window(queued), 0).with_tcp(
                    id,
                    t.sent(b.send_len as int, now),
                );
                if drained && !b.short && !t.poll_armed {
                    s.arm_poll(id, POLL_RECV)
                } else {
                    s
                }
            },
            None => self,
        }
    }

    /// A poll on a TCP flow's host socket completed.
    pub open spec fn tcp_socket_ready(self, id: usize, events: u32, now: Instant) -> State {
        if !self.holds(id) {
            self
        } else {
            let s = self.touched(id, now);
            match s.tcp(id) {
                Some(t) => s.with_tcp(id, Tcp { poll_armed: false, ..t }).wait_for(
                    Pending::Checking { id, events },
                    Request::SockError { fd: self.flow(id).sock },
                ),
                None => s,
            }
        }
    }

    /// The polled socket's error is known: a failed connect or connection
    /// resets the flow, a finished connect sends the SYN-ACK, and on an
    /// established connection data moves.
    pub open spec fn tcp_checked(self, err: i32, id: usize, events: u32, now: Instant) -> State {
        match self.tcp(id) {
            Some(t) => match t.state {
                TcpState::Connecting => if events & (POLL_ERR | POLL_HUP) != 0 || err != 0 {
                    self.tcp_reset(id)
                } else {
                    self.with_tcp(
                        id,
                        Tcp { state: TcpState::Established, ..t },
                    ).send_syn_ack(id).arm_poll(id, POLL_RECV)
                },
                TcpState::Established => if events & POLL_ERR != 0 || err != 0 {
                    self.tcp_reset(id)
                } else {
                    State { after: After::Ready(id), ..self }.tcp_data_to_guest(id, now)
                },
            },
            None => self,
        }
    }

    // The loop.

    /// A frame of `len` bytes from the tap. Anything not sourced from the
    /// configured guest addresses is ignored.
    pub open spec fn handle_tap_frame(self, len: usize, now: Instant) -> State {
        let s = self.count(Counter::TapIn(len));
        match GuestFrame::spec_parse(self.tap().subrange(0, len as int)) {
            Some(g) => if g.src_ip != IpAddr::V4(self.cfg.guest4) && g.src_ip != IpAddr::V6(
                self.cfg.guest6,
            ) {
                s
            } else {
                let u = State { guest_mac: g.src_mac, ..s };
                if g.proto == proto::IPPROTO_UDP {
                    u.handle_udp(g, now)
                } else if g.proto == proto::IPPROTO_TCP {
                    u.handle_tcp(g, now)
                } else if g.proto == proto::IPPROTO_ICMP || g.proto == proto::IPPROTO_ICMPV6 {
                    u.handle_echo(g, now)
                } else {
                    u
                }
            },
            None => s,
        }
    }

    /// In-flight data of flow `id` declared lost, then sent again.
    pub open spec fn retransmit(self, id: usize, now: Instant) -> State {
        match self.tcp(id) {
            Some(t) => self.with_tcp(id, t.rewound(now)).count(
                Counter::RtoRetransmit,
            ).tcp_data_to_guest(id, now),
            None => self,
        }
    }

    /// The stalled flows the timer found, to be gone through one by one.
    pub open spec fn with_due(self, now: Instant) -> State {
        if now < RTO {
            State { due: Seq::empty(), ..self }
        } else {
            let cutoff = (now - RTO) as u64;
            State {
                due: flow::ids_where(
                    self.flows.slots,
                    self.flows.slots.len(),
                    |f: Flow| flow::is_stalled(f, cutoff),
                ),
                ..self
            }
        }
    }

    /// No answer is awaited.
    pub open spec fn is_idle(self) -> bool {
        self.pending is Idle
    }

    /// Retransmission for the stalled flows in turn, up to the first that
    /// needs an answer; then expiry and the next timer.
    pub open spec fn run_timer(self, now: Instant) -> State
        decreases self.due.len(),
    {
        if self.due.len() == 0 {
            State {
                after: After::Nothing,
                ask: Request::Wait,
                ..self.expire_flows(now).op(Op::ArmTimer)
            }
        } else {
            let rest = self.due.skip(1);
            let s = State { due: rest, ..State { due: rest, ..self }.retransmit(self.due[0], now) };
            if s.is_idle() {
                s.run_timer(now)
            } else {
                s
            }
        }
    }

    /// What is left to do for the completion, unless an answer is awaited.
    pub open spec fn proceed(self, now: Instant) -> State {
        if !self.is_idle() {
            self
        } else {
            match self.after {
                After::Timer => self.run_timer(now),
                After::Nothing => State { ask: Request::Wait, ..self },
                After::Tap => State {
                    after: After::Nothing,
                    ask: Request::Wait,
                    ..self.op(Op::ArmTapRead { buf: self.tap_buf })
                },
                After::TapTcp(id) => State {
                    after: After::Nothing,
                    ask: Request::Wait,
                    ..self.tcp_maybe_close(id).op(Op::ArmTapRead { buf: self.tap_buf })
                },
                After::Ready(id) => State {
                    after: After::Nothing,
                    ask: Request::Wait,
                    ..self.tcp_maybe_close(id)
                },
                After::Recv(id) => State {
                    after: After::Nothing,
                    ask: Request::Wait,
                    ..self.submit_flow_recv(id)
                },
            }
        }
    }

    /// A step begins: no actions yet.
    pub open spec fn begun(self) -> State {
        State { ops: Seq::empty(), hdrs: Seq::empty(), ask: Request::Wait, ..self }
    }

    /// The operation of flow `id` completed with `res`.
    pub open spec fn flow_completed(self, id: usize, res: i32, now: Instant) -> State {
        if !self.holds(id) {
            self
        } else {
            let f = self.flow(id);
            if f.closing || res == -ECANCELED {
                self.free_flow(id)
            } else if f.kind == FlowKind::Tcp {
                if res >= 0 {
                    self.tcp_socket_ready(id, res as u32, now)
                } else {
                    self.tcp_reset(id)
                }
            } else {
                let s = State { after: After::Recv(id), ..self };
                if res >= 0 {
                    if f.kind == FlowKind::Udp {
                        s.udp_to_guest(id, res as usize, now)
                    } else {
                        s.reply_to_guest(id, res as usize, None, now)
                    }
                } else if f.kind == FlowKind::Udp {
                    s.udp_error_to_guest(id, (-res) as i32, now)
                } else {
                    s
                }
            }
        }
    }

    /// An operation completed: `ud` says which, `res` how.
    pub open spec fn complete(self, ud: u64, res: i32, now: Instant) -> State {
        let s = State { after: After::Nothing, ..self.begun() };
        if ud == TAP_UD {
            if res == 0 {
                State { ask: Request::Stop, ..s }
            } else if res < 0 {
                State { ask: Request::Fail((-res) as i32), ..s }
            } else {
                State { after: After::Tap, ..s }.handle_tap_frame(res as usize, now).proceed(now)
            }
        } else if ud == STOP_UD {
            State { ask: Request::Stop, ..s }
        } else if ud == TIMER_UD {
            State { after: After::Timer, ..s.with_due(now) }.proceed(now)
        } else if ud == CANCEL_UD || ud > usize::MAX {
            s
        } else {
            s.flow_completed(ud as usize, res, now).proceed(now)
        }
    }

    /// The answer to what was asked is there.
    pub open spec fn answered(self, reply: Reply, now: Instant) -> State {
        let s = State { pending: Pending::Idle, ..self.begun() };
        match (self.pending, reply) {
            (Pending::NewFlow { key, kind, l4, start, end }, Reply::Policy(ok)) => s.allowed(
                ok,
                key,
                kind,
                l4,
                start,
                end,
            ),
            (Pending::Resolving { key, start, end }, Reply::Resolver(to)) => s.resolved(
                to,
                key,
                start,
                end,
            ),
            (Pending::Opening { key, kind, start, end }, Reply::Opened(fd)) => s.opened(
                fd,
                key,
                kind,
                start,
                end,
                now,
            ),
            (Pending::Arming { id, start, end }, Reply::Armed(ok)) => s.armed(
                ok,
                id,
                start,
                end,
                now,
            ),
            (Pending::NewTcp { key, syn, l4 }, Reply::Policy(ok)) => s.allowed_tcp(
                ok,
                key,
                syn,
                l4,
            ),
            (Pending::OpeningTcp { key, syn }, Reply::OpenedTcp(sock)) => s.opened_tcp(
                sock,
                key,
                syn,
                now,
            ),
            (Pending::Sending { id, hdr, start, end }, Reply::Sent(n)) => s.tcp_sent(
                n,
                id,
                hdr,
                start,
                end,
                now,
            ),
            (Pending::Acking { id }, Reply::Queued(q)) => s.acking(q, id, now),
            (Pending::Filling { id }, Reply::Read(r)) => s.tcp_filled(r, id),
            (Pending::Finning { id }, Reply::Queued(q)) => s.finning(q, id),
            (Pending::Bursting { id, drained }, Reply::Queued(q)) => s.bursting(
                q,
                id,
                drained,
                now,
            ),
            (Pending::Checking { id, events }, Reply::SockError(e)) => s.tcp_checked(
                e,
                id,
                events,
                now,
            ),
            (Pending::Draining { id, seg, total }, Reply::Datagram(got)) => s.drained(
                got,
                id,
                seg,
                total,
                now,
            ),
            (Pending::Flushing { id, total, n }, Reply::Flushed) => s.flushed(id, total, n),
            _ => s,
        }
    }

    /// The answer to what was asked is there: go on, and finish the
    /// completion if nothing more needs an answer.
    pub open spec fn resume(self, reply: Reply, now: Instant) -> State {
        self.answered(reply, now).proceed(now)
    }

    /// `reply` answers what was asked: it is of the kind that was asked
    /// for and claims no more bytes than it was given room for.
    pub open spec fn spec_accepts(self, reply: Reply) -> bool {
        match (self.pending, reply) {
            (Pending::NewFlow { .. }, Reply::Policy(_)) => true,
            (Pending::Resolving { .. }, Reply::Resolver(_)) => true,
            (Pending::Opening { .. }, Reply::Opened(_)) => true,
            (Pending::Arming { .. }, Reply::Armed(_)) => true,
            (Pending::NewTcp { .. }, Reply::Policy(_)) => true,
            (Pending::OpeningTcp { .. }, Reply::OpenedTcp(_)) => true,
            (Pending::Sending { start, end, .. }, Reply::Sent(n)) => n <= end - start,
            (Pending::Acking { .. }, Reply::Queued(_)) => true,
            (Pending::Filling { id }, Reply::Read(r)) => match (self.tcp(id), r) {
                (Some(t), TcpRead::Data(n)) => n <= t.free(),
                _ => true,
            },
            (Pending::Finning { .. }, Reply::Queued(_)) => true,
            (Pending::Bursting { .. }, Reply::Queued(_)) => true,
            (Pending::Checking { .. }, Reply::SockError(_)) => true,
            (Pending::Draining { total, .. }, Reply::Datagram(got)) => match got {
                Some(n) => n <= buf::FRAME - total,
                None => true,
            },
            (Pending::Flushing { .. }, Reply::Flushed) => true,
            _ => false,
        }
    }

    /// A completion that can come: no answer is awaited, and a read or
    /// receive claims no more bytes than it was given room for.
    pub open spec fn spec_ready(self, ud: u64, res: i32) -> bool {
        &&& self.is_idle()
        &&& res > i32::MIN
        &&& ud == TAP_UD ==> res <= buf::BUF_SIZE
        &&& ud <= usize::MAX && self.holds(ud as usize) && self.flow(ud as usize).kind
            != FlowKind::Tcp ==> res <= buf::FRAME
    }
}

impl State {
    /// A new datapath: one buffer is the tap's, the rest are free.
    pub open spec fn initial(cfg: Config, offloads: Offloads) -> State {
        let n = cfg.buffers as nat;
        State {
            pool: PoolView {
                bufs: Seq::new(n, |i: int| Seq::new(buf::BUF_SIZE as nat, |j: int| 0u8)),
                free: Seq::new((n - 1) as nat, |i: int| i as u32),
            },
            flows: TableView { slots: Seq::empty(), free: Seq::empty(), index: Map::empty() },
            offloads,
            cfg,
            guest_mac: [0, 0, 0, 0, 0, 0],
            tap_buf: (n - 1) as u32,
            due: Seq::empty(),
            pending: Pending::Idle,
            after: After::Nothing,
            ask: Request::Wait,
            ops: Seq::empty(),
            hdrs: Seq::empty(),
        }
    }
}

/// A retransmission leaves the list of stalled flows alone.
pub proof fn lemma_retransmit_frame(s: State, id: usize, now: Instant)
    ensures
        s.retransmit(id, now).due == s.due,
{
}

} // verus!
