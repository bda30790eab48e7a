//! TCP streams through the event loop: how a connection comes up, carries
//! data both ways and goes down.

use vstd::prelude::*;

use crate::addr::IpAddr;
use crate::buf;
use crate::flow;
use crate::flow::{Fd, Flow, FlowKey, FlowKind, Instant};
use crate::frame;
use crate::frame::{GuestFrame, TcpOptions, TcpSegment};
use crate::proto;
use crate::proto::tcp as wire_tcp;
use crate::proto::tcp::TcpHdr;
use crate::tap::VnetHdr;
use crate::tcp;
use crate::tcp::{Burst, FinState, Tcp, TcpState};
use crate::uring::laws;
use crate::uring::paths;
use crate::uring::replies;
use crate::uring::state::{
    After, Counter, Op, Pending, Reply, Request, State, TcpRead, FLOW_EXPIRY, TAP_UD,
};
use crate::FlowDst;

verus! {

/// What is in the frame of a segment sent to the guest.
pub struct Sent {
    pub seq: int,
    pub ack: u32,
    pub flags: u8,
    pub window: u16,
    pub mss: Option<u16>,
    pub wscale: Option<u8>,
    pub gso: Option<u16>,
}

/// The frame `f` brings the guest a segment from where its flow `key` goes,
/// to the port it sends from, with the fields of `h` and with `data`. Its
/// checksum holds or is left to the device.
#[verifier::opaque]
pub open spec fn brings_segment(s: State, f: Seq<u8>, key: FlowKey, h: Sent, data: Seq<u8>) -> bool {
    let l4 = replies::message_in(f);
    let v = VnetHdr::spec_parse(f.take(10));
    &&& replies::to_guest(s, f, key.dst.ip, 6)
    &&& TcpHdr::spec_parse(l4) matches Some(t) && {
        &&& t.src_port == key.dst.port && t.dst_port == key.guest_port
        &&& t.seq as int == h.seq % 0x1_0000_0000 && t.ack == h.ack
        &&& t.flags == h.flags && t.window == h.window
        &&& t.mss == h.mss && t.wscale == h.wscale
        &&& l4.skip(t.header_len as int) == data
        &&& v.csum_start == l4_at(key.dst.ip) - 10 && v.csum_offset == 16
        &&& v.hdr_len == l4_at(key.dst.ip) - 10 + t.header_len
    }
    &&& v.gso_size == (match h.gso {
        Some(g) => g,
        None => 0u16,
    })
    &&& v.gso_type == (if h.gso is None {
        0u8
    } else if key.dst.ip is V4 {
        1u8
    } else {
        4u8
    })
    &&& s.offloads.spec_csum() ==> v.flags == 1
    &&& !s.offloads.spec_csum() ==> v.flags == 0 && proto::spec_checksum(
        l4,
        s.link().pseudo(key.dst.ip, 6, l4.len() as u16),
    ) == 0
}

/// Where the L4 message of a frame from `src` starts.
pub open spec fn l4_at(src: IpAddr) -> int {
    if src is V4 {
        44
    } else {
        64
    }
}

/// The fields of a segment as they are sent.
spec fn fields(seg: TcpSegment) -> Sent {
    Sent {
        seq: seg.seq as int,
        ack: seg.ack,
        flags: seg.flags,
        window: seg.window,
        mss: if seg.options == TcpOptions::Empty {
            None
        } else {
            Some(65_495)
        },
        wscale: if seg.options == TcpOptions::MssAndScale {
            Some(7)
        } else {
            None
        },
        gso: seg.gso_size,
    }
}

/// A segment's frame brings the segment.
proof fn lemma_brings_segment(s: State, key: FlowKey, seg: TcpSegment, data: Seq<u8>)
    requires
        frame::fits_packet(key.dst.ip, 20 + seg.options.bytes().len() + data.len()),
    ensures
        brings_segment(
            s,
            s.link().segment_hdr(key, seg, s.offloads.spec_csum(), data) + data,
            key,
            fields(seg),
            data,
        ),
{
    reveal(brings_segment);
    let link = s.link();
    let csum = s.offloads.spec_csum();
    let f = link.segment_hdr(key, seg, csum, data) + data;
    let g = GuestFrame::spec_parse(f)->0;
    let l4 = replies::message_in(f);
    let t = TcpHdr::spec_parse(l4)->0;
    frame::law_segment_roundtrip(link, key, seg, csum, data);
    frame::law_segment_offload(link, key, seg, csum, data);
    frame::law_own_options();
    lemma_segment_message(s, key, seg, data);
}

/// The message in a segment's frame is all that is behind the IP header, and
/// its options are the segment's.
proof fn lemma_segment_message(s: State, key: FlowKey, seg: TcpSegment, data: Seq<u8>)
    requires
        frame::fits_packet(key.dst.ip, 20 + seg.options.bytes().len() + data.len()),
    ensures
        ({
            let o = seg.options.bytes();
            let f = s.link().segment_hdr(key, seg, s.offloads.spec_csum(), data) + data;
            let l4 = replies::message_in(f);
            let t = TcpHdr::spec_parse(l4)->0;
            &&& l4 == f.skip(l4_at(key.dst.ip))
            &&& l4.len() == 20 + o.len() + data.len()
            &&& t.header_len == 20 + o.len()
            &&& (t.mss, t.wscale) == wire_tcp::announced(o)
        }),
{
    let link = s.link();
    let csum = s.offloads.spec_csum();
    let o = seg.options.bytes();
    let hdr = link.tcp_hdr(key, seg, csum, data);
    let f = link.segment_hdr(key, seg, csum, data) + data;
    let l4 = replies::message_in(f);
    frame::law_own_options();
    frame::lemma_segment_hdr_len(link, key, seg, csum, data);
    frame::law_segment_message(link, key, seg, csum, data);
    let n = l4_at(key.dst.ip);
    assert(l4 =~= f.skip(n));
    let l4_len = frame::Link::segment_l4_len(seg, data.len());
    let pseudo = link.pseudo(key.dst.ip, proto::IPPROTO_TCP, l4_len) + (if csum {
        0nat
    } else {
        proto::fold(proto::word_sum(data)) as nat
    });
    assert(hdr == wire_tcp::tcp_bytes(
        key.dst.port,
        key.guest_port,
        seg.seq,
        seg.ack,
        seg.flags,
        seg.window,
        o,
        pseudo,
        csum,
    )) by {
        reveal(frame::Link::tcp_hdr);
    }
    wire_tcp::law_tcp_roundtrip(
        key.dst.port,
        key.guest_port,
        seg.seq,
        seg.ack,
        seg.flags,
        seg.window,
        o,
        pseudo,
        csum,
        data,
    );
}

/// From `s` to `t` actions and headers are only added, and the buffers stay.
pub open spec fn adds(s: State, t: State) -> bool {
    &&& s.ops.len() <= t.ops.len() && s.hdrs.len() <= t.hdrs.len()
    &&& forall|i: int| 0 <= i < s.ops.len() ==> #[trigger] t.ops[i] == s.ops[i]
    &&& forall|i: int| 0 <= i < s.hdrs.len() ==> #[trigger] t.hdrs[i] == s.hdrs[i]
    &&& t.pool.bufs == s.pool.bufs
    &&& t.cfg == s.cfg && t.guest_mac == s.guest_mac && t.offloads == s.offloads
}

/// The headers of action `o` are built in `s`.
spec fn built(s: State, o: Op) -> bool {
    o matches Op::WriteSegment { hdr_start, hdr_end, .. } ==> hdr_start <= hdr_end
        <= s.hdrs.len()
}

/// What a segment's action writes stays as it is.
proof fn lemma_adds(s: State, t: State, k: int)
    requires
        adds(s, t),
        0 <= k < s.ops.len(),
        built(s, s.ops[k]),
    ensures
        laws::segment_bytes(t, t.ops[k]) == laws::segment_bytes(s, s.ops[k]),
        t.ops[k] == s.ops[k],
{
    if let Op::WriteSegment { hdr_start, hdr_end, .. } = s.ops[k] {
        assert(t.hdrs.subrange(hdr_start as int, hdr_end as int) =~= s.hdrs.subrange(
            hdr_start as int,
            hdr_end as int,
        ));
    }
}

/// A segment is written.
proof fn lemma_segment_written(
    s: State,
    id: usize,
    seg: TcpSegment,
    start: usize,
    end: usize,
    start2: usize,
    end2: usize,
)
    requires
        replies::has_buffer(s, id),
        start <= end <= buf::BUF_SIZE,
        start2 <= end2 <= buf::BUF_SIZE,
        frame::fits_packet(
            s.flow(id).key.dst.ip,
            (20 + seg.options.bytes().len() + (end - start) + (end2 - start2)) as nat,
        ),
        s.hdrs.len() + 256 <= usize::MAX,
    ensures
        ({
            let t = s.send_segment(id, seg, start, end, start2, end2);
            let b = s.pool.bufs[s.flow(id).buf as int];
            let n = s.ops.len() as int;
            &&& adds(s, t)
            &&& t.ops.len() == n + 2 && t.ops[n] is Count && t.ops[n + 1] is WriteSegment
            &&& built(t, t.ops[n + 1])
            &&& t.hdrs.len() <= s.hdrs.len() + 256
            &&& brings_segment(
                s,
                laws::segment_bytes(t, t.ops[n + 1]),
                s.flow(id).key,
                fields(seg),
                b.subrange(start as int, end as int) + b.subrange(start2 as int, end2 as int),
            )
            &&& t.flows == s.flows && t.pool == s.pool && t.pending == s.pending
            &&& t.after == s.after && t.ask == s.ask
        }),
{
    let f = s.flow(id);
    let b = s.pool.bufs[f.buf as int];
    let data = b.subrange(start as int, end as int) + b.subrange(start2 as int, end2 as int);
    let hdr = s.link().segment_hdr(f.key, seg, s.offloads.spec_csum(), data);
    frame::lemma_segment_hdr_len(s.link(), f.key, seg, s.offloads.spec_csum(), data);
    lemma_brings_segment(s, f.key, seg, data);
    let t = s.send_segment(id, seg, start, end, start2, end2);
    let n = s.ops.len() as int;
    assert(t.hdrs.subrange(s.hdrs.len() as int, (s.hdrs.len() + hdr.len()) as int) =~= hdr);
    assert(laws::segment_bytes(t, t.ops[n + 1]) =~= hdr + data);
}

/// A segment without payload is written.
proof fn lemma_control_written(s: State, id: usize, seg: TcpSegment)
    requires
        replies::has_buffer(s, id),
        s.hdrs.len() + 256 <= usize::MAX,
    ensures
        ({
            let h = buf::HEADROOM;
            let t = s.send_segment(id, seg, h, h, h, h);
            let n = s.ops.len() as int;
            &&& adds(s, t)
            &&& t.ops.len() == n + 2 && t.ops[n] is Count && t.ops[n + 1] is WriteSegment
            &&& built(t, t.ops[n + 1])
            &&& brings_segment(
                s,
                laws::segment_bytes(t, t.ops[n + 1]),
                s.flow(id).key,
                fields(seg),
                Seq::empty(),
            )
            &&& t.flows == s.flows && t.pool == s.pool && t.pending == s.pending
            &&& t.after == s.after && t.ask == s.ask
        }),
{
    let h = buf::HEADROOM;
    let b = s.pool.bufs[s.flow(id).buf as int];
    frame::law_own_options();
    lemma_segment_written(s, id, seg, h, h, h, h);
    assert(b.subrange(h as int, h as int) + b.subrange(h as int, h as int) =~= Seq::<u8>::empty());
}

/// Closing a flow only adds actions.
proof fn lemma_close_adds(s: State, id: usize)
    ensures
        adds(s, s.remove_flow(id)),
        adds(s, s.tcp_maybe_close(id)),
{
}

/// Moving data towards the guest only adds actions.
proof fn lemma_data_adds(s: State, id: usize, now: Instant)
    ensures
        adds(s, s.tcp_data_to_guest(id, now)),
        s.tcp_data_to_guest(id, now).after == s.after,
{
}

/// Two additions are one.
proof fn lemma_adds_both(s: State, t: State, u: State)
    requires
        adds(s, t),
        adds(t, u),
    ensures
        adds(s, u),
{
    assert forall|i: int| 0 <= i < s.ops.len() implies #[trigger] u.ops[i] == s.ops[i] by {
        assert(t.ops[i] == s.ops[i]);
    }
    assert forall|i: int| 0 <= i < s.hdrs.len() implies #[trigger] u.hdrs[i] == s.hdrs[i] by {
        assert(t.hdrs[i] == s.hdrs[i]);
    }
}

/// Closing flows only adds actions.
proof fn lemma_close_all_adds(s: State, ids: Seq<usize>, n: nat)
    ensures
        adds(s, s.remove_flows(ids, n)),
        s.remove_flows(ids, n).pending == s.pending,
    decreases n,
{
    if n > 0 {
        let m = (n - 1) as nat;
        let t = s.remove_flows(ids, m);
        lemma_close_all_adds(s, ids, m);
        lemma_close_adds(t, ids[n - 1]);
        lemma_adds_both(s, t, t.remove_flow(ids[n - 1]));
    }
}

/// Retransmitting only adds actions.
proof fn lemma_retransmit_adds(s: State, id: usize, now: Instant)
    ensures
        adds(s, s.retransmit(id, now)),
{
    if let Some(t) = s.tcp(id) {
        let a = s.with_tcp(id, t.rewound(now)).count(Counter::RtoRetransmit);
        assert(adds(s, a));
        lemma_data_adds(a, id, now);
        lemma_adds_both(s, a, a.tcp_data_to_guest(id, now));
    }
}

/// The timer only adds actions.
proof fn lemma_timer_adds(s: State, now: Instant)
    ensures
        adds(s, s.run_timer(now)),
    decreases s.due.len(),
{
    if s.due.len() == 0 {
        let a = s.expire_flows(now);
        if now >= FLOW_EXPIRY {
            let cutoff = (now - FLOW_EXPIRY) as u64;
            let ids = flow::ids_where(
                s.flows.slots,
                s.flows.slots.len(),
                |f: Flow| flow::is_expired(f, cutoff),
            );
            lemma_close_all_adds(s, ids, ids.len());
        }
        assert(adds(s, a));
        assert(adds(a, s.run_timer(now)));
        lemma_adds_both(s, a, s.run_timer(now));
    } else {
        let rest = s.due.skip(1);
        let a = State { due: rest, ..s };
        let r = a.retransmit(s.due[0], now);
        lemma_retransmit_adds(a, s.due[0], now);
        let b = State { due: rest, ..r };
        assert(adds(s, b));
        if b.is_idle() {
            lemma_timer_adds(b, now);
            lemma_adds_both(s, b, b.run_timer(now));
        }
    }
}

/// Finishing a completion only adds actions.
proof fn lemma_proceed_adds(s: State, now: Instant)
    ensures
        adds(s, s.proceed(now)),
{
    if s.is_idle() {
        match s.after {
            After::TapTcp(id) => {
                lemma_close_adds(s, id);
            },
            After::Ready(id) => {
                lemma_close_adds(s, id);
            },
            After::Timer => {
                lemma_timer_adds(s, now);
            },
            _ => {},
        }
    }
}

/// The sequence number of the next byte towards the guest.
pub open spec fn next_seq(c: Tcp) -> int {
    c.seq_una + c.sent_unacked
}

/// The next segment towards the guest starts where what was sent ends.
proof fn lemma_next_seq(c: Tcp)
    ensures
        c.spec_next_seq() as int == next_seq(c) % 0x1_0000_0000,
{
    reveal(tcp::seq_add);
}

/// An ack that is due goes to the guest: it acknowledges everything that was
/// taken of the guest's stream, offers the room that the host socket has,
/// and carries no data.
pub proof fn law_ack_is_sent(s: State, id: usize, c: Tcp, queued: Option<i32>, now: Instant)
    requires
        s.wf(),
        s.pending == (Pending::Acking { id }),
        s.after == After::TapTcp(id),
        s.tcp(id) == Some(c),
    ensures
        ({
            let t = s.resume(Reply::Queued(queued), now);
            &&& t.ops.len() >= 2 && t.ops[1] is WriteSegment
            &&& brings_segment(
                s,
                laws::segment_bytes(t, t.ops[1]),
                s.flow(id).key,
                Sent {
                    seq: next_seq(c),
                    ack: c.seq_from_guest,
                    flags: 0x10,
                    window: c.spec_window(queued),
                    mss: None,
                    wscale: None,
                    gso: None,
                },
                Seq::empty(),
            )
        }),
{
    reveal(brings_segment);
    replies::lemma_has_buffer(s, id);
    lemma_next_seq(c);
    let a = State { pending: Pending::Idle, ..s.begun() };
    let seg = TcpSegment {
        seq: c.spec_next_seq(),
        ack: c.seq_from_guest,
        flags: 0x10,
        window: c.spec_window(queued),
        options: TcpOptions::Empty,
        gso_size: None,
    };
    let h = buf::HEADROOM;
    lemma_control_written(a, id, seg);
    let b = a.send_segment(id, seg, h, h, h, h);
    let d = b.tcp_data_to_guest(id, now);
    lemma_data_adds(b, id, now);
    lemma_proceed_adds(d, now);
    lemma_adds_both(b, d, d.proceed(now));
    assert(s.resume(Reply::Queued(queued), now) == d.proceed(now));
    lemma_adds(b, d.proceed(now), 1);
}

/// The host's FIN goes to the guest behind everything that was sent, once,
/// and is remembered as sent.
pub proof fn law_fin_is_sent(s: State, id: usize, c: Tcp, queued: Option<i32>, now: Instant)
    requires
        s.wf(),
        s.pending == (Pending::Finning { id }),
        !(s.after is Timer),
        s.tcp(id) == Some(c),
    ensures
        ({
            let t = s.resume(Reply::Queued(queued), now);
            &&& t.ops.len() >= 2 && t.ops[1] is WriteSegment
            &&& brings_segment(
                s,
                laws::segment_bytes(t, t.ops[1]),
                s.flow(id).key,
                Sent {
                    seq: next_seq(c),
                    ack: c.seq_from_guest,
                    flags: 0x11,
                    window: c.spec_window(queued),
                    mss: None,
                    wscale: None,
                    gso: None,
                },
                Seq::empty(),
            )
            &&& s.after == After::TapTcp(id) || s.after == After::Ready(id) ==> t.tcp(id) == Some(
                Tcp { host_fin: FinState::Sent, ..c },
            )
        }),
{
    reveal(brings_segment);
    replies::lemma_has_buffer(s, id);
    lemma_next_seq(c);
    assert(0x01u8 | 0x10u8 == 0x11u8) by (bit_vector);
    let a = State { pending: Pending::Idle, ..s.begun() };
    let seg = TcpSegment {
        seq: c.spec_next_seq(),
        ack: c.seq_from_guest,
        flags: 0x11,
        window: c.spec_window(queued),
        options: TcpOptions::Empty,
        gso_size: None,
    };
    let h = buf::HEADROOM;
    lemma_control_written(a, id, seg);
    let b = a.send_segment(id, seg, h, h, h, h);
    let d = b.with_tcp(id, Tcp { host_fin: FinState::Sent, ..c });
    assert(adds(b, d));
    lemma_proceed_adds(d, now);
    lemma_adds_both(b, d, d.proceed(now));
    assert(s.resume(Reply::Queued(queued), now) == d.proceed(now));
    lemma_adds(b, d.proceed(now), 1);
}

/// The flow is aborted: an RST goes to the guest at the current position,
/// and the flow is gone or, where its poll is pending, closing.
pub open spec fn aborted(s: State, t: State, id: usize, c: Tcp) -> bool {
    &&& t.ops.len() >= 3 && t.ops[2] is WriteSegment
    &&& brings_segment(
        s,
        laws::segment_bytes(t, t.ops[2]),
        s.flow(id).key,
        Sent {
            seq: next_seq(c),
            ack: c.seq_from_guest,
            flags: 0x14,
            window: 0,
            mss: None,
            wscale: None,
            gso: None,
        },
        Seq::empty(),
    )
    &&& !t.holds(id) || t.flow(id).closing
    &&& !c.poll_armed ==> t.ops.contains(Op::Close { fd: s.flow(id).sock })
    &&& c.poll_armed ==> t.ops.contains(Op::Cancel { id })
}

proof fn lemma_aborted(s: State, a: State, id: usize, c: Tcp, now: Instant)
    requires
        replies::has_buffer(s, id),
        a.flows.slots.len() == s.flows.slots.len(),
        a.holds(id),
        a.flow(id).key == s.flow(id).key && a.flow(id).sock == s.flow(id).sock,
        a.flow(id).buf == s.flow(id).buf,
        a.pool == s.pool && a.cfg == s.cfg && a.guest_mac == s.guest_mac,
        a.offloads == s.offloads,
        a.tcp(id) == Some(c),
        a.ops.len() == 0 && a.hdrs.len() == 0,
        !(a.after is Timer),
    ensures
        aborted(s, a.tcp_reset(id).proceed(now), id, c),
{
    reveal(brings_segment);
    lemma_next_seq(c);
    assert(0x04u8 | 0x10u8 == 0x14u8) by (bit_vector);
    let d = a.count(Counter::TcpCtrl);
    let seg = TcpSegment {
        seq: c.spec_next_seq(),
        ack: c.seq_from_guest,
        flags: 0x14,
        window: 0,
        options: TcpOptions::Empty,
        gso_size: None,
    };
    let h = buf::HEADROOM;
    lemma_control_written(d, id, seg);
    let b = d.send_segment(id, seg, h, h, h, h);
    assert(a.tcp_reset(id) == b.remove_flow(id));
    let e = b.remove_flow(id);
    lemma_close_adds(b, id);
    lemma_proceed_adds(e, now);
    lemma_adds_both(b, e, e.proceed(now));
    lemma_adds(b, e.proceed(now), 2);
    lemma_proceed_keeps_closed(e, id, now);
    let last = e.ops.len() - 1;
    assert(e.proceed(now).ops[last] == e.ops[last]);
}

/// What is gone or closing stays so.
proof fn lemma_proceed_keeps_closed(s: State, id: usize, now: Instant)
    requires
        !s.holds(id) || s.flow(id).closing,
        !(s.after is Timer),
    ensures
        !s.proceed(now).holds(id) || s.proceed(now).flow(id).closing,
{
}

/// A completed poll on a connection has its socket's error looked up; a poll
/// that failed aborts it.
pub proof fn law_poll_completes(s: State, id: usize, c: Tcp, res: i32, now: Instant)
    requires
        s.wf(),
        s.is_idle(),
        s.tcp(id) == Some(c),
        !s.flow(id).closing,
        res != -125,
    ensures
        ({
            let t = s.complete(id as u64, res, now);
            &&& res >= 0 ==> {
                &&& t.ask == Request::SockError { fd: s.flow(id).sock }
                &&& t.pending == Pending::Checking { id, events: res as u32 }
                &&& t.tcp(id) == Some(Tcp { poll_armed: false, ..c })
                &&& t.flow(id).last_active == now
                &&& t.ops.len() == 0 && t.pool == s.pool && t.after is Nothing
            }
            &&& res < 0 ==> aborted(s, t, id, c)
        }),
{
    replies::lemma_has_buffer(s, id);
    let a = State { after: After::Nothing, ..s.begun() };
    assert(s.flow(id).kind == FlowKind::Tcp) by {
        assert(s.flows.holds(id));
    }
    if res < 0 {
        lemma_aborted(s, a, id, c, now);
    }
}

/// The socket of a connection that comes up can be written: the guest gets
/// the SYN-ACK, with our segment size and, where it offers scaling, our
/// scale; the flow is established and polls for data.
pub proof fn law_connection_comes_up(s: State, id: usize, c: Tcp, events: u32, now: Instant)
    requires
        s.wf(),
        s.pending == (Pending::Checking { id, events }),
        s.after is Nothing,
        s.tcp(id) == Some(c),
        c.state == TcpState::Connecting,
        events & 0x38 == 0,
    ensures
        ({
            let t = s.resume(Reply::SockError(0), now);
            &&& t.ops.len() == 3 && t.ops[0] is Count && t.ops[1] is WriteSegment
            &&& brings_segment(
                s,
                laws::segment_bytes(t, t.ops[1]),
                s.flow(id).key,
                Sent {
                    seq: 0x0001_0000,
                    ack: c.seq_from_guest,
                    flags: 0x12,
                    window: if c.sndbuf <= 65_535 {
                        c.sndbuf as u16
                    } else {
                        65_535
                    },
                    mss: Some(65_495),
                    wscale: if c.guest_wscale is Some {
                        Some(7)
                    } else {
                        None
                    },
                    gso: None,
                },
                Seq::empty(),
            )
            &&& t.ops[2] == Op::ArmPoll { id, fd: s.flow(id).sock, events: 0x2001 }
            &&& t.tcp(id) == Some(
                Tcp {
                    state: TcpState::Established,
                    seq_una: 0x0001_0001,
                    poll_armed: true,
                    ..c
                },
            )
            &&& t.is_idle() && t.ask is Wait
        }),
{
    reveal(brings_segment);
    replies::lemma_has_buffer(s, id);
    assert(0x28u32 | 0x10u32 == 0x38u32) by (bit_vector);
    assert(0x02u8 | 0x10u8 == 0x12u8) by (bit_vector);
    assert(tcp::seq_add(0x0001_0000, 1) == 0x0001_0001) by {
        reveal(tcp::seq_add);
    }
    let a = State { pending: Pending::Idle, ..s.begun() };
    let b = a.with_tcp(id, Tcp { state: TcpState::Established, ..c });
    let seg = TcpSegment {
        seq: 0x0001_0000,
        ack: c.seq_from_guest,
        flags: 0x12,
        window: c.spec_syn_window(),
        options: if c.guest_wscale is Some {
            TcpOptions::MssAndScale
        } else {
            TcpOptions::Mss
        },
        gso_size: None,
    };
    let h = buf::HEADROOM;
    lemma_control_written(b, id, seg);
    let d = b.send_segment(id, seg, h, h, h, h);
    let t = s.resume(Reply::SockError(0), now);
    assert(adds(d, t));
    lemma_adds(d, t, 1);
}

/// A connection whose socket failed is aborted towards the guest: while it
/// comes up also where the socket hung up, and once it is up where the poll
/// says so or the socket has an error.
pub proof fn law_failed_socket_aborts(
    s: State,
    id: usize,
    c: Tcp,
    events: u32,
    err: i32,
    now: Instant,
)
    requires
        s.wf(),
        s.pending == (Pending::Checking { id, events }),
        s.after is Nothing,
        s.tcp(id) == Some(c),
        err != 0 || events & 0x28 != 0 || (c.state == TcpState::Connecting && events & 0x38 != 0),
    ensures
        aborted(s, s.resume(Reply::SockError(err), now), id, c),
{
    replies::lemma_has_buffer(s, id);
    assert(0x28u32 | 0x10u32 == 0x38u32) by (bit_vector);
    assert(events & 0x28 != 0 ==> events & 0x38 != 0) by (bit_vector);
    let a = State { pending: Pending::Idle, ..s.begun() };
    lemma_aborted(s, a, id, c, now);
}

/// A socket that is to be read is read into all of the ring's free space:
/// from behind the buffered bytes to the end of the ring, then from its
/// start.
pub open spec fn reads_into_ring(s: State, t: State, id: usize, c: Tcp) -> bool {
    let at = (c.buf_head + c.buffered) % 262_144;
    let free = 262_144 - c.buffered;
    let first = if free <= 262_144 - at {
        free
    } else {
        262_144 - at
    };
    &&& t.ask == Request::RecvTcp {
        fd: s.flow(id).sock,
        buf: s.flow(id).buf,
        start: (256 + at) as usize,
        end: (256 + at + first) as usize,
        start2: 256,
        end2: (256 + free - first) as usize,
    }
    &&& t.pending == Pending::Filling { id }
}

/// An established connection whose socket has something is read, where the
/// guest's window and the ring have room.
pub proof fn law_ready_socket_is_read(s: State, id: usize, c: Tcp, events: u32, now: Instant)
    requires
        s.wf(),
        s.pending == (Pending::Checking { id, events }),
        s.after is Nothing,
        s.tcp(id) == Some(c),
        c.state == TcpState::Established,
        events & 0x28 == 0,
        c.host_fin == FinState::NotSent,
        !c.host_eof,
        !c.poll_armed,
        c.guest_window > c.sent_unacked,
        c.buffered < 262_144,
    ensures
        ({
            let t = s.resume(Reply::SockError(0), now);
            &&& reads_into_ring(s, t, id, c)
            &&& t.after == After::Ready(id) && t.ops.len() == 0 && t.flows == s.flows
        }),
{
}

/// What was read from the host is sent on to the guest as soon as the room
/// towards the host is known; where the socket had no more, that is kept in
/// mind.
pub proof fn law_read_data_is_sent_on(s: State, id: usize, c: Tcp, n: usize, now: Instant)
    requires
        s.wf(),
        s.pending == (Pending::Filling { id }),
        s.tcp(id) == Some(c),
        0 < n <= 262_144 - c.buffered,
    ensures
        ({
            let t = s.resume(Reply::Read(TcpRead::Data(n)), now);
            &&& t.tcp(id) == Some(Tcp { buffered: (c.buffered + n) as u32, ..c })
            &&& t.ask == Request::Queued { fd: s.flow(id).sock }
            &&& t.pending == Pending::Bursting { id, drained: n < 262_144 - c.buffered }
            &&& t.after == s.after && t.pool == s.pool
        }),
{
    replies::lemma_has_buffer(s, id);
    assert(c.wf()) by {
        assert(s.flows.holds(id));
    }
}

/// The end of the host's stream is forwarded once all of it was sent and
/// acknowledged.
pub proof fn law_end_of_stream(s: State, id: usize, c: Tcp, now: Instant)
    requires
        s.wf(),
        s.pending == (Pending::Filling { id }),
        s.tcp(id) == Some(c),
        c.buffered == 0,
    ensures
        ({
            let t = s.resume(Reply::Read(TcpRead::Data(0)), now);
            &&& t.tcp(id) == Some(Tcp { host_eof: true, ..c })
            &&& t.ask == Request::Queued { fd: s.flow(id).sock }
            &&& t.pending == Pending::Finning { id }
        }),
{
    assert(c.wf()) by {
        assert(s.flows.holds(id));
    }
}

/// A socket that had nothing, with nothing left to send, is polled for data.
pub proof fn law_dry_socket_is_polled(s: State, id: usize, c: Tcp, now: Instant)
    requires
        s.wf(),
        s.pending == (Pending::Filling { id }),
        !(s.after is Timer),
        s.tcp(id) == Some(c),
        c.buffered == c.sent_unacked,
        !c.host_eof,
        !c.poll_armed,
    ensures
        s.resume(Reply::Read(TcpRead::Again), now).ops.contains(
            Op::ArmPoll { id, fd: s.flow(id).sock, events: 0x2001 },
        ),
{
    let a = State { pending: Pending::Idle, ..s.begun() };
    let b = a.count(Counter::SockRecv { empty: true }).tcp_next(id, true);
    assert(b.ops[1] == Op::ArmPoll { id, fd: s.flow(id).sock, events: 0x2001 });
    lemma_proceed_adds(b, now);
    assert(b.proceed(now).ops[1] == b.ops[1]);
}

/// A socket that cannot be read aborts its connection.
pub proof fn law_unreadable_socket_aborts(s: State, id: usize, c: Tcp, now: Instant)
    requires
        s.wf(),
        s.pending == (Pending::Filling { id }),
        !(s.after is Timer),
        s.tcp(id) == Some(c),
    ensures
        aborted(s, s.resume(Reply::Read(TcpRead::Failed), now), id, c),
{
    replies::lemma_has_buffer(s, id);
    let a = State { pending: Pending::Idle, ..s.begun() };
    lemma_aborted(s, a, id, c, now);
}

/// The bytes of `c` that are buffered, in the ring behind the headroom of
/// flow `id`'s buffer.
pub open spec fn buffered(s: State, id: usize, c: Tcp) -> Seq<u8> {
    c.pending(s.pool.bufs[s.flow(id).buf as int].skip(256))
}

/// From action `k` up to action `end` of `t`, `data` leaves for the guest in
/// segments of `chunk` bytes, the last one maybe shorter: each with the
/// sequence number of its first byte, one right behind the other.
pub open spec fn leaves(
    s: State,
    t: State,
    key: FlowKey,
    k: int,
    end: int,
    h: Sent,
    data: Seq<u8>,
    chunk: int,
) -> bool
    decreases data.len(),
{
    let n = if chunk <= data.len() {
        chunk
    } else {
        data.len() as int
    };
    if data.len() == 0 || n <= 0 {
        k == end && data.len() == 0
    } else {
        &&& 0 <= k && k + 1 < t.ops.len()
        &&& t.ops[k] is Count && t.ops[k + 1] is WriteSegment
        &&& brings_segment(s, laws::segment_bytes(t, t.ops[k + 1]), key, h, data.take(n))
        &&& leaves(s, t, key, k + 2, end, Sent { seq: h.seq + n, ..h }, data.skip(n), chunk)
    }
}

/// Length of the segment that starts `off` bytes into a burst.
spec fn piece_len(b: Burst, off: int) -> int {
    if b.chunk <= b.send_len - off {
        b.chunk as int
    } else {
        b.send_len - off
    }
}

/// The state after the segment that starts `off` bytes into a burst.
spec fn after_piece(s: State, id: usize, c: Tcp, b: Burst, window: u16, off: int) -> State {
    let p = c.spec_piece(b, off);
    s.send_segment(
        id,
        TcpSegment {
            seq: p.seq,
            ack: c.seq_from_guest,
            flags: 0x10,
            window,
            options: TcpOptions::Empty,
            gso_size: if b.gso {
                Some(c.guest_mss)
            } else {
                None
            },
        },
        (256 + p.pos) as usize,
        (256 + p.pos + p.first) as usize,
        256,
        (256 + p.second) as usize,
    )
}

/// The fields of the segment that starts `off` bytes into a burst.
spec fn piece_fields(c: Tcp, b: Burst, window: u16, off: int) -> Sent {
    Sent {
        seq: next_seq(c) + off,
        ack: c.seq_from_guest,
        flags: 0x10,
        window,
        mss: None,
        wscale: None,
        gso: if b.gso {
            Some(c.guest_mss)
        } else {
            None
        },
    }
}

/// A burst goes on behind each of its segments.
proof fn lemma_burst_step(s: State, id: usize, c: Tcp, b: Burst, window: u16, off: int)
    ensures
        s.send_burst(id, c, b, window, off) == (if off < b.send_len && piece_len(b, off) > 0 {
            after_piece(s, id, c, b, window, off).send_burst(
                id,
                c,
                b,
                window,
                off + piece_len(b, off),
            )
        } else {
            s
        }),
{
}

/// Where the bytes of the segment stand that starts `off` bytes into a
/// burst, and which bytes they are.
proof fn lemma_piece_bytes(x: Seq<u8>, c: Tcp, tso: bool, off: int)
    requires
        x.len() == buf::BUF_SIZE,
        c.wf(),
        0 <= off < c.spec_burst(tso).send_len,
    ensures
        ({
            let b = c.spec_burst(tso);
            let p = c.spec_piece(b, off);
            let n = piece_len(b, off);
            &&& p.seq as int == (next_seq(c) + off) % 0x1_0000_0000
            &&& p.pos + p.first <= 262_144 && p.second <= p.pos
            &&& p.first + p.second == n && n <= 65_475
            &&& x.subrange(256 + p.pos, 256 + p.pos + p.first) + x.subrange(256, 256 + p.second)
                == c.pending(x.skip(256)).subrange(
                c.sent_unacked + off,
                c.sent_unacked + off + n,
            )
        }),
{
    let b = c.spec_burst(tso);
    let ring = x.skip(256);
    let p = c.spec_piece(b, off);
    tcp::law_piece(c, tso, off, ring);
    assert(p.seq as int == (next_seq(c) + off) % 0x1_0000_0000) by {
        reveal(tcp::seq_add);
    }
    assert(x.subrange(256 + p.pos, 256 + p.pos + p.first) + x.subrange(256, 256 + p.second)
        =~= tcp::piece_bytes(p, ring));
}

/// The frame of a segment, read in a state with the same addresses and
/// offloads, under an equal sequence number.
proof fn lemma_brings_same(s0: State, s: State, f: Seq<u8>, key: FlowKey, h: Sent, k: Sent, d: Seq<u8>)
    requires
        brings_segment(s, f, key, h, d),
        s.cfg == s0.cfg && s.guest_mac == s0.guest_mac && s.offloads == s0.offloads,
        k == (Sent { seq: k.seq, ..h }),
        h.seq % 0x1_0000_0000 == k.seq % 0x1_0000_0000,
    ensures
        brings_segment(s0, f, key, k, d),
{
    reveal(brings_segment);
    assert(s.link() == s0.link());
}

/// One segment of a burst.
proof fn lemma_piece_written(
    s0: State,
    s: State,
    id: usize,
    c: Tcp,
    tso: bool,
    window: u16,
    off: int,
)
    requires
        replies::has_buffer(s, id),
        c.wf(),
        0 <= off < c.spec_burst(tso).send_len,
        s.hdrs.len() + 256 <= u32::MAX,
        s.pool == s0.pool && s.flows == s0.flows && s.cfg == s0.cfg,
        s.guest_mac == s0.guest_mac && s.offloads == s0.offloads,
    ensures
        ({
            let b = c.spec_burst(tso);
            let n = after_piece(s, id, c, b, window, off);
            let k = s.ops.len() as int;
            &&& adds(s, n)
            &&& n.ops.len() == k + 2 && n.ops[k] is Count && n.ops[k + 1] is WriteSegment
            &&& built(n, n.ops[k + 1])
            &&& n.hdrs.len() <= s.hdrs.len() + 256
            &&& brings_segment(
                s0,
                laws::segment_bytes(n, n.ops[k + 1]),
                s0.flow(id).key,
                piece_fields(c, b, window, off),
                buffered(s0, id, c).subrange(
                    c.sent_unacked + off,
                    c.sent_unacked + off + piece_len(b, off),
                ),
            )
            &&& n.flows == s.flows && n.pool == s.pool && n.pending == s.pending
            &&& n.after == s.after && n.ask == s.ask
        }),
{
    let b = c.spec_burst(tso);
    let x = s.pool.bufs[s.flow(id).buf as int];
    let p = c.spec_piece(b, off);
    lemma_piece_bytes(x, c, tso, off);
    let seg = TcpSegment {
        seq: p.seq,
        ack: c.seq_from_guest,
        flags: 0x10,
        window,
        options: TcpOptions::Empty,
        gso_size: if b.gso {
            Some(c.guest_mss)
        } else {
            None
        },
    };
    frame::law_own_options();
    lemma_segment_written(
        s,
        id,
        seg,
        (256 + p.pos) as usize,
        (256 + p.pos + p.first) as usize,
        256,
        (256 + p.second) as usize,
    );
    let n = after_piece(s, id, c, b, window, off);
    let k = s.ops.len() as int;
    lemma_brings_same(
        s0,
        s,
        laws::segment_bytes(n, n.ops[k + 1]),
        s.flow(id).key,
        fields(seg),
        piece_fields(c, b, window, off),
        x.subrange(256 + p.pos, 256 + p.pos + p.first) + x.subrange(256, 256 + p.second),
    );
}

/// One segment, and what leaves behind it.
proof fn lemma_leaves_step(
    s: State,
    t: State,
    key: FlowKey,
    k: int,
    end: int,
    h: Sent,
    data: Seq<u8>,
    chunk: int,
    n: int,
)
    requires
        chunk > 0,
        data.len() > 0,
        n == (if chunk <= data.len() {
            chunk
        } else {
            data.len() as int
        }),
        0 <= k && k + 1 < t.ops.len(),
        t.ops[k] is Count && t.ops[k + 1] is WriteSegment,
        brings_segment(s, laws::segment_bytes(t, t.ops[k + 1]), key, h, data.take(n)),
        leaves(s, t, key, k + 2, end, Sent { seq: h.seq + n, ..h }, data.skip(n), chunk),
    ensures
        leaves(s, t, key, k, end, h, data, chunk),
{
}

/// The segments of a burst from `off` on.
proof fn lemma_burst_leaves(
    s0: State,
    s: State,
    id: usize,
    c: Tcp,
    tso: bool,
    window: u16,
    off: int,
)
    requires
        replies::has_buffer(s, id),
        c.wf(),
        0 <= off <= c.spec_burst(tso).send_len,
        s.hdrs.len() + 256 * (c.spec_burst(tso).send_len - off) + 256 <= u32::MAX,
        s.pool == s0.pool && s.flows == s0.flows && s.cfg == s0.cfg,
        s.guest_mac == s0.guest_mac && s.offloads == s0.offloads,
        c.spec_burst(tso).send_len > 0 ==> c.spec_burst(tso).chunk > 0,
    ensures
        ({
            let b = c.spec_burst(tso);
            let t = s.send_burst(id, c, b, window, off);
            &&& adds(s, t)
            &&& t.flows == s.flows && t.pool == s.pool && t.pending == s.pending
            &&& t.after == s.after && t.ask == s.ask
            &&& leaves(
                s0,
                t,
                s0.flow(id).key,
                s.ops.len() as int,
                t.ops.len() as int,
                piece_fields(c, b, window, off),
                buffered(s0, id, c).subrange(
                    c.sent_unacked + off,
                    c.sent_unacked + b.send_len,
                ),
                b.chunk as int,
            )
        }),
    decreases c.spec_burst(tso).send_len - off,
{
    let b = c.spec_burst(tso);
    let all = buffered(s0, id, c);
    let data = all.subrange(c.sent_unacked + off, c.sent_unacked + b.send_len);
    let len = piece_len(b, off);
    lemma_burst_step(s, id, c, b, window, off);
    if off < b.send_len {
        lemma_piece_written(s0, s, id, c, tso, window, off);
        let n = after_piece(s, id, c, b, window, off);
        lemma_burst_leaves(s0, n, id, c, tso, window, off + len);
        let t = n.send_burst(id, c, b, window, off + len);
        let k = s.ops.len() as int;
        lemma_adds(n, t, k + 1);
        assert(t.ops[k] == n.ops[k]);
        lemma_adds_both(s, n, t);
        assert(data.take(len) =~= all.subrange(c.sent_unacked + off, c.sent_unacked + off + len));
        assert(data.skip(len) =~= all.subrange(
            c.sent_unacked + (off + len),
            c.sent_unacked + b.send_len,
        ));
        let h = piece_fields(c, b, window, off);
        assert(piece_fields(c, b, window, off + len) == (Sent { seq: h.seq + len, ..h }));
        lemma_leaves_step(
            s0,
            t,
            s0.flow(id).key,
            k,
            t.ops.len() as int,
            h,
            data,
            b.chunk as int,
            len,
        );
    }
}

/// What segments leave stays as it is while only actions are added.
proof fn lemma_leaves_adds(
    s: State,
    t: State,
    u: State,
    key: FlowKey,
    k: int,
    end: int,
    h: Sent,
    data: Seq<u8>,
    chunk: int,
)
    requires
        leaves(s, t, key, k, end, h, data, chunk),
        t.ops.len() <= u.ops.len(),
        forall|i: int| 0 <= i < t.ops.len() ==> #[trigger] u.ops[i] == t.ops[i],
        forall|i: int|
            0 <= i < t.ops.len() ==> laws::segment_bytes(u, #[trigger] t.ops[i])
                == laws::segment_bytes(t, t.ops[i]),
    ensures
        leaves(s, u, key, k, end, h, data, chunk),
    decreases data.len(),
{
    let n = if chunk <= data.len() {
        chunk
    } else {
        data.len() as int
    };
    if data.len() > 0 && n > 0 {
        assert(u.ops[k] == t.ops[k] && u.ops[k + 1] == t.ops[k + 1]);
        lemma_leaves_adds(
            s,
            t,
            u,
            key,
            k + 2,
            end,
            Sent { seq: h.seq + n, ..h },
            data.skip(n),
            chunk,
        );
    }
}

/// All headers that are read are built.
spec fn all_built(s: State) -> bool {
    forall|i: int| 0 <= i < s.ops.len() ==> built(s, #[trigger] s.ops[i])
}

/// A burst's headers are all built.
proof fn lemma_burst_built(s: State, id: usize, c: Tcp, b: Burst, window: u16, off: int)
    requires
        all_built(s),
        s.hdrs.len() + 256 * (b.send_len - off) + 256 <= u32::MAX,
        off <= b.send_len,
    ensures
        all_built(s.send_burst(id, c, b, window, off)),
    decreases b.send_len - off,
{
    let len = if b.chunk <= b.send_len - off {
        b.chunk as int
    } else {
        b.send_len - off
    };
    if off < b.send_len && len > 0 {
        let p = c.spec_piece(b, off);
        let seg = TcpSegment {
            seq: p.seq,
            ack: c.seq_from_guest,
            flags: proto::TCP_ACK,
            window,
            options: TcpOptions::Empty,
            gso_size: if b.gso {
                Some(c.guest_mss)
            } else {
                None
            },
        };
        let start = (buf::HEADROOM + p.pos) as usize;
        let end = (buf::HEADROOM + p.pos + p.first) as usize;
        let end2 = (buf::HEADROOM + p.second) as usize;
        let n = s.send_segment(id, seg, start, end, buf::HEADROOM, end2);
        lemma_segment_built(s, id, seg, start, end, buf::HEADROOM, end2);
        lemma_burst_built(n, id, c, b, window, off + len);
    }
}

proof fn lemma_segment_built(
    s: State,
    id: usize,
    seg: TcpSegment,
    start: usize,
    end: usize,
    start2: usize,
    end2: usize,
)
    requires
        all_built(s),
        s.hdrs.len() + 256 <= u32::MAX,
    ensures
        all_built(s.send_segment(id, seg, start, end, start2, end2)),
        s.send_segment(id, seg, start, end, start2, end2).hdrs.len() <= s.hdrs.len() + 256,
{
    let t = s.send_segment(id, seg, start, end, start2, end2);
    if s.holds(id) {
        let x = s.pool.bufs[s.flow(id).buf as int];
        let data = x.subrange(start as int, end as int) + x.subrange(start2 as int, end2 as int);
        frame::lemma_segment_hdr_len(
            s.link(),
            s.flow(id).key,
            seg,
            s.offloads.spec_csum(),
            data,
        );
        assert forall|i: int| 0 <= i < t.ops.len() implies built(t, #[trigger] t.ops[i]) by {
            if i < s.ops.len() {
                assert(built(s, s.ops[i]));
            }
        }
    }
}

/// As many of the unsent bytes as the guest's window has room for.
pub open spec fn sendable(c: Tcp) -> int {
    let room = if c.guest_window > c.sent_unacked {
        c.guest_window - c.sent_unacked
    } else {
        0
    };
    if c.buffered - c.sent_unacked <= room {
        c.buffered - c.sent_unacked
    } else {
        room
    }
}

/// Up to action `end` of `t`, the sendable bytes of flow `id` leave for the
/// guest, cut at its segment size or, where the tap cuts super-frames, at
/// what a packet holds.
pub open spec fn sendable_leaves(
    s: State,
    t: State,
    id: usize,
    c: Tcp,
    queued: Option<i32>,
    end: int,
) -> bool {
    let n = sendable(c);
    let gso = s.offloads.spec_tso() && n > c.guest_mss;
    let most: int = if gso || c.guest_mss > 65_475 {
        65_475
    } else {
        c.guest_mss as int
    };
    leaves(
        s,
        t,
        s.flow(id).key,
        0,
        end,
        Sent {
            seq: next_seq(c),
            ack: c.seq_from_guest,
            flags: 0x10,
            window: c.spec_window(queued),
            mss: None,
            wscale: None,
            gso: if gso {
                Some(c.guest_mss)
            } else {
                None
            },
        },
        buffered(s, id, c).subrange(c.sent_unacked as int, c.sent_unacked + n),
        if n <= most {
            n
        } else {
            most
        },
    )
}

/// Data for the guest leaves: the unsent bytes, in order, as many as the
/// guest's window has room for, cut at its segment size or, where the tap
/// cuts super-frames, at what a packet holds. They count as in flight. Where
/// the socket was read dry and all is out, it is polled again.
pub proof fn law_data_leaves(
    s: State,
    id: usize,
    c: Tcp,
    drained: bool,
    queued: Option<i32>,
    now: Instant,
)
    requires
        s.wf(),
        s.pending == (Pending::Bursting { id, drained }),
        s.tcp(id) == Some(c),
    ensures
        ({
            let t = s.resume(Reply::Queued(queued), now);
            let n = sendable(c);
            &&& exists|end: int| #[trigger] sendable_leaves(s, t, id, c, queued, end)
            &&& drained && c.buffered - c.sent_unacked == n && !c.poll_armed ==> t.ops.contains(
                Op::ArmPoll { id, fd: s.flow(id).sock, events: 0x2001 },
            )
            &&& !(s.after is Timer) && !(c.guest_fin_received && c.host_fin == FinState::Acked)
                ==> t.tcp(id) == Some(
                Tcp {
                    sent_unacked: (c.sent_unacked + n) as u32,
                    last_progress: now,
                    poll_armed: c.poll_armed || (drained && c.buffered - c.sent_unacked == n),
                    ..c
                },
            )
        }),
{
    replies::lemma_has_buffer(s, id);
    assert(c.wf()) by {
        assert(s.flows.holds(id));
    }
    lemma_data_leaves(s, id, c, drained, queued, now);
    lemma_after_burst(s, id, c, drained, queued, now);
}

/// The state after a burst and the poll that may follow it.
spec fn after_burst(s: State, id: usize, c: Tcp, drained: bool, w: u16, now: Instant) -> State {
    let b = c.spec_burst(s.offloads.spec_tso());
    let e = s.send_burst(id, c, b, w, 0).with_tcp(id, c.sent(b.send_len as int, now));
    if drained && !b.short && !c.poll_armed {
        e.arm_poll(id, 0x2001)
    } else {
        e
    }
}

/// What a burst leads to.
proof fn lemma_resume_burst(
    s: State,
    id: usize,
    c: Tcp,
    drained: bool,
    queued: Option<i32>,
    now: Instant,
)
    requires
        s.pending == (Pending::Bursting { id, drained }),
        s.tcp(id) == Some(c),
    ensures
        s.resume(Reply::Queued(queued), now) == after_burst(
            State { pending: Pending::Idle, ..s.begun() },
            id,
            c,
            drained,
            c.spec_window(queued),
            now,
        ).proceed(now),
{
}

/// The sendable bytes leave.
proof fn lemma_data_leaves(
    s: State,
    id: usize,
    c: Tcp,
    drained: bool,
    queued: Option<i32>,
    now: Instant,
)
    requires
        replies::has_buffer(s, id),
        c.wf(),
        s.pending == (Pending::Bursting { id, drained }),
        s.tcp(id) == Some(c),
    ensures
        exists|end: int| #[trigger]
            sendable_leaves(s, s.resume(Reply::Queued(queued), now), id, c, queued, end),
{
    let tso = s.offloads.spec_tso();
    let b = c.spec_burst(tso);
    let w = c.spec_window(queued);
    let a = State { pending: Pending::Idle, ..s.begun() };
    assert(b.send_len == sendable(c));
    lemma_burst_leaves(s, a, id, c, tso, w, 0);
    lemma_burst_built(a, id, c, b, w, 0);
    let d = a.send_burst(id, c, b, w, 0);
    let f = after_burst(a, id, c, drained, w, now);
    let t = s.resume(Reply::Queued(queued), now);
    lemma_resume_burst(s, id, c, drained, queued, now);
    assert(adds(d, f));
    lemma_proceed_adds(f, now);
    lemma_adds_both(d, f, t);
    assert forall|i: int| 0 <= i < d.ops.len() implies laws::segment_bytes(
        t,
        #[trigger] d.ops[i],
    ) == laws::segment_bytes(d, d.ops[i]) by {
        assert(built(d, d.ops[i]));
        lemma_adds(d, t, i);
    }
    let data = buffered(s, id, c).subrange(c.sent_unacked as int, c.sent_unacked + b.send_len);
    lemma_leaves_adds(
        s,
        d,
        t,
        s.flow(id).key,
        0,
        d.ops.len() as int,
        piece_fields(c, b, w, 0),
        data,
        b.chunk as int,
    );
    assert(sendable_leaves(s, t, id, c, queued, d.ops.len() as int));
}

/// What is in flight after a burst, and what is polled for.
proof fn lemma_after_burst(
    s: State,
    id: usize,
    c: Tcp,
    drained: bool,
    queued: Option<i32>,
    now: Instant,
)
    requires
        c.wf(),
        s.pending == (Pending::Bursting { id, drained }),
        s.tcp(id) == Some(c),
    ensures
        ({
            let t = s.resume(Reply::Queued(queued), now);
            let n = sendable(c);
            &&& drained && c.buffered - c.sent_unacked == n && !c.poll_armed ==> t.ops.contains(
                Op::ArmPoll { id, fd: s.flow(id).sock, events: 0x2001 },
            )
            &&& !(s.after is Timer) && !(c.guest_fin_received && c.host_fin == FinState::Acked)
                ==> t.tcp(id) == Some(
                Tcp {
                    sent_unacked: (c.sent_unacked + n) as u32,
                    last_progress: now,
                    poll_armed: c.poll_armed || (drained && c.buffered - c.sent_unacked == n),
                    ..c
                },
            )
        }),
{
    let b = c.spec_burst(s.offloads.spec_tso());
    let w = c.spec_window(queued);
    let a = State { pending: Pending::Idle, ..s.begun() };
    let d = a.send_burst(id, c, b, w, 0);
    lemma_burst_frame(a, id, c, b, w, 0);
    let f = after_burst(a, id, c, drained, w, now);
    lemma_resume_burst(s, id, c, drained, queued, now);
    lemma_proceed_adds(f, now);
    if drained && !b.short && !c.poll_armed {
        let last = f.ops.len() - 1;
        assert(f.ops[last] == Op::ArmPoll { id, fd: s.flow(id).sock, events: 0x2001 });
        assert(f.proceed(now).ops[last] == f.ops[last]);
    }
}

/// A burst leaves flows and what is awaited alone.
proof fn lemma_burst_frame(s: State, id: usize, c: Tcp, b: Burst, window: u16, off: int)
    ensures
        ({
            let t = s.send_burst(id, c, b, window, off);
            t.flows == s.flows && t.pending == s.pending && t.after == s.after
        }),
    decreases b.send_len - off,
{
    lemma_burst_step(s, id, c, b, window, off);
    if off < b.send_len && piece_len(b, off) > 0 {
        let n = after_piece(s, id, c, b, window, off);
        lemma_burst_frame(n, id, c, b, window, off + piece_len(b, off));
    }
}

/// What the host socket took of a guest segment counts as taken, a FIN that
/// is due shuts the socket down for writing, and an ack that is due is sent
/// once the room towards the host is known.
pub proof fn law_segment_is_taken(
    s: State,
    id: usize,
    c: Tcp,
    hdr: TcpHdr,
    start: usize,
    end: usize,
    n: usize,
    now: Instant,
)
    requires
        s.wf(),
        s.pending == (Pending::Sending { id, hdr, start, end }),
        s.tcp(id) == Some(c),
        n <= end - start,
    ensures
        ({
            let t = s.resume(Reply::Sent(n), now);
            let (u, r) = c.spec_take(hdr.flags, hdr.seq, end - start, n as int);
            &&& t.ops.len() >= 1 && t.ops[0] == Op::Count(
                Counter::SockSend { accepted: n, wanted: (end - start) as usize },
            )
            &&& r.shutdown ==> t.ops.contains(Op::ShutdownWrite { fd: s.flow(id).sock })
            &&& r.ack ==> {
                &&& t.tcp(id) == Some(u)
                &&& t.ask == Request::Queued { fd: s.flow(id).sock }
                &&& t.pending == Pending::Acking { id }
                &&& t.after == s.after
            }
            &&& !r.ack && !t.is_idle() ==> t.tcp(id) == Some(u)
        }),
{
    let (u, r) = c.spec_take(hdr.flags, hdr.seq, end - start, n as int);
    let a = State { pending: Pending::Idle, ..s.begun() };
    let x = a.count(Counter::SockSend { accepted: n, wanted: (end - start) as usize });
    lemma_taken(x, id, c, hdr, (end - start) as usize, n, now);
    let b = x.tcp_taken(id, hdr, (end - start) as usize, n, now);
    let t = s.resume(Reply::Sent(n), now);
    assert(t == b.proceed(now));
    lemma_proceed_adds(b, now);
    assert(t.ops[0] == b.ops[0]);
    if r.shutdown {
        let i = choose|i: int|
            0 <= i < b.ops.len() && b.ops[i] == (Op::ShutdownWrite { fd: s.flow(id).sock });
        assert(t.ops[i] == b.ops[i]);
    }
}

/// What follows from taking a guest segment.
proof fn lemma_taken(
    s: State,
    id: usize,
    c: Tcp,
    hdr: TcpHdr,
    len: usize,
    n: usize,
    now: Instant,
)
    requires
        s.tcp(id) == Some(c),
        s.is_idle(),
    ensures
        ({
            let t = s.tcp_taken(id, hdr, len, n, now);
            let (u, r) = c.spec_take(hdr.flags, hdr.seq, len as int, n as int);
            &&& adds(s, t)
            &&& r.shutdown ==> t.ops.contains(Op::ShutdownWrite { fd: s.flow(id).sock })
            &&& r.ack ==> t.ask == Request::Queued { fd: s.flow(id).sock } && t.pending
                == Pending::Acking { id }
            &&& t.tcp(id) == Some(u)
            &&& t.after == s.after && t.pool == s.pool
            &&& t.holds(id) && t.flow(id).sock == s.flow(id).sock
        }),
{
    let (u, r) = c.spec_take(hdr.flags, hdr.seq, len as int, n as int);
    let fd = s.flow(id).sock;
    let a = s.with_tcp(id, u);
    let b = if r.deferred {
        a.count(Counter::AckDeferred)
    } else {
        a
    };
    let d = if r.shutdown {
        b.op(Op::ShutdownWrite { fd })
    } else {
        b
    };
    assert(d.tcp(id) == Some(u));
    if r.shutdown {
        assert(d.ops.last() == Op::ShutdownWrite { fd });
    }
    let e = if r.ack {
        d.count(Counter::TcpCtrl)
    } else {
        d
    };
    assert(adds(s, e));
    lemma_data_keeps(e, id, u, now);
    lemma_data_adds(e, id, now);
    let t = s.tcp_taken(id, hdr, len, n, now);
    assert(adds(e, t));
    lemma_adds_both(s, e, t);
    if r.shutdown {
        let i = d.ops.len() - 1;
        assert(e.ops[i] == d.ops[i]);
        assert(t.ops[i] == e.ops[i]);
    }
}

/// Asking for what moving data needs leaves the connection as it is.
proof fn lemma_data_keeps(s: State, id: usize, u: Tcp, now: Instant)
    requires
        s.tcp(id) == Some(u),
    ensures
        ({
            let t = s.tcp_data_to_guest(id, now);
            &&& t.tcp(id) == Some(u)
            &&& t.holds(id) && t.flow(id).sock == s.flow(id).sock
            &&& t.pool == s.pool
        }),
{
}

/// A guest frame with a segment on flow `id` has arrived.
pub open spec fn segment_arrived(
    s: State,
    len: i32,
    g: GuestFrame,
    id: usize,
    c: Tcp,
) -> bool {
    &&& paths::arrived(s, len, g)
    &&& paths::is_segment(s, g)
    &&& s.flows.lookup(paths::tcp_key(g.dst_ip, paths::message(s, g))) == Some(id)
    &&& s.tcp(id) == Some(c)
}

/// The header fields of the segment in `g`.
pub open spec fn header_of(s: State, g: GuestFrame) -> TcpHdr {
    TcpHdr::spec_parse(paths::message(s, g))->0
}

/// A segment goes to its flow.
proof fn lemma_segment_arrived(
    s: State,
    len: i32,
    g: GuestFrame,
    id: usize,
    c: Tcp,
    now: Instant,
)
    requires
        segment_arrived(s, len, g, id, c),
    ensures
        ({
            let l4 = paths::message(s, g);
            let a = paths::looked_at(s, len, g);
            let start = (g.l4_start + paths::data_offset(l4)) as usize;
            &&& replies::has_buffer(s, id) && id <= u32::MAX
            &&& a.tcp(id) == Some(c) && a.is_idle() && a.after is Tap && a.ask is Wait
            &&& a.ops.len() == 1 && a.ops[0] is Count && a.hdrs.len() == 0
            &&& a.flows == s.flows && a.pool == s.pool && a.cfg == s.cfg
            &&& a.tap_buf == s.tap_buf
            &&& a.guest_mac == g.src_mac && a.offloads == s.offloads
            &&& header_of(s, g).flags == l4[13]
            &&& header_of(s, g).seq == paths::segment_seq(l4)
            &&& start <= g.l4_end
            &&& start == g.l4_end <==> paths::data_offset(l4) == l4.len()
            &&& s.complete(TAP_UD, len, now) == a.tcp_from_guest(
                id,
                header_of(s, g),
                start,
                g.l4_end,
                now,
            ).proceed(now)
        }),
{
    let l4 = paths::message(s, g);
    let a = paths::looked_at(s, len, g);
    paths::lemma_looked_at(s, len, g);
    flow::law_lookup(s.flows, paths::tcp_key(g.dst_ip, l4));
    replies::lemma_has_buffer(s, id);
    paths::lemma_dispatch(s, len, g, now);
    assert(paths::message(a, g) == l4);
    paths::lemma_segment(a, g, now);
}

/// An RST from the guest closes its connection, whatever its state and
/// whatever else is in the segment. Nothing is written to the guest.
pub proof fn law_guest_reset_closes(
    s: State,
    len: i32,
    g: GuestFrame,
    id: usize,
    c: Tcp,
    now: Instant,
)
    requires
        segment_arrived(s, len, g, id, c),
        paths::message(s, g)[13] & 4 != 0,
    ensures
        ({
            let t = s.complete(TAP_UD, len, now);
            &&& !t.holds(id) || t.flow(id).closing
            &&& c.poll_armed ==> t.ops.contains(Op::Cancel { id })
            &&& !c.poll_armed ==> t.ops.contains(Op::Close { fd: s.flow(id).sock })
            &&& laws::no_tap_write(t.ops)
            &&& t.ops.last() == Op::ArmTapRead { buf: s.tap_buf }
            &&& t.is_idle() && t.ask is Wait
        }),
{
    lemma_segment_arrived(s, len, g, id, c, now);
    let a = paths::looked_at(s, len, g);
    let b = a.touched(id, now);
    let d = b.remove_flow(id);
    let t = s.complete(TAP_UD, len, now);
    laws::lemma_read_on(d, now);
    assert(t == d.proceed(now));
    assert(t.ops[2] == (if c.poll_armed {
        Op::Cancel { id }
    } else {
        Op::Close { fd: s.flow(id).sock }
    }));
}

/// A SYN again on an established connection without data in flight gets the
/// SYN-ACK again.
pub proof fn law_syn_again(
    s: State,
    len: i32,
    g: GuestFrame,
    id: usize,
    c: Tcp,
    now: Instant,
)
    requires
        segment_arrived(s, len, g, id, c),
        paths::message(s, g)[13] & 4 == 0,
        paths::message(s, g)[13] & 2 != 0,
        c.state == TcpState::Established,
        c.sent_unacked == 0,
    ensures
        ({
            let t = s.complete(TAP_UD, len, now);
            &&& t.ops.len() == 4 && t.ops[2] is WriteSegment
            &&& brings_segment(
                State { guest_mac: g.src_mac, ..s },
                laws::segment_bytes(t, t.ops[2]),
                s.flow(id).key,
                Sent {
                    seq: 0x0001_0000,
                    ack: c.seq_from_guest,
                    flags: 0x12,
                    window: if c.sndbuf <= 65_535 {
                        c.sndbuf as u16
                    } else {
                        65_535
                    },
                    mss: Some(65_495),
                    wscale: if c.guest_wscale is Some {
                        Some(7)
                    } else {
                        None
                    },
                    gso: None,
                },
                Seq::empty(),
            )
            &&& t.ops[3] == Op::ArmTapRead { buf: s.tap_buf }
            &&& t.tcp(id) == Some(Tcp { seq_una: 0x0001_0001, ..c })
        }),
{
    reveal(brings_segment);
    lemma_segment_arrived(s, len, g, id, c, now);
    assert(0x02u8 | 0x10u8 == 0x12u8) by (bit_vector);
    assert(tcp::seq_add(0x0001_0000, 1) == 0x0001_0001) by {
        reveal(tcp::seq_add);
    }
    let a = paths::looked_at(s, len, g);
    let b = a.touched(id, now);
    let seg = TcpSegment {
        seq: 0x0001_0000,
        ack: c.seq_from_guest,
        flags: 0x12,
        window: c.spec_syn_window(),
        options: if c.guest_wscale is Some {
            TcpOptions::MssAndScale
        } else {
            TcpOptions::Mss
        },
        gso_size: None,
    };
    let h = buf::HEADROOM;
    lemma_control_written(b, id, seg);
    let d = b.send_segment(id, seg, h, h, h, h);
    let e = b.send_syn_ack(id);
    assert(adds(d, e));
    let t = s.complete(TAP_UD, len, now);
    laws::lemma_read_on(e, now);
    assert(t == e.proceed(now));
    assert(adds(d, t));
    lemma_adds(d, t, 2);
}

/// A segment with an ack and nothing else updates what the guest has and
/// what it takes, and leaves the guest's stream alone; a connection that is
/// over by then is closed.
pub proof fn law_guest_ack(
    s: State,
    len: i32,
    g: GuestFrame,
    id: usize,
    c: Tcp,
    now: Instant,
)
    requires
        segment_arrived(s, len, g, id, c),
        paths::goes_on(paths::message(s, g)),
        paths::message(s, g)[13] & 1 == 0,
        paths::message(s, g)[13] & 16 != 0,
        paths::data_offset(paths::message(s, g)) == paths::message(s, g).len(),
        c.state == TcpState::Established,
    ensures
        ({
            let t = s.complete(TAP_UD, len, now);
            let u = c.acked(header_of(s, g), true, now);
            &&& !(u.guest_fin_received && u.host_fin == FinState::Acked) ==> t.tcp(id) == Some(u)
                && t.flow(id).last_active == now
            &&& u.guest_fin_received && u.host_fin == FinState::Acked ==> !t.holds(id) || t.flow(
                id,
            ).closing
        }),
{
    lemma_segment_arrived(s, len, g, id, c, now);
    let a = paths::looked_at(s, len, g);
    let hdr = header_of(s, g);
    let u = c.acked(hdr, true, now);
    lemma_bare_segment(a, id, c, hdr, g.l4_end, now);
    let b = a.tcp_from_guest(id, hdr, g.l4_end, g.l4_end, now);
    lemma_close_finished(b, id, u, now);
}

/// A segment without data, on an established connection.
proof fn lemma_bare_segment(
    a: State,
    id: usize,
    c: Tcp,
    hdr: TcpHdr,
    end: usize,
    now: Instant,
)
    requires
        a.tcp(id) == Some(c),
        a.is_idle(),
        c.state == TcpState::Established,
        hdr.flags & 4 == 0,
        hdr.flags & 2 == 0,
    ensures
        ({
            let t = a.tcp_from_guest(id, hdr, end, end, now);
            let u = if hdr.flags & 16 != 0 {
                c.acked(hdr, true, now)
            } else {
                c
            };
            let (v, r) = u.spec_take(hdr.flags, hdr.seq, 0, 0);
            &&& t.tcp(id) == Some(v)
            &&& t.flow(id).last_active == now && t.flow(id).sock == a.flow(id).sock
            &&& t.after == After::TapTcp(id)
            &&& r.shutdown ==> t.ops.contains(Op::ShutdownWrite { fd: a.flow(id).sock }) && t.ask
                == Request::Queued { fd: a.flow(id).sock } && t.pending == Pending::Acking { id }
            &&& !t.is_idle() ==> hdr.flags & 1 == 0 ==> t.pending is Filling || t.pending is Finning
                || t.pending is Bursting
            &&& hdr.flags & 1 == 0 ==> v == u
        }),
{
    let b = a.touched(id, now);
    let u = if hdr.flags & 16 != 0 {
        c.acked(hdr, true, now)
    } else {
        c
    };
    let d = if hdr.flags & 16 != 0 {
        b.tcp_ack_from_guest(id, hdr, true, now)
    } else {
        b
    };
    assert(d.tcp(id) == Some(u) && d.flow(id).last_active == now);
    let e = State { after: After::TapTcp(id), ..d };
    lemma_taken(e, id, u, hdr, 0, 0, now);
    assert(a.tcp_from_guest(id, hdr, end, end, now) == e.tcp_taken(id, hdr, 0, 0, now));
    lemma_taken_flow(e, id, hdr, now);
}

/// Taking a segment leaves the rest of the flow alone.
proof fn lemma_taken_flow(s: State, id: usize, hdr: TcpHdr, now: Instant)
    requires
        s.tcp(id) is Some,
        s.is_idle(),
    ensures
        ({
            let t = s.tcp_taken(id, hdr, 0, 0, now);
            &&& t.flow(id).last_active == s.flow(id).last_active
            &&& hdr.flags & 1 == 0 && !t.is_idle() ==> t.pending is Filling || t.pending is Finning
                || t.pending is Bursting
        }),
{
}

/// After a guest segment a finished connection is closed, another stays.
proof fn lemma_close_finished(b: State, id: usize, u: Tcp, now: Instant)
    requires
        b.tcp(id) == Some(u),
        b.after == After::TapTcp(id),
        u.guest_fin_received && u.host_fin == FinState::Acked ==> b.is_idle(),
    ensures
        ({
            let t = b.proceed(now);
            &&& !(u.guest_fin_received && u.host_fin == FinState::Acked) ==> t.tcp(id) == Some(u)
                && t.flow(id) == b.flow(id)
            &&& u.guest_fin_received && u.host_fin == FinState::Acked ==> !t.holds(id) || t.flow(
                id,
            ).closing
        }),
{
}

/// A FIN of the guest's that is due, without data, shuts the host socket
/// down for writing and is acknowledged.
pub proof fn law_guest_fin(
    s: State,
    len: i32,
    g: GuestFrame,
    id: usize,
    c: Tcp,
    now: Instant,
)
    requires
        segment_arrived(s, len, g, id, c),
        paths::goes_on(paths::message(s, g)),
        paths::message(s, g)[13] & 1 != 0,
        paths::data_offset(paths::message(s, g)) == paths::message(s, g).len(),
        c.state == TcpState::Established,
        !c.guest_fin_received,
        paths::segment_seq(paths::message(s, g)) == c.seq_from_guest,
    ensures
        ({
            let t = s.complete(TAP_UD, len, now);
            &&& t.ops.contains(Op::ShutdownWrite { fd: s.flow(id).sock })
            &&& t.ask == Request::Queued { fd: s.flow(id).sock }
            &&& t.pending == Pending::Acking { id }
            &&& t.tcp(id) matches Some(u) && u.guest_fin_received && u.seq_from_guest as int == (
            c.seq_from_guest + 1) % 0x1_0000_0000
        }),
{
    lemma_segment_arrived(s, len, g, id, c, now);
    let a = paths::looked_at(s, len, g);
    let hdr = header_of(s, g);
    let u = if hdr.flags & 16 != 0 {
        c.acked(hdr, true, now)
    } else {
        c
    };
    lemma_bare_segment(a, id, c, hdr, g.l4_end, now);
    tcp::law_fin_taken(u, hdr.flags, hdr.seq, 0);
}

/// A SYN without a flow goes to the policy.
proof fn lemma_syn_arrived(s: State, len: i32, g: GuestFrame, now: Instant)
    requires
        paths::arrived(s, len, g),
        paths::is_segment(s, g),
        s.flows.lookup(paths::tcp_key(g.dst_ip, paths::message(s, g))) is None,
        paths::message(s, g)[13] & 0x16 == 2,
    ensures
        ({
            let a = paths::looked_at(s, len, g);
            &&& s.complete(TAP_UD, len, now) == a.new_tcp_flow(
                paths::tcp_key(g.dst_ip, paths::message(s, g)),
                header_of(s, g),
                g.l4_start,
            ).proceed(now)
            &&& a.is_idle() && a.after is Tap
        }),
{
    let a = paths::looked_at(s, len, g);
    paths::lemma_looked_at(s, len, g);
    paths::lemma_dispatch(s, len, g, now);
    assert(paths::message(a, g) == paths::message(s, g));
    paths::lemma_segment(a, g, now);
    assert(0x02u8 | 0x10u8 | 0x04u8 == 0x16u8) by (bit_vector);
}

/// In `t` a SYN for the new flow `key` has arrived: the caller's policy is
/// asked about where it goes, if there is one, and then a socket to there is
/// asked for. No flow or buffer is taken yet.
pub open spec fn asks_for_connection(t: State, key: FlowKey, syn: TcpHdr, now: Instant) -> bool {
    let x = if t.cfg.allow_flow is Some {
        t.resume(Reply::Policy(true), now)
    } else {
        t
    };
    &&& t.cfg.allow_flow is Some ==> t.ask == Request::Policy(
        FlowDst { proto: 6, ip: key.dst.ip, port: key.dst.port },
    )
    &&& x.ask == Request::OpenTcp(t.cfg.spec_nat64_target(key.dst))
    &&& x.pending == (Pending::OpeningTcp { key, syn }) && x.after is Tap
    &&& x.flows == t.flows && x.pool == t.pool && x.tap_buf == t.tap_buf
}

/// A SYN of the guest's, and nothing but a SYN, asks for a connection to
/// where it goes.
pub proof fn law_syn_asks_for_connection(s: State, len: i32, g: GuestFrame, now: Instant)
    requires
        paths::arrived(s, len, g),
        paths::is_segment(s, g),
        s.flows.lookup(paths::tcp_key(g.dst_ip, paths::message(s, g))) is None,
        paths::message(s, g)[13] & 0x16 == 2,
        s.cfg.allow_flow is Some || !g.dst_ip.spec_loopback(),
    ensures
        asks_for_connection(
            s.complete(TAP_UD, len, now),
            paths::tcp_key(g.dst_ip, paths::message(s, g)),
            header_of(s, g),
            now,
        ),
{
    lemma_syn_arrived(s, len, g, now);
    lemma_syn_asks(
        paths::looked_at(s, len, g),
        paths::tcp_key(g.dst_ip, paths::message(s, g)),
        header_of(s, g),
        g.l4_start,
        now,
    );
}

/// The flow of a new connection with the socket `fd`, its poll armed.
pub open spec fn connecting_flow(
    x: State,
    key: FlowKey,
    syn: TcpHdr,
    fd: Fd,
    sndbuf: u32,
    now: Instant,
) -> Flow {
    Flow {
        key,
        kind: FlowKind::Tcp,
        sock: fd,
        buf: x.pool.free.last(),
        last_active: now,
        tcp: Some(Tcp { poll_armed: true, ..Tcp::spec_connecting(syn, sndbuf, now) }),
        closing: false,
    }
}

/// A connection whose connect failed at once leaves no flow behind, and the
/// tap is read again.
pub proof fn law_connect_failed_at_once(x: State, key: FlowKey, syn: TcpHdr, now: Instant)
    requires
        x.pending == (Pending::OpeningTcp { key, syn }),
        x.after is Tap,
    ensures
        ({
            let t = x.resume(Reply::OpenedTcp(None), now);
            &&& t.flows == x.flows && t.pool == x.pool
            &&& t.ops == seq![Op::ArmTapRead { buf: x.tap_buf }]
        }),
{
    let a = State { pending: Pending::Idle, ..x.begun() };
    laws::lemma_read_on(a, now);
    assert(x.resume(Reply::OpenedTcp(None), now) == a.proceed(now));
    assert(a.proceed(now).ops =~= seq![Op::ArmTapRead { buf: x.tap_buf }]);
}

/// The flow of a new connection is inserted and its poll armed.
proof fn lemma_tcp_inserted(
    a: State,
    key: FlowKey,
    syn: TcpHdr,
    fd: Fd,
    sndbuf: u32,
    now: Instant,
)
    requires
        a.flows.wf(),
        a.flows.slots.len() < usize::MAX,
        a.pool.free.len() > 0,
    ensures
        ({
            let id = a.flows.next_id();
            let t = a.opened_tcp(Some((fd, sndbuf)), key, syn, now);
            &&& t.holds(id) && t.flow(id) == connecting_flow(a, key, syn, fd, sndbuf, now)
            &&& t.flows.lookup(key) == Some(id)
            &&& t.ops == a.ops.push(Op::ArmPoll { id, fd, events: 4 })
            &&& t.pending == a.pending && t.after == a.after && t.tap_buf == a.tap_buf
        }),
{
    let c = Tcp::spec_connecting(syn, sndbuf, now);
    let f = a.new_flow_value(key, FlowKind::Tcp, fd, Some(c), now);
    let id = a.flows.next_id();
    flow::law_insert(a.flows, f);
    let b = a.add_flow(key, FlowKind::Tcp, fd, Some(c), now);
    assert(b.flows == a.flows.inserted(f));
    assert(b.holds(id) && b.flow(id) == f && b.tcp(id) == Some(c));
    assert(a.opened_tcp(Some((fd, sndbuf)), key, syn, now) == b.arm_poll(id, 4));
}

/// Once its connect is under way, a new flow has the socket and a buffer of
/// its own, goes by what the SYN announces, and polls for the connect to
/// finish; the tap is read again.
pub proof fn law_connect_under_way(
    x: State,
    key: FlowKey,
    syn: TcpHdr,
    fd: Fd,
    sndbuf: u32,
    now: Instant,
)
    requires
        x.pending == (Pending::OpeningTcp { key, syn }),
        x.after is Tap,
        x.flows.wf(),
        x.flows.slots.len() < usize::MAX,
        x.pool.free.len() > 0,
    ensures
        ({
            let y = x.resume(Reply::OpenedTcp(Some((fd, sndbuf))), now);
            let id = x.flows.next_id();
            &&& y.holds(id) && y.flow(id) == connecting_flow(x, key, syn, fd, sndbuf, now)
            &&& y.flows.lookup(key) == Some(id)
            &&& y.ops == seq![
                Op::ArmPoll { id, fd, events: 4 },
                Op::ArmTapRead { buf: x.tap_buf },
            ]
            &&& y.is_idle() && y.ask is Wait
        }),
{
    let a = State { pending: Pending::Idle, ..x.begun() };
    lemma_tcp_inserted(a, key, syn, fd, sndbuf, now);
    let d = a.opened_tcp(Some((fd, sndbuf)), key, syn, now);
    laws::lemma_read_on(d, now);
    let y = x.resume(Reply::OpenedTcp(Some((fd, sndbuf))), now);
    assert(y == d.proceed(now));
    assert(y.ops =~= seq![
        Op::ArmPoll { id: x.flows.next_id(), fd, events: 4 },
        Op::ArmTapRead { buf: x.tap_buf },
    ]);
}

/// The way of a SYN to the request for its socket.
proof fn lemma_syn_asks(a: State, key: FlowKey, syn: TcpHdr, l4: usize, now: Instant)
    requires
        a.is_idle(),
        a.after is Tap,
        key.proto == 6,
        a.cfg.allow_flow is Some || !key.dst.ip.spec_loopback(),
    ensures
        asks_for_connection(a.new_tcp_flow(key, syn, l4).proceed(now), key, syn, now),
{
}

/// A segment that belongs to no flow and is not just a SYN is dropped, and so
/// is one whose header is not all there.
pub proof fn law_stray_segment_is_dropped(s: State, len: i32, g: GuestFrame, now: Instant)
    requires
        paths::arrived(s, len, g),
        g.proto == 6,
        !paths::is_segment(s, g) || (s.flows.lookup(
            paths::tcp_key(g.dst_ip, paths::message(s, g)),
        ) is None && paths::message(s, g)[13] & 0x16 != 2),
    ensures
        paths::dropped(s, s.complete(TAP_UD, len, now)),
{
    let l4 = paths::message(s, g);
    let a = paths::looked_at(s, len, g);
    paths::lemma_looked_at(s, len, g);
    paths::lemma_dispatch(s, len, g, now);
    paths::lemma_dropped(s, len, g, now);
    assert(paths::message(a, g) == l4);
    if paths::is_segment(s, g) {
        paths::lemma_segment(a, g, now);
    } else {
        assert(TcpHdr::spec_parse(l4) is None);
    }
    assert(0x02u8 | 0x10u8 | 0x04u8 == 0x16u8) by (bit_vector);
    assert(a.handle_tcp(g, now) == a);
}

} // verus!
