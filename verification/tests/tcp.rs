use presto_pasta::proto::tcp::TcpHdr;
use presto_pasta::proto::{TCP_ACK, TCP_FIN, TCP_PSH, TCP_RST, TCP_SYN};
use presto_pasta::tcp::{
    FinState, Next, Push, Space, Tcp, TcpState, Verdict, FRAME_LEN, TCP_ISN, TCP_MAX_PAYLOAD,
};

fn hdr(flags: u8, seq: u32, ack: u32, window: u16) -> TcpHdr {
    TcpHdr {
        src_port: 40000,
        dst_port: 80,
        seq,
        ack,
        header_len: 20,
        flags,
        window,
        mss: Some(1460),
        wscale: Some(7),
    }
}

/// An established flow with `buffered` bytes in the ring, `sent` of them
/// in flight.
fn established(buffered: u32, sent: u32) -> Tcp {
    let mut t = Tcp::connecting(&hdr(TCP_SYN, 99, 0, 64), 100_000, 5);
    t.state = TcpState::Established;
    t.seq_una = 1000;
    t.buffered = buffered;
    t.sent_unacked = sent;
    t.guest_window = 20_000;
    t
}

#[test]
fn connecting_takes_over_the_syn() {
    let t = Tcp::connecting(&hdr(TCP_SYN, u32::MAX, 0, 64), 100_000, 5);
    assert_eq!(t.state, TcpState::Connecting);
    assert_eq!(t.seq_from_guest, 0);
    assert_eq!(t.seq_una, TCP_ISN);
    assert_eq!(t.guest_window, 64);
    assert_eq!(t.guest_wscale, Some(7));
    assert_eq!(t.guest_mss, 1460);
    assert_eq!(t.sndbuf, 100_000);
    assert_eq!(t.last_progress, 5);
    let plain = TcpHdr { mss: None, wscale: Some(200), ..hdr(TCP_SYN, 1, 0, 64) };
    let t = Tcp::connecting(&plain, 1, 5);
    assert_eq!(t.guest_mss, 536);
    assert_eq!(t.guest_wscale, Some(14));
    let zero = TcpHdr { mss: Some(0), ..plain };
    assert_eq!(Tcp::connecting(&zero, 1, 5).guest_mss, 536);
}

#[test]
fn verdicts() {
    let mut t = established(0, 0);
    assert_eq!(t.verdict(TCP_ACK), Verdict::Process);
    assert_eq!(t.verdict(TCP_RST | TCP_ACK), Verdict::Close);
    assert_eq!(t.verdict(TCP_SYN), Verdict::SynAck);
    t.sent_unacked = 1;
    t.buffered = 1;
    assert_eq!(t.verdict(TCP_SYN), Verdict::Ignore);
    t.state = TcpState::Connecting;
    assert_eq!(t.verdict(TCP_SYN), Verdict::Ignore);
    assert_eq!(t.verdict(TCP_RST), Verdict::Close);
}

#[test]
fn ack_releases_a_prefix() {
    let mut t = established(500, 300);
    t.buf_head = FRAME_LEN - 50;
    assert!(!t.ack(&hdr(TCP_ACK, 0, 1100, 2), true, 77));
    assert_eq!(t.seq_una, 1100);
    assert_eq!(t.sent_unacked, 200);
    assert_eq!(t.buffered, 400);
    assert_eq!(t.buf_head, 50);
    assert_eq!(t.guest_window, 256);
    assert_eq!(t.last_progress, 77);
    assert_eq!(t.host_fin, FinState::NotSent);
}

#[test]
fn ack_of_everything_with_fin() {
    let mut t = established(300, 300);
    t.host_fin = FinState::Sent;
    t.seq_una = u32::MAX - 99;
    assert!(!t.ack(&hdr(TCP_ACK, 0, 201, 2), true, 77));
    assert_eq!(t.sent_unacked, 0);
    assert_eq!(t.buffered, 0);
    assert_eq!(t.seq_una, 200);
    assert_eq!(t.host_fin, FinState::Acked);
}

#[test]
fn stray_acks_change_nothing_but_the_window() {
    for ack in [999, 1301] {
        let mut t = established(500, 300);
        assert!(!t.ack(&hdr(TCP_ACK, 0, ack, 3), true, 77));
        assert_eq!((t.seq_una, t.sent_unacked, t.buffered), (1000, 300, 500));
        assert_eq!(t.guest_window, 384);
        assert_eq!(t.last_progress, 5);
    }
}

#[test]
fn third_duplicate_ack_rewinds() {
    let mut t = established(500, 300);
    t.guest_window = 256;
    let dup = hdr(TCP_ACK, 0, 1000, 2);
    assert!(!t.ack(&dup, true, 7));
    assert!(!t.ack(&dup, true, 7));
    assert_eq!(t.dup_acks, 2);
    assert!(t.ack(&dup, true, 7));
    assert_eq!((t.dup_acks, t.sent_unacked, t.buffered), (0, 0, 500));
    assert_eq!(t.next_seq(), 1000);
}

#[test]
fn what_is_no_duplicate_ack() {
    let mut t = established(500, 300);
    t.guest_window = 256;
    t.dup_acks = 2;
    // Window update, payload, FIN.
    assert!(!t.ack(&hdr(TCP_ACK, 0, 1000, 3), true, 7));
    assert!(!t.ack(&hdr(TCP_ACK, 0, 1000, 3), false, 7));
    assert!(!t.ack(&hdr(TCP_ACK | TCP_FIN, 0, 1000, 3), true, 7));
    assert_eq!(t.dup_acks, 2);
    // Nothing in flight.
    t.sent_unacked = 0;
    assert!(!t.ack(&hdr(TCP_ACK, 0, 1000, 3), true, 7));
    assert_eq!(t.dup_acks, 2);
}

#[test]
fn rewind_starts_over() {
    let mut t = established(500, 300);
    t.dup_acks = 1;
    t.rewind(42);
    assert_eq!((t.sent_unacked, t.dup_acks, t.last_progress), (0, 0, 42));
    assert_eq!(t.buffered, 500);
    assert_eq!(t.next_seq(), t.seq_una);
}

#[test]
fn every_second_segment_is_acked() {
    let mut t = established(0, 0);
    assert_eq!(t.seq_from_guest, 100);
    let r = t.take(TCP_ACK, 100, 50, 50);
    assert!(r.deferred && !r.ack && !r.shutdown);
    assert_eq!(t.seq_from_guest, 150);
    let r = t.take(TCP_ACK, 150, 50, 50);
    assert!(!r.deferred && r.ack);
    assert!(!t.ack_deferred);
    assert_eq!(t.seq_from_guest, 200);
}

#[test]
fn pushed_partial_and_stray_segments_are_acked_at_once() {
    let mut t = established(0, 0);
    assert!(t.take(TCP_ACK | TCP_PSH, 100, 50, 50).ack);
    assert!(t.take(TCP_ACK, 150, 50, 20).ack);
    assert_eq!(t.seq_from_guest, 170);
    // Out of order: nothing was offered to the socket.
    assert!(t.take(TCP_ACK, 500, 50, 0).ack);
    assert_eq!(t.seq_from_guest, 170);
    // A bare ack needs no answer.
    let r = t.take(TCP_ACK, 170, 0, 0);
    assert!(!r.ack && !r.deferred && !r.shutdown);
}

#[test]
fn guest_fin() {
    let mut t = established(0, 0);
    // Not before all its data is taken.
    let r = t.take(TCP_ACK | TCP_FIN, 100, 10, 4);
    assert!(r.ack && !r.shutdown);
    assert_eq!(t.seq_from_guest, 104);
    let r = t.take(TCP_ACK | TCP_FIN, 104, 6, 6);
    assert!(r.ack && r.shutdown);
    assert!(t.guest_fin_received);
    assert_eq!(t.seq_from_guest, 111);
    // Only once.
    let r = t.take(TCP_ACK | TCP_FIN, 111, 0, 0);
    assert!(!r.shutdown);
    assert_eq!(t.seq_from_guest, 111);
}

#[test]
fn when_data_moves() {
    let mut t = established(0, 0);
    assert_eq!(t.push(), Push::Fill);
    t.poll_armed = true;
    assert_eq!(t.push(), Push::Skip);
    t.buffered = 1;
    assert_eq!(t.push(), Push::Fill);
    t.guest_window = 0;
    assert_eq!(t.push(), Push::WindowFull);
    t.host_fin = FinState::Sent;
    assert_eq!(t.push(), Push::Skip);
    t.host_fin = FinState::NotSent;
    t.state = TcpState::Connecting;
    assert_eq!(t.push(), Push::Skip);
}

#[test]
fn ring_space() {
    let mut t = established(0, 0);
    let n = FRAME_LEN as usize;
    assert_eq!(t.space(), Some(Space { wpos: 0, first: n, second: 0 }));
    t.buffered = 100;
    t.buf_head = 50;
    assert_eq!(t.space(), Some(Space { wpos: 150, first: n - 150, second: 50 }));
    t.buf_head = FRAME_LEN - 60;
    assert_eq!(t.space(), Some(Space { wpos: 40, first: n - 100, second: 0 }));
    t.buffered = FRAME_LEN;
    assert_eq!(t.space(), None);
    t.buffered = 0;
    t.host_eof = true;
    assert_eq!(t.space(), None);
}

#[test]
fn filling() {
    let mut t = established(100, 0);
    assert!(t.fill(50));
    assert_eq!(t.buffered, 150);
    assert!(!t.fill(FRAME_LEN as usize - 150));
    assert_eq!(t.buffered, FRAME_LEN);
    let mut t = established(100, 0);
    assert!(!t.fill(0));
    assert!(t.host_eof);
    assert_eq!(t.buffered, 100);
}

#[test]
fn what_follows_a_fill() {
    let mut t = established(100, 50);
    assert_eq!(t.next(true), Next::Send);
    t.sent_unacked = 100;
    assert_eq!(t.next(true), Next::Arm);
    assert_eq!(t.next(false), Next::Rest);
    t.poll_armed = true;
    assert_eq!(t.next(true), Next::Rest);
    t.host_eof = true;
    assert_eq!(t.next(false), Next::Rest);
    t.buffered = 0;
    t.sent_unacked = 0;
    assert_eq!(t.next(false), Next::Fin);
}

#[test]
fn bursts() {
    // Without TSO: MSS-sized frames, cut by the window.
    let mut t = established(5000, 1000);
    t.guest_window = 4000;
    let b = t.burst(false);
    assert_eq!((b.send_len, b.chunk, b.gso, b.short), (3000, 1460, false, true));
    // With TSO: one super-frame.
    let b = t.burst(true);
    assert_eq!((b.send_len, b.chunk, b.gso), (3000, 3000, true));
    t.guest_window = 500_000;
    let b = t.burst(true);
    assert_eq!((b.send_len, b.short), (4000, false));
    // A super-frame is capped by the IP length field.
    let mut t = established(200_000, 0);
    t.guest_window = 500_000;
    assert_eq!(t.burst(true).chunk, TCP_MAX_PAYLOAD);
    t.guest_mss = 65_500;
    assert_eq!(t.burst(false).chunk, TCP_MAX_PAYLOAD);
    // What fits one MSS needs no resegmentation.
    let b = established(1460, 0).burst(true);
    assert_eq!((b.send_len, b.chunk, b.gso), (1460, 1460, false));
    // A window below what is in flight admits nothing.
    let mut t = established(500, 300);
    t.guest_window = 100;
    assert_eq!(t.burst(true).send_len, 0);
}

#[test]
fn frames_of_a_burst() {
    let mut t = established(3000, 40);
    t.buf_head = FRAME_LEN - 1000;
    t.seq_una = u32::MAX - 9;
    let b = t.burst(false);
    assert_eq!((b.send_len, b.chunk), (2960, 1460));
    let p = t.piece(&b, 0);
    assert_eq!((p.seq, p.pos, p.first, p.second), (30, FRAME_LEN as usize - 960, 960, 500));
    let p = t.piece(&b, 1460);
    assert_eq!((p.seq, p.pos, p.first, p.second), (1490, 500, 1460, 0));
    let p = t.piece(&b, 2920);
    assert_eq!((p.seq, p.pos, p.first, p.second), (2950, 1960, 40, 0));
    t.mark_sent(&b, 9);
    assert_eq!((t.sent_unacked, t.last_progress), (3000, 9));
}

#[test]
fn windows() {
    let mut t = established(0, 0);
    assert_eq!(t.window(None), 0);
    assert_eq!(t.window(Some(0)), 781); // 100000 / 128
    assert_eq!(t.window(Some(-5)), 781);
    assert_eq!(t.window(Some(99_900)), 0);
    assert_eq!(t.window(Some(200_000)), 0);
    assert_eq!(t.syn_window(), 65_535);
    t.sndbuf = 30_000;
    assert_eq!(t.syn_window(), 30_000);
    t.guest_wscale = None;
    assert_eq!(t.window(Some(1_000)), 29_000);
    t.sndbuf = 100_000;
    assert_eq!(t.window(Some(0)), 65_535);
}

#[test]
fn finished_needs_both_directions() {
    let mut t = established(0, 0);
    assert!(!t.finished());
    t.host_fin = FinState::Acked;
    assert!(!t.finished());
    t.guest_fin_received = true;
    assert!(t.finished());
    t.host_fin = FinState::Sent;
    assert!(!t.finished());
}
