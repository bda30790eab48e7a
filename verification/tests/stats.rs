use presto_pasta::stats::Stats;
use presto_pasta::uring::state::Counter;

#[test]
fn counters_add_up() {
    let mut s = Stats::new();
    s.wakeup(3);
    s.wakeup(0);
    s.tap_in(100);
    s.tap_in(50);
    s.tap_out(7);
    s.tcp_ctrl();
    s.ack_deferred();
    s.sock_send(10, 15);
    s.sock_recv(true);
    s.sock_recv(false);
    s.guest_window(500);
    s.guest_window(200);
    s.window_full();
    s.budget_short();
    s.dup_ack_retransmit();
    s.rto_retransmit();
    s.flow_evicted();
    let want = Stats {
        wakeups: 2,
        cqes: 3,
        tap_frames_in: 2,
        tap_bytes_in: 150,
        tap_frames_out: 1,
        tap_bytes_out: 7,
        tcp_ctrl_frames: 1,
        acks_deferred: 1,
        sock_sends: 1,
        sock_send_bytes: 10,
        sock_send_shortfall: 5,
        sock_recvs: 2,
        sock_recvs_empty: 1,
        guest_window_last: 200,
        guest_window_max: 500,
        window_full: 1,
        budget_short: 1,
        dup_ack_retransmits: 1,
        rto_retransmits: 1,
        flows_evicted: 1,
    };
    assert_eq!(s, want);
    let r = s.dump();
    assert_eq!(r.counters, want);
    assert_eq!(r.per, 2);
    assert_eq!(Stats::default().dump().per, 1);
}

#[test]
fn full_empty_counter_takes_other_reads() {
    let mut s = Stats { sock_recvs_empty: u64::MAX, ..Stats::new() };
    s.sock_recv(false);
    assert_eq!((s.sock_recvs, s.sock_recvs_empty), (1, u64::MAX));
}

#[test]
fn notes_reach_their_counter() {
    let mut a = Stats::new();
    let mut b = Stats::new();
    a.note(Counter::TapIn(4));
    b.tap_in(4);
    a.note(Counter::TapOut(5));
    b.tap_out(5);
    a.note(Counter::TcpCtrl);
    b.tcp_ctrl();
    a.note(Counter::AckDeferred);
    b.ack_deferred();
    a.note(Counter::SockSend { accepted: 1, wanted: 3 });
    b.sock_send(1, 3);
    a.note(Counter::SockRecv { empty: true });
    b.sock_recv(true);
    a.note(Counter::GuestWindow(9));
    b.guest_window(9);
    a.note(Counter::WindowFull);
    b.window_full();
    a.note(Counter::BudgetShort);
    b.budget_short();
    a.note(Counter::DupAckRetransmit);
    b.dup_ack_retransmit();
    a.note(Counter::RtoRetransmit);
    b.rto_retransmit();
    a.note(Counter::FlowEvicted);
    b.flow_evicted();
    a.note(Counter::Dump);
    assert_eq!(a, b);
}

#[test]
fn room_runs_out() {
    let mut s = Stats { tap_bytes_out: u64::MAX - 4, ..Stats::new() };
    assert!(s.has_room_for(Counter::TapOut(4)));
    assert!(!s.has_room_for(Counter::TapOut(5)));
    s.note(Counter::TapOut(4));
    assert_eq!(s.tap_bytes_out, u64::MAX);
    // A full counter is in the way of its own events only.
    assert!(!s.has_room_for(Counter::TapOut(1)));
    assert!(s.has_room_for(Counter::TapIn(1)));
    s.sock_recvs_empty = u64::MAX;
    assert!(s.has_room_for(Counter::SockRecv { empty: false }));
    assert!(!s.has_room_for(Counter::SockRecv { empty: true }));
    s.sock_send_shortfall = u64::MAX;
    assert!(s.has_room_for(Counter::SockSend { accepted: 3, wanted: 3 }));
    assert!(!s.has_room_for(Counter::SockSend { accepted: 2, wanted: 3 }));
    assert!(!s.has_room_for(Counter::SockSend { accepted: 4, wanted: 3 }));
    assert!(s.has_room_for(Counter::GuestWindow(1)) && s.has_room_for(Counter::Dump));
    s.flows_evicted = u64::MAX;
    assert!(!s.has_room_for(Counter::FlowEvicted));
}
