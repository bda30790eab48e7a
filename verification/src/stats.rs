//! Datapath counters for benchmarking.

use vstd::prelude::*;

use crate::uring::state::Counter;

verus! {

/// Event-loop counters.
#[derive(Debug, Clone, Copy, PartialEq, Eq, Structural)]
pub struct Stats {
    pub wakeups: u64,
    pub cqes: u64,
    pub tap_frames_in: u64,
    pub tap_bytes_in: u64,
    pub tap_frames_out: u64,
    pub tap_bytes_out: u64,
    pub tcp_ctrl_frames: u64,
    pub acks_deferred: u64,
    pub sock_sends: u64,
    pub sock_send_bytes: u64,
    pub sock_send_shortfall: u64,
    pub sock_recvs: u64,
    pub sock_recvs_empty: u64,
    pub guest_window_last: u64,
    pub guest_window_max: u64,
    pub window_full: u64,
    pub budget_short: u64,
    pub dup_ack_retransmits: u64,
    pub rto_retransmits: u64,
    pub flows_evicted: u64,
}

/// What is reported of the counters.
#[derive(Debug, Clone, Copy, PartialEq, Eq, Structural)]
pub struct Report {
    pub counters: Stats,
    /// What per-wakeup averages are taken over: the wakeups, at least one.
    pub per: u64,
}

impl Default for Stats {
    fn default() -> (r: Self)
        ensures
            r == Stats::zero(),
    {
        Stats::new()
    }
}

impl Stats {
    /// No events yet.
    pub open spec fn zero() -> Stats {
        Stats {
            wakeups: 0,
            cqes: 0,
            tap_frames_in: 0,
            tap_bytes_in: 0,
            tap_frames_out: 0,
            tap_bytes_out: 0,
            tcp_ctrl_frames: 0,
            acks_deferred: 0,
            sock_sends: 0,
            sock_send_bytes: 0,
            sock_send_shortfall: 0,
            sock_recvs: 0,
            sock_recvs_empty: 0,
            guest_window_last: 0,
            guest_window_max: 0,
            window_full: 0,
            budget_short: 0,
            dup_ack_retransmits: 0,
            rto_retransmits: 0,
            flows_evicted: 0,
        }
    }

    #[must_use]
    pub fn new() -> (r: Self)
        ensures
            r == Stats::zero(),
    {
        Stats {
            wakeups: 0,
            cqes: 0,
            tap_frames_in: 0,
            tap_bytes_in: 0,
            tap_frames_out: 0,
            tap_bytes_out: 0,
            tcp_ctrl_frames: 0,
            acks_deferred: 0,
            sock_sends: 0,
            sock_send_bytes: 0,
            sock_send_shortfall: 0,
            sock_recvs: 0,
            sock_recvs_empty: 0,
            guest_window_last: 0,
            guest_window_max: 0,
            window_full: 0,
            budget_short: 0,
            dup_ack_retransmits: 0,
            rto_retransmits: 0,
            flows_evicted: 0,
        }
    }

    pub fn wakeup(&mut self, cqes: usize)
        requires
            old(self).wakeups < u64::MAX,
            old(self).cqes + cqes <= u64::MAX,
        ensures
            *final(self) == (Stats {
                wakeups: (old(self).wakeups + 1) as u64,
                cqes: (old(self).cqes + cqes) as u64,
                ..*old(self)
            }),
    {
        self.wakeups = self.wakeups + 1;
        self.cqes = self.cqes + cqes as u64;
    }

    pub fn tap_in(&mut self, len: usize)
        requires
            old(self).tap_frames_in < u64::MAX,
            old(self).tap_bytes_in + len <= u64::MAX,
        ensures
            *final(self) == (Stats {
                tap_frames_in: (old(self).tap_frames_in + 1) as u64,
                tap_bytes_in: (old(self).tap_bytes_in + len) as u64,
                ..*old(self)
            }),
    {
        self.tap_frames_in = self.tap_frames_in + 1;
        self.tap_bytes_in = self.tap_bytes_in + len as u64;
    }

    pub fn tap_out(&mut self, len: usize)
        requires
            old(self).tap_frames_out < u64::MAX,
            old(self).tap_bytes_out + len <= u64::MAX,
        ensures
            *final(self) == (Stats {
                tap_frames_out: (old(self).tap_frames_out + 1) as u64,
                tap_bytes_out: (old(self).tap_bytes_out + len) as u64,
                ..*old(self)
            }),
    {
        self.tap_frames_out = self.tap_frames_out + 1;
        self.tap_bytes_out = self.tap_bytes_out + len as u64;
    }

    pub fn tcp_ctrl(&mut self)
        requires
            old(self).tcp_ctrl_frames < u64::MAX,
        ensures
            *final(self) == (Stats {
                tcp_ctrl_frames: (old(self).tcp_ctrl_frames + 1) as u64,
                ..*old(self)
            }),
    {
        self.tcp_ctrl_frames = self.tcp_ctrl_frames + 1;
    }

    pub fn ack_deferred(&mut self)
        requires
            old(self).acks_deferred < u64::MAX,
        ensures
            *final(self) == (Stats {
                acks_deferred: (old(self).acks_deferred + 1) as u64,
                ..*old(self)
            }),
    {
        self.acks_deferred = self.acks_deferred + 1;
    }

    pub fn sock_send(&mut self, accepted: usize, wanted: usize)
        requires
            accepted <= wanted,
            old(self).sock_sends < u64::MAX,
            old(self).sock_send_bytes + accepted <= u64::MAX,
            old(self).sock_send_shortfall + (wanted - accepted) <= u64::MAX,
        ensures
            *final(self) == (Stats {
                sock_sends: (old(self).sock_sends + 1) as u64,
                sock_send_bytes: (old(self).sock_send_bytes + accepted) as u64,
                sock_send_shortfall: (old(self).sock_send_shortfall + (wanted - accepted)) as u64,
                ..*old(self)
            }),
    {
        self.sock_sends = self.sock_sends + 1;
        self.sock_send_bytes = self.sock_send_bytes + accepted as u64;
        self.sock_send_shortfall = self.sock_send_shortfall + (wanted - accepted) as u64;
    }

    pub fn sock_recv(&mut self, empty: bool)
        requires
            old(self).sock_recvs < u64::MAX,
            empty ==> old(self).sock_recvs_empty < u64::MAX,
        ensures
            *final(self) == (Stats {
                sock_recvs: (old(self).sock_recvs + 1) as u64,
                sock_recvs_empty: if empty {
                    (old(self).sock_recvs_empty + 1) as u64
                } else {
                    old(self).sock_recvs_empty
                },
                ..*old(self)
            }),
    {
        self.sock_recvs = self.sock_recvs + 1;
        if empty {
            self.sock_recvs_empty = self.sock_recvs_empty + 1;
        }
    }

    pub fn guest_window(&mut self, window: u32)
        ensures
            *final(self) == (Stats {
                guest_window_last: window as u64,
                guest_window_max: if old(self).guest_window_max >= window {
                    old(self).guest_window_max
                } else {
                    window as u64
                },
                ..*old(self)
            }),
    {
        self.guest_window_last = window as u64;
        if self.guest_window_max < window as u64 {
            self.guest_window_max = window as u64;
        }
    }

    pub fn window_full(&mut self)
        requires
            old(self).window_full < u64::MAX,
        ensures
            *final(self) == (Stats {
                window_full: (old(self).window_full + 1) as u64,
                ..*old(self)
            }),
    {
        self.window_full = self.window_full + 1;
    }

    pub fn budget_short(&mut self)
        requires
            old(self).budget_short < u64::MAX,
        ensures
            *final(self) == (Stats {
                budget_short: (old(self).budget_short + 1) as u64,
                ..*old(self)
            }),
    {
        self.budget_short = self.budget_short + 1;
    }

    pub fn dup_ack_retransmit(&mut self)
        requires
            old(self).dup_ack_retransmits < u64::MAX,
        ensures
            *final(self) == (Stats {
                dup_ack_retransmits: (old(self).dup_ack_retransmits + 1) as u64,
                ..*old(self)
            }),
    {
        self.dup_ack_retransmits = self.dup_ack_retransmits + 1;
    }

    pub fn rto_retransmit(&mut self)
        requires
            old(self).rto_retransmits < u64::MAX,
        ensures
            *final(self) == (Stats {
                rto_retransmits: (old(self).rto_retransmits + 1) as u64,
                ..*old(self)
            }),
    {
        self.rto_retransmits = self.rto_retransmits + 1;
    }

    pub fn flow_evicted(&mut self)
        requires
            old(self).flows_evicted < u64::MAX,
        ensures
            *final(self) == (Stats {
                flows_evicted: (old(self).flows_evicted + 1) as u64,
                ..*old(self)
            }),
    {
        self.flows_evicted = self.flows_evicted + 1;
    }

    /// The counters accumulated so far, to be printed.
    #[must_use]
    pub fn dump(&self) -> (r: Report)
        ensures
            r.counters == *self,
            r.per == (if self.wakeups > 0 {
                self.wakeups
            } else {
                1
            }),
    {
        Report {
            counters: *self,
            per: if self.wakeups > 0 {
                self.wakeups
            } else {
                1
            },
        }
    }

    /// The counters that an event moves can take it.
    pub open spec fn spec_has_room_for(self, c: Counter) -> bool {
        match c {
            Counter::TapIn(n) => self.tap_frames_in < u64::MAX && self.tap_bytes_in + n
                <= u64::MAX,
            Counter::TapOut(n) => self.tap_frames_out < u64::MAX && self.tap_bytes_out + n
                <= u64::MAX,
            Counter::TcpCtrl => self.tcp_ctrl_frames < u64::MAX,
            Counter::AckDeferred => self.acks_deferred < u64::MAX,
            Counter::SockSend { accepted, wanted } => {
                &&& accepted <= wanted
                &&& self.sock_sends < u64::MAX
                &&& self.sock_send_bytes + accepted <= u64::MAX
                &&& self.sock_send_shortfall + (wanted - accepted) <= u64::MAX
            },
            Counter::SockRecv { empty } => self.sock_recvs < u64::MAX && (empty
                ==> self.sock_recvs_empty < u64::MAX),
            Counter::GuestWindow(_) => true,
            Counter::WindowFull => self.window_full < u64::MAX,
            Counter::BudgetShort => self.budget_short < u64::MAX,
            Counter::DupAckRetransmit => self.dup_ack_retransmits < u64::MAX,
            Counter::RtoRetransmit => self.rto_retransmits < u64::MAX,
            Counter::FlowEvicted => self.flows_evicted < u64::MAX,
            Counter::Dump => true,
        }
    }

    /// Whether the counters that an event moves can take it.
    #[must_use]
    pub fn has_room_for(&self, c: Counter) -> (r: bool)
        ensures
            r == self.spec_has_room_for(c),
    {
        match c {
            Counter::TapIn(n) => self.tap_frames_in < u64::MAX && self.tap_bytes_in <= u64::MAX
                - n as u64,
            Counter::TapOut(n) => self.tap_frames_out < u64::MAX && self.tap_bytes_out
                <= u64::MAX - n as u64,
            Counter::TcpCtrl => self.tcp_ctrl_frames < u64::MAX,
            Counter::AckDeferred => self.acks_deferred < u64::MAX,
            Counter::SockSend { accepted, wanted } => accepted <= wanted && self.sock_sends
                < u64::MAX && self.sock_send_bytes <= u64::MAX - accepted as u64
                && self.sock_send_shortfall <= u64::MAX - (wanted - accepted) as u64,
            Counter::SockRecv { empty } => self.sock_recvs < u64::MAX && (!empty
                || self.sock_recvs_empty < u64::MAX),
            Counter::GuestWindow(_) => true,
            Counter::WindowFull => self.window_full < u64::MAX,
            Counter::BudgetShort => self.budget_short < u64::MAX,
            Counter::DupAckRetransmit => self.dup_ack_retransmits < u64::MAX,
            Counter::RtoRetransmit => self.rto_retransmits < u64::MAX,
            Counter::FlowEvicted => self.flows_evicted < u64::MAX,
            Counter::Dump => true,
        }
    }

    /// The counters after an event.
    pub open spec fn noted(self, c: Counter) -> Stats {
        match c {
            Counter::TapIn(n) => Stats {
                tap_frames_in: (self.tap_frames_in + 1) as u64,
                tap_bytes_in: (self.tap_bytes_in + n) as u64,
                ..self
            },
            Counter::TapOut(n) => Stats {
                tap_frames_out: (self.tap_frames_out + 1) as u64,
                tap_bytes_out: (self.tap_bytes_out + n) as u64,
                ..self
            },
            Counter::TcpCtrl => Stats {
                tcp_ctrl_frames: (self.tcp_ctrl_frames + 1) as u64,
                ..self
            },
            Counter::AckDeferred => Stats {
                acks_deferred: (self.acks_deferred + 1) as u64,
                ..self
            },
            Counter::SockSend { accepted, wanted } => Stats {
                sock_sends: (self.sock_sends + 1) as u64,
                sock_send_bytes: (self.sock_send_bytes + accepted) as u64,
                sock_send_shortfall: (self.sock_send_shortfall + (wanted - accepted)) as u64,
                ..self
            },
            Counter::SockRecv { empty } => Stats {
                sock_recvs: (self.sock_recvs + 1) as u64,
                sock_recvs_empty: if empty {
                    (self.sock_recvs_empty + 1) as u64
                } else {
                    self.sock_recvs_empty
                },
                ..self
            },
            Counter::GuestWindow(w) => Stats {
                guest_window_last: w as u64,
                guest_window_max: if self.guest_window_max >= w {
                    self.guest_window_max
                } else {
                    w as u64
                },
                ..self
            },
            Counter::WindowFull => Stats { window_full: (self.window_full + 1) as u64, ..self },
            Counter::BudgetShort => Stats { budget_short: (self.budget_short + 1) as u64, ..self },
            Counter::DupAckRetransmit => Stats {
                dup_ack_retransmits: (self.dup_ack_retransmits + 1) as u64,
                ..self
            },
            Counter::RtoRetransmit => Stats {
                rto_retransmits: (self.rto_retransmits + 1) as u64,
                ..self
            },
            Counter::FlowEvicted => Stats { flows_evicted: (self.flows_evicted + 1) as u64, ..self },
            Counter::Dump => self,
        }
    }

    /// Take note of an event of the loop.
    pub fn note(&mut self, c: Counter)
        requires
            old(self).spec_has_room_for(c),
        ensures
            *final(self) == old(self).noted(c),
    {
        match c {
            Counter::TapIn(n) => self.tap_in(n),
            Counter::TapOut(n) => self.tap_out(n),
            Counter::TcpCtrl => self.tcp_ctrl(),
            Counter::AckDeferred => self.ack_deferred(),
            Counter::SockSend { accepted, wanted } => self.sock_send(accepted, wanted),
            Counter::SockRecv { empty } => self.sock_recv(empty),
            Counter::GuestWindow(w) => self.guest_window(w),
            Counter::WindowFull => self.window_full(),
            Counter::BudgetShort => self.budget_short(),
            Counter::DupAckRetransmit => self.dup_ack_retransmit(),
            Counter::RtoRetransmit => self.rto_retransmit(),
            Counter::FlowEvicted => self.flow_evicted(),
            Counter::Dump => {},
        }
    }
}

/// Each event moves its own counters and no others, by as much as happened.
pub proof fn law_noted(s: Stats, n: usize, m: usize, w: u32, c: Counter)
    ensures
        s.spec_has_room_for(Counter::TapIn(n)) ==> {
            let t = s.noted(Counter::TapIn(n));
            &&& t.tap_frames_in == s.tap_frames_in + 1 && t.tap_bytes_in == s.tap_bytes_in + n
            &&& t == (Stats { tap_frames_in: t.tap_frames_in, tap_bytes_in: t.tap_bytes_in, ..s })
        },
        s.spec_has_room_for(Counter::TapOut(n)) ==> {
            let t = s.noted(Counter::TapOut(n));
            &&& t.tap_frames_out == s.tap_frames_out + 1 && t.tap_bytes_out == s.tap_bytes_out + n
            &&& t == (Stats {
                tap_frames_out: t.tap_frames_out,
                tap_bytes_out: t.tap_bytes_out,
                ..s
            })
        },
        s.spec_has_room_for(Counter::SockSend { accepted: n, wanted: m }) ==> {
            let t = s.noted(Counter::SockSend { accepted: n, wanted: m });
            &&& t.sock_sends == s.sock_sends + 1
            &&& t.sock_send_bytes == s.sock_send_bytes + n
            &&& t.sock_send_shortfall == s.sock_send_shortfall + m - n
            &&& t == (Stats {
                sock_sends: t.sock_sends,
                sock_send_bytes: t.sock_send_bytes,
                sock_send_shortfall: t.sock_send_shortfall,
                ..s
            })
        },
        s.spec_has_room_for(Counter::SockRecv { empty: true }) ==> {
            let t = s.noted(Counter::SockRecv { empty: true });
            &&& t.sock_recvs == s.sock_recvs + 1 && t.sock_recvs_empty == s.sock_recvs_empty + 1
            &&& t == (Stats {
                sock_recvs: t.sock_recvs,
                sock_recvs_empty: t.sock_recvs_empty,
                ..s
            })
        },
        s.spec_has_room_for(Counter::SockRecv { empty: false }) ==> {
            let t = s.noted(Counter::SockRecv { empty: false });
            &&& t.sock_recvs == s.sock_recvs + 1
            &&& t == (Stats { sock_recvs: t.sock_recvs, ..s })
        },
        ({
            let t = s.noted(Counter::GuestWindow(w));
            &&& t.guest_window_last == w && t.guest_window_max >= w
            &&& t.guest_window_max == w || t.guest_window_max == s.guest_window_max
            &&& t.guest_window_max >= s.guest_window_max
            &&& t == (Stats {
                guest_window_last: t.guest_window_last,
                guest_window_max: t.guest_window_max,
                ..s
            })
        }),
        s.noted(Counter::Dump) == s,
{
}

/// The events that are only counted move one counter, by one.
pub proof fn law_counted(s: Stats, c: Counter)
    requires
        s.spec_has_room_for(c),
    ensures
        ({
            let t = s.noted(c);
            match c {
                Counter::TcpCtrl => t.tcp_ctrl_frames == s.tcp_ctrl_frames + 1 && t == (Stats {
                    tcp_ctrl_frames: t.tcp_ctrl_frames,
                    ..s
                }),
                Counter::AckDeferred => t.acks_deferred == s.acks_deferred + 1 && t == (Stats {
                    acks_deferred: t.acks_deferred,
                    ..s
                }),
                Counter::WindowFull => t.window_full == s.window_full + 1 && t == (Stats {
                    window_full: t.window_full,
                    ..s
                }),
                Counter::BudgetShort => t.budget_short == s.budget_short + 1 && t == (Stats {
                    budget_short: t.budget_short,
                    ..s
                }),
                Counter::DupAckRetransmit => t.dup_ack_retransmits == s.dup_ack_retransmits + 1
                    && t == (Stats { dup_ack_retransmits: t.dup_ack_retransmits, ..s }),
                Counter::RtoRetransmit => t.rto_retransmits == s.rto_retransmits + 1 && t
                    == (Stats { rto_retransmits: t.rto_retransmits, ..s }),
                Counter::FlowEvicted => t.flows_evicted == s.flows_evicted + 1 && t == (Stats {
                    flows_evicted: t.flows_evicted,
                    ..s
                }),
                _ => true,
            }
        }),
{
}

} // verus!
