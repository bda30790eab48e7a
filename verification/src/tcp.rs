//! TCP state of a flow towards the guest.
//!
//! The host kernel runs the real TCP stack; what is kept here is the
//! guest-facing half: sequence numbers, the guest's window and a ring of
//! bytes that were read from the host socket and not yet acknowledged by
//! the guest.

use vstd::arithmetic::power2;
use vstd::arithmetic::power2::pow2;
use vstd::prelude::*;

use crate::buf;
use crate::flow::Instant;
use crate::proto;
use crate::proto::tcp::TcpHdr;

verus! {

/// Initial sequence number towards the guest. The tap is a private
/// point-to-point link, so ISN randomization buys nothing.
pub const TCP_ISN: u32 = 0x0001_0000;

/// Window scale we announce when the guest offers scaling.
pub const WINDOW_SHIFT: u8 = 7;

/// MSS we announce; the guest clamps it to its own MTU.
pub const TCP_MSS: u16 = 65_495;

/// Fallback MSS when the guest's SYN carries no MSS option (RFC 9293).
pub const TCP_DEFAULT_MSS: u16 = 536;

/// Largest TCP payload per super-frame: the IP total length field is
/// 16 bits and must also cover IP and TCP headers.
pub const TCP_MAX_PAYLOAD: usize = 65_475;

/// Largest window scale a guest may use (RFC 7323).
pub const MAX_WSCALE: u8 = 14;

/// Ring size of a flow's buffer as `u32`, for head arithmetic.
pub const FRAME_LEN: u32 = 262_144;

/// Whether the host connection is up.
#[derive(Debug, Clone, Copy, PartialEq, Eq, Structural)]
pub enum TcpState {
    Connecting,
    Established,
}

/// Progress of the FIN sent to the guest.
#[derive(Debug, Clone, Copy, PartialEq, Eq, Structural)]
pub enum FinState {
    NotSent,
    Sent,
    Acked,
}

/// Guest-facing state of a TCP flow.
#[derive(Debug, Clone, Copy)]
pub struct Tcp {
    pub state: TcpState,
    /// Next sequence number expected from the guest.
    pub seq_from_guest: u32,
    /// First sequence number towards the guest that is not acknowledged.
    pub seq_una: u32,
    /// Bytes sent to the guest and not yet acknowledged.
    pub sent_unacked: u32,
    /// Window the guest advertised last, scaling applied.
    pub guest_window: u32,
    /// Window scale the guest offered, if any.
    pub guest_wscale: Option<u8>,
    pub guest_mss: u16,
    /// Size of the host socket's send buffer.
    pub sndbuf: u32,
    /// Duplicate acks seen in a row.
    pub dup_acks: u8,
    /// Bytes in the ring, sent or not.
    pub buffered: u32,
    /// Offset of the first buffered byte in the ring.
    pub buf_head: u32,
    /// When data last moved towards the guest.
    pub last_progress: Instant,
    /// The host closed its sending side.
    pub host_eof: bool,
    pub host_fin: FinState,
    pub guest_fin_received: bool,
    /// An in-order segment was accepted and not acknowledged yet.
    pub ack_deferred: bool,
    /// A poll on the host socket is pending.
    pub poll_armed: bool,
}

/// Sequence number `n` bytes after `seq`.
#[verifier::opaque]
pub open spec fn seq_add(seq: u32, n: int) -> u32 {
    ((seq + n) % 0x1_0000_0000) as u32
}

/// Bytes from `from` to `to` in sequence space.
pub open spec fn seq_distance(from: u32, to: u32) -> u32 {
    ((to - from) % 0x1_0000_0000) as u32
}

/// Sequence number `n` bytes after `seq`.
fn seq_plus(seq: u32, n: u32) -> (r: u32)
    ensures
        r == seq_add(seq, n as int),
{
    reveal(seq_add);
    seq.wrapping_add(n)
}

/// Steps in sequence space add up.
pub proof fn lemma_seq_add(seq: u32, m: int, n: int)
    ensures
        seq_add(seq_add(seq, m), n) == seq_add(seq, m + n),
        seq_add(seq, 0) == seq,
{
    reveal(seq_add);
}

/// The window field `window` under the scale `scale`.
pub open spec fn scaled_window(window: u16, scale: Option<u8>) -> nat {
    match scale {
        Some(s) => (window as nat) * pow2(s as nat),
        None => window as nat,
    }
}

/// What becomes of a segment from the guest.
#[derive(Debug, Clone, Copy, PartialEq, Eq, Structural)]
pub enum Verdict {
    /// The guest reset the connection.
    Close,
    /// Nothing to do.
    Ignore,
    /// The SYN-ACK was lost; send it again.
    SynAck,
    /// Process ack, payload and FIN.
    Process,
}

/// What follows from taking a guest segment's payload.
#[derive(Debug, Clone, Copy, PartialEq, Eq, Structural)]
pub struct Taken {
    /// Send an ack now.
    pub ack: bool,
    /// The ack was put off until the next segment.
    pub deferred: bool,
    /// The guest closed its side; shut down the socket for writing.
    pub shutdown: bool,
}

/// Whether data may move towards the guest.
#[derive(Debug, Clone, Copy, PartialEq, Eq, Structural)]
pub enum Push {
    /// Nothing can be sent now.
    Skip,
    /// The guest's window is full.
    WindowFull,
    /// Read from the host socket and send.
    Fill,
}

/// Free space of the ring that a read from the host socket fills: `first`
/// bytes at offset `wpos`, then `second` bytes at the ring's start.
#[derive(Debug, Clone, Copy, PartialEq, Eq, Structural)]
pub struct Space {
    pub wpos: usize,
    pub first: usize,
    pub second: usize,
}

/// What to do once the ring is topped up.
#[derive(Debug, Clone, Copy, PartialEq, Eq, Structural)]
pub enum Next {
    /// Everything was forwarded and acknowledged: forward the host's FIN.
    Fin,
    /// Nothing to send: wait for host data.
    Arm,
    /// Nothing to send, and a poll is pending or not needed.
    Rest,
    /// Send what the window allows.
    Send,
}

/// Data to send in one go: `send_len` bytes in frames of `chunk` bytes.
#[derive(Debug, Clone, Copy, PartialEq, Eq, Structural)]
pub struct Burst {
    pub send_len: usize,
    pub chunk: usize,
    /// The guest resegments each frame at its MSS.
    pub gso: bool,
    /// The window cut the burst short.
    pub short: bool,
}

/// One frame of a burst: `first` bytes of the ring at `pos`, then `second`
/// bytes at the ring's start.
#[derive(Debug, Clone, Copy, PartialEq, Eq, Structural)]
pub struct Piece {
    pub seq: u32,
    pub pos: usize,
    pub first: usize,
    pub second: usize,
}

impl Tcp {
    /// What is in flight is buffered, what is buffered fits the ring, and
    /// the guest's parameters are in range.
    pub open spec fn wf(self) -> bool {
        &&& self.sent_unacked <= self.buffered <= FRAME_LEN
        &&& self.buf_head < FRAME_LEN
        &&& self.guest_mss > 0
        &&& self.guest_wscale matches Some(s) ==> s <= MAX_WSCALE
    }

    /// The buffered bytes, oldest first, in a flow buffer's ring.
    pub open spec fn pending(self, ring: Seq<u8>) -> Seq<u8> {
        Seq::new(self.buffered as nat, |i: int| ring[(self.buf_head + i) % 262_144])
    }

    /// State of a flow whose connect was just started for a guest's SYN. An
    /// announced MSS of zero, which no frame could keep to, counts as none.
    pub open spec fn spec_connecting(syn: TcpHdr, sndbuf: u32, now: Instant) -> Tcp {
        Tcp {
            state: TcpState::Connecting,
            seq_from_guest: seq_add(syn.seq, 1),
            seq_una: TCP_ISN,
            sent_unacked: 0,
            guest_window: syn.window as u32,
            guest_wscale: match syn.wscale {
                Some(s) => Some(
                    if s <= MAX_WSCALE {
                        s
                    } else {
                        MAX_WSCALE
                    },
                ),
                None => None,
            },
            guest_mss: match syn.mss {
                Some(m) => if m > 0 {
                    m
                } else {
                    TCP_DEFAULT_MSS
                },
                None => TCP_DEFAULT_MSS,
            },
            sndbuf,
            dup_acks: 0,
            buffered: 0,
            buf_head: 0,
            last_progress: now,
            host_eof: false,
            host_fin: FinState::NotSent,
            guest_fin_received: false,
            ack_deferred: false,
            poll_armed: false,
        }
    }

    /// State of a flow whose connect was just started for a guest's SYN. An
    /// announced MSS of zero, which no frame could keep to, counts as none.
    pub fn connecting(syn: &TcpHdr, sndbuf: u32, now: Instant) -> (r: Tcp)
        ensures
            r == Tcp::spec_connecting(*syn, sndbuf, now),
            r.wf(),
    {
        Tcp {
            state: TcpState::Connecting,
            seq_from_guest: seq_plus(syn.seq, 1),
            seq_una: TCP_ISN,
            sent_unacked: 0,
            guest_window: syn.window as u32,
            guest_wscale: match syn.wscale {
                // Clamp to the RFC 7323 maximum so shifting stays sound.
                Some(s) => Some(
                    if s <= MAX_WSCALE {
                        s
                    } else {
                        MAX_WSCALE
                    },
                ),
                None => None,
            },
            guest_mss: match syn.mss {
                Some(m) => if m > 0 {
                    m
                } else {
                    TCP_DEFAULT_MSS
                },
                None => TCP_DEFAULT_MSS,
            },
            sndbuf,
            dup_acks: 0,
            buffered: 0,
            buf_head: 0,
            last_progress: now,
            host_eof: false,
            host_fin: FinState::NotSent,
            guest_fin_received: false,
            ack_deferred: false,
            poll_armed: false,
        }
    }

    /// What becomes of a guest segment with these flags.
    pub open spec fn spec_verdict(self, flags: u8) -> Verdict {
        if flags & proto::TCP_RST != 0 {
            Verdict::Close
        } else if self.state == TcpState::Connecting {
            Verdict::Ignore
        } else if flags & proto::TCP_SYN != 0 {
            if self.sent_unacked == 0 {
                Verdict::SynAck
            } else {
                Verdict::Ignore
            }
        } else {
            Verdict::Process
        }
    }

    /// What becomes of a guest segment with these flags.
    pub fn verdict(&self, flags: u8) -> (r: Verdict)
        ensures
            r == self.spec_verdict(flags),
    {
        if flags & proto::TCP_RST != 0 {
            return Verdict::Close;
        }
        if self.state == TcpState::Connecting {
            // Includes SYN retransmits; the guest retries until the
            // host connect resolves.
            return Verdict::Ignore;
        }
        if flags & proto::TCP_SYN != 0 {
            // Our SYN-ACK was lost.
            if self.sent_unacked == 0 {
                return Verdict::SynAck;
            }
            return Verdict::Ignore;
        }
        Verdict::Process
    }

    /// Sequence space in flight: the data and, once sent, the FIN.
    pub open spec fn in_flight(self) -> int {
        self.sent_unacked + (if self.host_fin != FinState::NotSent {
            1int
        } else {
            0int
        })
    }

    /// Data bytes that an ack for `ack` releases.
    pub open spec fn data_acked(self, ack: u32) -> int {
        let advance = seq_distance(self.seq_una, ack);
        if 0 < advance <= self.in_flight() {
            if advance <= self.sent_unacked {
                advance as int
            } else {
                self.sent_unacked as int
            }
        } else {
            0
        }
    }

    /// A duplicate ack: the same ack again, without data, FIN or window
    /// change, while data is in flight.
    pub open spec fn is_dup_ack(self, hdr: TcpHdr, payload_empty: bool) -> bool {
        &&& hdr.ack == self.seq_una
        &&& payload_empty
        &&& hdr.flags & proto::TCP_FIN == 0
        &&& self.sent_unacked > 0
        &&& scaled_window(hdr.window, self.guest_wscale) == self.guest_window
    }

    /// The third duplicate ack in a row asks for a retransmit.
    pub open spec fn is_fast_retransmit(self, hdr: TcpHdr, payload_empty: bool) -> bool {
        self.is_dup_ack(hdr, payload_empty) && self.dup_acks >= 2
    }

    /// State after the ack and window fields of a guest segment.
    pub open spec fn acked(self, hdr: TcpHdr, payload_empty: bool, now: Instant) -> Tcp {
        let guest_window = scaled_window(hdr.window, self.guest_wscale) as u32;
        let advance = seq_distance(self.seq_una, hdr.ack);
        let n = self.data_acked(hdr.ack);
        if 0 < advance <= self.in_flight() {
            Tcp {
                guest_window,
                dup_acks: 0,
                last_progress: now,
                sent_unacked: (self.sent_unacked - n) as u32,
                seq_una: seq_add(self.seq_una, n),
                host_fin: if advance > n {
                    FinState::Acked
                } else {
                    self.host_fin
                },
                buffered: (self.buffered - n) as u32,
                buf_head: ((self.buf_head + n) % 262_144) as u32,
                ..self
            }
        } else if self.is_fast_retransmit(hdr, payload_empty) {
            Tcp { guest_window, dup_acks: 0, sent_unacked: 0, ..self }
        } else if self.is_dup_ack(hdr, payload_empty) {
            Tcp { guest_window, dup_acks: (self.dup_acks + 1) as u8, ..self }
        } else {
            Tcp { guest_window, ..self }
        }
    }

    /// Handle the ack and window fields of a guest segment: release
    /// acknowledged data from the ring and detect duplicate acks. Returns
    /// whether everything in flight is to be sent again.
    pub fn ack(&mut self, hdr: &TcpHdr, payload_empty: bool, now: Instant) -> (fast: bool)
        requires
            old(self).wf(),
        ensures
            final(self).wf(),
            *final(self) == old(self).acked(*hdr, payload_empty, now),
            fast == old(self).is_fast_retransmit(*hdr, payload_empty),
    {
        let ghost before = *self;
        let old_window: u32 = self.guest_window;
        self.guest_window = scale_window(hdr.window, self.guest_wscale);
        let advance: u32 = hdr.ack.wrapping_sub(self.seq_una);
        let max_advance: u32 = self.sent_unacked + (if self.host_fin != FinState::NotSent {
            1
        } else {
            0
        });
        if advance > 0 && advance <= max_advance {
            let data_acked: u32 = if advance <= self.sent_unacked {
                advance
            } else {
                self.sent_unacked
            };
            self.dup_acks = 0;
            self.last_progress = now;
            self.sent_unacked = self.sent_unacked - data_acked;
            self.seq_una = seq_plus(self.seq_una, data_acked);
            if advance > data_acked {
                self.host_fin = FinState::Acked;
            }
            // Drop the acked prefix from the ring by advancing its
            // head; no data moves.
            self.buffered = self.buffered - data_acked;
            self.buf_head = (self.buf_head + data_acked) % FRAME_LEN;
            assert(*self == before.acked(*hdr, payload_empty, now));
        } else if advance == 0 && payload_empty && hdr.flags & proto::TCP_FIN == 0
            && self.sent_unacked > 0 && self.guest_window == old_window {
            // Duplicate ack (same ack, no data, no window change).
            // Pure window updates must not count, otherwise every
            // guest window advertisement during a bulk download
            // would trigger a retransmit.
            if self.dup_acks >= 2 {
                // Fast retransmit: resend everything in flight
                // from the flow's buffer.
                self.dup_acks = 0;
                self.sent_unacked = 0;
                return true;
            }
            self.dup_acks = self.dup_acks + 1;
        }
        false
    }

    /// State after everything in flight is declared lost.
    pub open spec fn rewound(self, now: Instant) -> Tcp {
        Tcp { sent_unacked: 0, dup_acks: 0, last_progress: now, ..self }
    }

    /// Declare everything in flight lost, so that it is sent again.
    pub fn rewind(&mut self, now: Instant)
        requires
            old(self).wf(),
        ensures
            final(self).wf(),
            *final(self) == old(self).rewound(now),
    {
        self.sent_unacked = 0;
        self.dup_acks = 0;
        self.last_progress = now;
    }

    /// State after the host socket took `n` of the `len` payload bytes of
    /// a guest segment with sequence number `seq`, and what follows from
    /// it. Only in-order data is offered to the socket.
    pub open spec fn spec_take(self, flags: u8, seq: u32, len: int, n: int) -> (Tcp, Taken) {
        let t = if len > 0 && seq == self.seq_from_guest {
            Tcp { seq_from_guest: seq_add(self.seq_from_guest, n), ..self }
        } else {
            self
        };
        let deferred = len > 0 && n == len && flags & proto::TCP_PSH == 0 && !self.ack_deferred;
        let shutdown = flags & proto::TCP_FIN != 0 && n == len && !self.guest_fin_received
            && seq_add(seq, len) == t.seq_from_guest;
        let ack = (len > 0 && !deferred) || shutdown;
        (
            Tcp {
                seq_from_guest: if shutdown {
                    seq_add(t.seq_from_guest, 1)
                } else {
                    t.seq_from_guest
                },
                guest_fin_received: self.guest_fin_received || shutdown,
                ack_deferred: !ack && (deferred || self.ack_deferred),
                ..self
            },
            Taken { ack, deferred, shutdown },
        )
    }

    /// Account for a guest segment's payload and FIN once the host socket
    /// took `n` of the `len` bytes.
    pub fn take(&mut self, flags: u8, seq: u32, len: usize, n: usize) -> (r: Taken)
        requires
            old(self).wf(),
            n <= len <= u32::MAX,
        ensures
            final(self).wf(),
            (*final(self), r) == old(self).spec_take(flags, seq, len as int, n as int),
    {
        let mut r = Taken { ack: false, deferred: false, shutdown: false };
        if len > 0 {
            if seq == self.seq_from_guest {
                self.seq_from_guest = seq_plus(self.seq_from_guest, n as u32);
            }
            // Dropped or partially accepted data needs an immediate
            // (duplicate) ack so the guest retransmits; in-order frames
            // without PSH are acked only every second frame to halve
            // tap writes on bulk uploads.
            if n == len && flags & proto::TCP_PSH == 0 && !self.ack_deferred {
                self.ack_deferred = true;
                r.deferred = true;
            } else {
                r.ack = true;
            }
        }
        if flags & proto::TCP_FIN != 0 && n == len && !self.guest_fin_received
            && seq_plus(seq, len as u32) == self.seq_from_guest {
            self.guest_fin_received = true;
            self.seq_from_guest = seq_plus(self.seq_from_guest, 1);
            r.shutdown = true;
            r.ack = true;
        }
        if r.ack {
            self.ack_deferred = false;
        }
        r
    }

    /// Room left in the guest's window.
    pub open spec fn budget(self) -> int {
        if self.guest_window >= self.sent_unacked {
            self.guest_window - self.sent_unacked
        } else {
            0
        }
    }

    /// Whether data may move towards the guest.
    pub open spec fn spec_push(self) -> Push {
        if self.state != TcpState::Established || self.host_fin != FinState::NotSent {
            Push::Skip
        } else if self.poll_armed && self.buffered == self.sent_unacked && !self.host_eof {
            Push::Skip
        } else if self.budget() == 0 {
            Push::WindowFull
        } else {
            Push::Fill
        }
    }

    /// Whether data may move towards the guest.
    pub fn push(&self) -> (r: Push)
        ensures
            r == self.spec_push(),
    {
        if self.state != TcpState::Established || self.host_fin != FinState::NotSent {
            return Push::Skip;
        }
        if self.poll_armed && self.buffered == self.sent_unacked && !self.host_eof {
            // Nothing unsent is buffered and the armed poll will
            // report new host data; skip the (usually empty) read that
            // guest acks would otherwise trigger per segment.
            return Push::Skip;
        }
        if self.guest_window <= self.sent_unacked {
            return Push::WindowFull;  // the next guest ack retriggers
        }
        Push::Fill
    }

    /// Bytes the ring can still take.
    pub open spec fn free(self) -> int {
        FRAME_LEN - self.buffered
    }

    /// The ring's free space, if a read could bring anything.
    pub open spec fn spec_space(self) -> Option<Space> {
        if self.host_eof || self.buffered >= FRAME_LEN {
            None
        } else {
            let wpos = (self.buf_head + self.buffered) % 262_144;
            let first = if self.free() <= FRAME_LEN - wpos {
                self.free()
            } else {
                FRAME_LEN - wpos
            };
            Some(
                Space {
                    wpos: wpos as usize,
                    first: first as usize,
                    second: (self.free() - first) as usize,
                },
            )
        }
    }

    /// The ring's free space, if a read could bring anything.
    pub fn space(&self) -> (r: Option<Space>)
        requires
            self.wf(),
        ensures
            r == self.spec_space(),
            r matches Some(s) ==> s.wpos + s.first <= FRAME_LEN && s.second <= s.wpos && s.first
                + s.second == self.free(),
    {
        if self.host_eof || self.buffered >= FRAME_LEN {
            return None;
        }
        let free: usize = (FRAME_LEN - self.buffered) as usize;
        let wpos: usize = ((self.buf_head + self.buffered) % FRAME_LEN) as usize;
        let first: usize = if free <= buf::FRAME - wpos {
            free
        } else {
            buf::FRAME - wpos
        };
        Some(Space { wpos, first, second: free - first })
    }

    /// State after a read brought `n` bytes; none means end of stream.
    pub open spec fn filled(self, n: int) -> Tcp {
        if n == 0 {
            Tcp { host_eof: true, ..self }
        } else {
            Tcp { buffered: (self.buffered + n) as u32, ..self }
        }
    }

    /// Account for a read of `n` bytes into the ring's free space; a read
    /// of none is the end of the stream. Returns whether the socket was
    /// drained.
    pub fn fill(&mut self, n: usize) -> (drained: bool)
        requires
            old(self).wf(),
            n <= old(self).free(),
        ensures
            final(self).wf(),
            *final(self) == old(self).filled(n as int),
            drained == (0 < n < old(self).free()),
    {
        if n == 0 {
            self.host_eof = true;
            false
        } else {
            let free: usize = (FRAME_LEN - self.buffered) as usize;
            self.buffered = self.buffered + n as u32;
            n < free
        }
    }

    /// Buffered bytes that are not in flight.
    pub open spec fn unsent(self) -> int {
        self.buffered - self.sent_unacked
    }

    /// What to do once the ring is topped up.
    pub open spec fn spec_next(self, drained: bool) -> Next {
        if self.unsent() > 0 {
            Next::Send
        } else if self.host_eof && self.sent_unacked == 0 {
            Next::Fin
        } else if drained && !self.poll_armed {
            Next::Arm
        } else {
            Next::Rest
        }
    }

    /// What to do once the ring is topped up.
    pub fn next(&self, drained: bool) -> (r: Next)
        requires
            self.wf(),
        ensures
            r == self.spec_next(drained),
    {
        if self.buffered > self.sent_unacked {
            Next::Send
        } else if self.host_eof && self.sent_unacked == 0 {
            Next::Fin
        } else if drained && !self.poll_armed {
            Next::Arm
        } else {
            Next::Rest
        }
    }

    /// What the guest's window lets through of the unsent data, and how it
    /// is framed: as super-frames that the guest resegments where the tap
    /// can carry them, else as frames of at most one MSS.
    pub open spec fn spec_burst(self, tso: bool) -> Burst {
        let send_len = if self.unsent() <= self.budget() {
            self.unsent()
        } else {
            self.budget()
        };
        let gso = tso && send_len > self.guest_mss;
        let limit: int = if gso || self.guest_mss > TCP_MAX_PAYLOAD {
            TCP_MAX_PAYLOAD as int
        } else {
            self.guest_mss as int
        };
        Burst {
            send_len: send_len as usize,
            chunk: (if send_len <= limit {
                send_len
            } else {
                limit
            }) as usize,
            gso,
            short: self.unsent() > self.budget(),
        }
    }

    /// What the guest's window lets through of the unsent data, and how it
    /// is framed.
    pub fn burst(&self, tso: bool) -> (r: Burst)
        requires
            self.wf(),
        ensures
            r == self.spec_burst(tso),
    {
        let unsent: usize = (self.buffered - self.sent_unacked) as usize;
        let budget: usize = self.guest_window.saturating_sub(self.sent_unacked) as usize;
        let send_len: usize = if unsent <= budget {
            unsent
        } else {
            budget
        };
        let mss: usize = self.guest_mss as usize;
        let gso = tso && send_len > mss;
        // Each frame written to the tap is capped by the 16-bit IP
        // total length; a larger burst is split into several frames.
        let limit: usize = if gso || mss > TCP_MAX_PAYLOAD {
            TCP_MAX_PAYLOAD
        } else {
            mss
        };
        let chunk: usize = if send_len <= limit {
            send_len
        } else {
            limit
        };
        Burst { send_len, chunk, gso, short: unsent > budget }
    }

    /// The frame that starts `off` bytes into a burst.
    pub open spec fn spec_piece(self, b: Burst, off: int) -> Piece {
        let len = if b.chunk <= b.send_len - off {
            b.chunk as int
        } else {
            b.send_len - off
        };
        let pos = (self.buf_head + self.sent_unacked + off) % 262_144;
        let first = if len <= FRAME_LEN - pos {
            len
        } else {
            FRAME_LEN - pos
        };
        Piece {
            seq: seq_add(self.seq_una, self.sent_unacked + off),
            pos: pos as usize,
            first: first as usize,
            second: (len - first) as usize,
        }
    }

    /// The frame that starts `off` bytes into a burst.
    pub fn piece(&self, b: &Burst, off: usize) -> (r: Piece)
        requires
            self.wf(),
            exists|tso: bool| *b == self.spec_burst(tso),
            off < b.send_len,
        ensures
            r == self.spec_piece(*b, off as int),
            r.pos + r.first <= FRAME_LEN,
            r.second <= r.pos,
            0 < r.first + r.second <= TCP_MAX_PAYLOAD,
            r.first + r.second == (if b.chunk <= b.send_len - off {
                b.chunk as int
            } else {
                b.send_len - off
            }),
    {
        let len: usize = if b.chunk <= b.send_len - off {
            b.chunk
        } else {
            b.send_len - off
        };
        // The payload may wrap around the end of the ring.
        let at: usize = self.buf_head as usize + self.sent_unacked as usize + off;
        let pos: usize = at % buf::FRAME;
        let first: usize = if len <= buf::FRAME - pos {
            len
        } else {
            buf::FRAME - pos
        };
        let seq: u32 = seq_plus(self.seq_una, self.sent_unacked + off as u32);
        Piece { seq, pos, first, second: len - first }
    }

    /// State after a burst of `n` bytes went out.
    pub open spec fn sent(self, n: int, now: Instant) -> Tcp {
        Tcp { sent_unacked: (self.sent_unacked + n) as u32, last_progress: now, ..self }
    }

    /// Account for a burst that went out.
    pub fn mark_sent(&mut self, b: &Burst, now: Instant)
        requires
            old(self).wf(),
            exists|tso: bool| *b == old(self).spec_burst(tso),
        ensures
            final(self).wf(),
            *final(self) == old(self).sent(b.send_len as int, now),
    {
        self.sent_unacked = self.sent_unacked + b.send_len as u32;
        self.last_progress = now;
    }

    /// Window to advertise when `queued` bytes wait in the host socket's
    /// send buffer: its free space, in units of the announced scale, and
    /// none where the queue length is not known.
    pub open spec fn spec_window(self, queued: Option<i32>) -> u16 {
        match queued {
            None => 0,
            Some(q) => {
                let used: int = if q > 0 {
                    q as int
                } else {
                    0
                };
                let free: int = if used <= self.sndbuf {
                    self.sndbuf - used
                } else {
                    0
                };
                let scaled: int = if self.guest_wscale is Some {
                    free / 128
                } else {
                    free
                };
                if scaled <= u16::MAX {
                    scaled as u16
                } else {
                    u16::MAX
                }
            },
        }
    }

    /// Window to advertise to the guest: free space in the host
    /// socket's send buffer, so accepted guest data always fits.
    pub fn window(&self, queued: Option<i32>) -> (r: u16)
        ensures
            r == self.spec_window(queued),
    {
        match queued {
            None => 0,
            Some(q) => {
                let used: u32 = if q > 0 {
                    q as u32
                } else {
                    0
                };
                let free: u32 = self.sndbuf.saturating_sub(used);
                let scaled: u32 = if self.guest_wscale.is_some() {
                    assert(free >> 7u8 == free / 128) by (bit_vector);
                    free >> WINDOW_SHIFT
                } else {
                    free
                };
                if scaled <= 0xffff {
                    scaled as u16
                } else {
                    0xffff
                }
            },
        }
    }

    /// Window field of the SYN-ACK, which is never scaled.
    pub open spec fn spec_syn_window(self) -> u16 {
        if self.sndbuf <= u16::MAX {
            self.sndbuf as u16
        } else {
            u16::MAX
        }
    }

    /// Window field of the SYN-ACK, which is never scaled.
    pub fn syn_window(&self) -> (r: u16)
        ensures
            r == self.spec_syn_window(),
    {
        if self.sndbuf <= 0xffff {
            self.sndbuf as u16
        } else {
            0xffff
        }
    }

    /// Both directions are closed and the guest acknowledged our FIN.
    pub open spec fn spec_finished(self) -> bool {
        self.host_fin == FinState::Acked && self.guest_fin_received
    }

    /// Both directions are closed and the guest acknowledged our FIN.
    pub fn finished(&self) -> (r: bool)
        ensures
            r == self.spec_finished(),
    {
        self.host_fin == FinState::Acked && self.guest_fin_received
    }

    /// Next sequence number towards the guest.
    pub open spec fn spec_next_seq(self) -> u32 {
        seq_add(self.seq_una, self.sent_unacked as int)
    }

    /// Next sequence number towards the guest.
    pub fn next_seq(&self) -> (r: u32)
        ensures
            r == self.spec_next_seq(),
    {
        seq_plus(self.seq_una, self.sent_unacked)
    }
}

/// The window field under a scale of at most the RFC 7323 maximum.
fn scale_window(window: u16, scale: Option<u8>) -> (r: u32)
    requires
        scale matches Some(s) ==> s <= MAX_WSCALE,
    ensures
        r == scaled_window(window, scale),
{
    match scale {
        Some(s) => {
            let w: u32 = window as u32;
            proof {
                power2::lemma2_to64();
                if s < 14 {
                    power2::lemma_pow2_strictly_increases(s as nat, 14);
                }
                assert(window * pow2(s as nat) <= 65535 * 16384) by (nonlinear_arith)
                    requires
                        window <= 65535,
                        0 <= pow2(s as nat) <= 16384,
                ;
                vstd::bits::lemma_u32_shl_is_mul(w, s as u32);
            }
            w << (s as u32)
        },
        None => window as u32,
    }
}

/// Indices into the ring add up.
proof fn lemma_ring_index(a: int, b: int)
    ensures
        (a % 262_144 + b) % 262_144 == (a + b) % 262_144,
{
}

/// An ack releases exactly the acknowledged prefix of the buffered bytes,
/// and every byte that stays keeps its sequence number.
pub proof fn law_ack_releases_prefix(
    t: Tcp,
    hdr: TcpHdr,
    payload_empty: bool,
    now: Instant,
    ring: Seq<u8>,
)
    requires
        t.wf(),
    ensures
        ({
            let n = t.data_acked(hdr.ack);
            let u = t.acked(hdr, payload_empty, now);
            &&& 0 <= n <= t.sent_unacked
            &&& u.pending(ring) == t.pending(ring).skip(n)
            &&& forall|i: int|
                0 <= i < u.buffered ==> #[trigger] seq_add(u.seq_una, i) == seq_add(
                    t.seq_una,
                    n + i,
                )
        }),
{
    let n = t.data_acked(hdr.ack);
    let u = t.acked(hdr, payload_empty, now);
    assert forall|i: int| 0 <= i < u.buffered implies #[trigger] seq_add(u.seq_una, i) == seq_add(
        t.seq_una,
        n + i,
    ) by {
        lemma_seq_add(t.seq_una, n, i);
        lemma_seq_add(t.seq_una, 0, i);
    }
    assert forall|i: int| 0 <= i < u.buffered implies u.pending(ring)[i] == t.pending(ring)[n
        + i] by {
        lemma_ring_index(t.buf_head + n, i);
        lemma_ring_index(t.buf_head as int, n + i);
    }
    assert(u.pending(ring) =~= t.pending(ring).skip(n));
}

/// An ack of everything in flight, FIN included, leaves nothing in flight.
pub proof fn law_full_ack(t: Tcp, hdr: TcpHdr, payload_empty: bool, now: Instant)
    requires
        t.wf(),
        t.in_flight() > 0,
        hdr.ack == seq_add(t.seq_una, t.in_flight()),
    ensures
        ({
            let u = t.acked(hdr, payload_empty, now);
            &&& u.sent_unacked == 0
            &&& u.seq_una == t.spec_next_seq()
            &&& t.host_fin != FinState::NotSent ==> u.host_fin == FinState::Acked
        }),
{
    reveal(seq_add);
}

/// An ack outside the range in flight changes nothing that was sent: no
/// byte is released and the send position stays, unless it is the third
/// duplicate, which rewinds to the first unacknowledged byte.
pub proof fn law_stray_ack(t: Tcp, hdr: TcpHdr, payload_empty: bool, now: Instant, ring: Seq<u8>)
    requires
        t.wf(),
        !(0 < seq_distance(t.seq_una, hdr.ack) <= t.in_flight()),
    ensures
        ({
            let u = t.acked(hdr, payload_empty, now);
            &&& u.pending(ring) == t.pending(ring)
            &&& u.seq_una == t.seq_una
            &&& u.host_fin == t.host_fin
            &&& u.sent_unacked == (if t.is_fast_retransmit(hdr, payload_empty) {
                0
            } else {
                t.sent_unacked
            })
        }),
{
    assert(t.acked(hdr, payload_empty, now).pending(ring) =~= t.pending(ring));
}

/// Bytes read into the ring's free space are appended to the buffered
/// bytes: where the ring differs from before only in the space handed out,
/// and that space starts with `data`, the buffered bytes are the old ones
/// followed by `data`.
pub proof fn law_fill_appends(t: Tcp, before: Seq<u8>, after: Seq<u8>, data: Seq<u8>)
    requires
        t.wf(),
        t.spec_space() is Some,
        before.len() == FRAME_LEN,
        after.len() == FRAME_LEN,
        0 < data.len() <= t.free(),
        ({
            let s = t.spec_space()->0;
            &&& forall|i: int|
                0 <= i < FRAME_LEN && !(s.wpos <= i < s.wpos + s.first) && !(0 <= i < s.second)
                    ==> #[trigger] after[i] == before[i]
            &&& forall|k: int|
                0 <= k < data.len() ==> #[trigger] data[k] == (if k < s.first {
                    after[s.wpos + k]
                } else {
                    after[k - s.first]
                })
        }),
    ensures
        t.filled(data.len() as int).pending(after) == t.pending(before) + data,
{
    let s = t.spec_space()->0;
    let u = t.filled(data.len() as int);
    let b = t.buffered as int;
    assert forall|i: int| 0 <= i < u.buffered implies u.pending(after)[i] == (t.pending(before)
        + data)[i] by {
        let at = (t.buf_head + i) % 262_144;
        if i < b {
            assert(after[at] == before[at]);
        } else {
            let k = i - b;
            assert(data[k] == (if k < s.first {
                after[s.wpos + k]
            } else {
                after[k - s.first]
            }));
        }
    }
    assert(u.pending(after) =~= t.pending(before) + data);
}

/// The free space handed to a read never overlaps buffered bytes.
pub proof fn law_space_is_free(t: Tcp, i: int)
    requires
        t.wf(),
        t.spec_space() is Some,
        0 <= i < t.buffered,
    ensures
        ({
            let s = t.spec_space()->0;
            let at = (t.buf_head + i) % 262_144;
            &&& !(s.wpos <= at < s.wpos + s.first)
            &&& !(0 <= at < s.second)
        }),
{
}

/// The bytes that a frame of a burst carries.
pub open spec fn piece_bytes(p: Piece, ring: Seq<u8>) -> Seq<u8> {
    ring.subrange(p.pos as int, p.pos + p.first) + ring.subrange(0, p.second as int)
}

/// A frame of a burst carries the buffered bytes that its sequence number
/// says: `off` bytes into the burst it starts `off` bytes after what was in
/// flight, and it ends where the next frame starts.
pub proof fn law_piece(t: Tcp, tso: bool, off: int, ring: Seq<u8>)
    requires
        t.wf(),
        ring.len() == FRAME_LEN,
        0 <= off < t.spec_burst(tso).send_len,
    ensures
        ({
            let b = t.spec_burst(tso);
            let p = t.spec_piece(b, off);
            let len = p.first + p.second;
            let from = t.sent_unacked + off;
            &&& p.seq == seq_add(t.seq_una, from)
            &&& len == (if b.chunk <= b.send_len - off {
                b.chunk as int
            } else {
                b.send_len - off
            })
            &&& piece_bytes(p, ring) == t.pending(ring).subrange(from, from + len)
        }),
{
    let b = t.spec_burst(tso);
    let p = t.spec_piece(b, off);
    let len = p.first + p.second;
    let from = t.sent_unacked + off;
    assert(piece_bytes(p, ring) =~= t.pending(ring).subrange(from, from + len));
}

/// The bytes of a burst from `off` on, frame after frame.
pub open spec fn burst_bytes(t: Tcp, b: Burst, off: int, ring: Seq<u8>) -> Seq<u8>
    decreases b.send_len - off,
{
    if off >= b.send_len || b.chunk == 0 {
        Seq::empty()
    } else {
        let len = if b.chunk <= b.send_len - off {
            b.chunk as int
        } else {
            b.send_len - off
        };
        piece_bytes(t.spec_piece(b, off), ring) + burst_bytes(t, b, off + len, ring)
    }
}

/// The frames of a burst together carry the unsent bytes that the window
/// admits, each once and in order.
pub proof fn law_burst_covers(t: Tcp, tso: bool, off: int, ring: Seq<u8>)
    requires
        t.wf(),
        ring.len() == FRAME_LEN,
        0 <= off,
    ensures
        ({
            let b = t.spec_burst(tso);
            off <= b.send_len ==> burst_bytes(t, b, off, ring) == t.pending(ring).subrange(
                t.sent_unacked + off,
                t.sent_unacked + b.send_len,
            )
        }),
    decreases t.spec_burst(tso).send_len - off,
{
    let b = t.spec_burst(tso);
    if off < b.send_len {
        law_piece(t, tso, off, ring);
        let p = t.spec_piece(b, off);
        law_burst_covers(t, tso, off + p.first + p.second, ring);
    }
    if off <= b.send_len {
        assert(burst_bytes(t, b, off, ring) =~= t.pending(ring).subrange(
            t.sent_unacked + off,
            t.sent_unacked + b.send_len,
        ));
    }
}

/// No burst exceeds the guest's window, and none is empty while there is
/// unsent data and room.
pub proof fn law_burst_fits_window(t: Tcp, tso: bool)
    requires
        t.wf(),
    ensures
        ({
            let b = t.spec_burst(tso);
            &&& t.guest_window >= t.sent_unacked ==> t.sent_unacked + b.send_len <= t.guest_window
            &&& t.unsent() > 0 && t.budget() > 0 ==> b.send_len > 0 && b.chunk > 0
            &&& b.chunk <= TCP_MAX_PAYLOAD
            &&& !b.gso ==> b.chunk <= t.guest_mss
        }),
{
}

/// After a rewind the next burst starts again at the first unacknowledged
/// byte, and no buffered byte is lost.
pub proof fn law_rewind(t: Tcp, now: Instant, tso: bool, ring: Seq<u8>)
    requires
        t.wf(),
    ensures
        ({
            let u = t.rewound(now);
            &&& u.pending(ring) == t.pending(ring)
            &&& u.spec_next_seq() == t.seq_una
            &&& u.unsent() == t.buffered
        }),
{
    lemma_seq_add(t.seq_una, 0, 0);
    assert(t.rewound(now).pending(ring) =~= t.pending(ring));
}

/// The guest's stream is taken in order: the expected sequence number
/// advances by exactly the bytes the host socket took, plus one for the
/// guest's FIN, which counts only once all data before it was taken.
pub proof fn law_take_in_order(t: Tcp, flags: u8, seq: u32, len: int, n: int)
    requires
        t.wf(),
        0 <= n <= len,
        len > 0 && seq != t.seq_from_guest ==> n == 0,
    ensures
        ({
            let (u, r) = t.spec_take(flags, seq, len, n);
            &&& u.seq_from_guest == seq_add(t.seq_from_guest, if r.shutdown {
                n + 1
            } else {
                n
            })
            &&& r.shutdown ==> n == len && !t.guest_fin_received && u.guest_fin_received
            &&& n < len ==> r.ack && u.guest_fin_received == t.guest_fin_received
        }),
{
    lemma_seq_add(t.seq_from_guest, n, 1);
    lemma_seq_add(t.seq_from_guest, 0, 0);
}

/// Two segments taken in full are never both left unacknowledged.
pub proof fn law_ack_every_second(t: Tcp, flags: u8, seq: u32, len: int, n: int)
    requires
        t.wf(),
        t.ack_deferred,
        0 <= n <= len,
        len > 0,
    ensures
        t.spec_take(flags, seq, len, n).1.ack,
        !t.spec_take(flags, seq, len, n).0.ack_deferred,
{
}

/// The host's FIN goes to the guest exactly once everything the host sent
/// has been forwarded and acknowledged.
pub proof fn law_fin_comes_last(t: Tcp, drained: bool)
    requires
        t.wf(),
    ensures
        t.spec_next(drained) == Next::Fin <==> t.host_eof && t.buffered == 0,
{
}

/// The window advertised to the guest, in bytes, never exceeds what the
/// host socket's send buffer has room for.
pub proof fn law_window_fits(t: Tcp, queued: i32)
    ensures
        ({
            let unit: int = if t.guest_wscale is Some {
                128
            } else {
                1
            };
            let used: int = if queued > 0 {
                queued as int
            } else {
                0
            };
            t.spec_window(Some(queued)) == 0 || used + t.spec_window(Some(queued)) * unit
                <= t.sndbuf
        }),
{
}

/// The guest's FIN is taken whenever it is due: once everything before it
/// was taken, with or without data in its segment and whatever the host
/// side has done. The host socket is then shut down for writing and the FIN
/// acknowledged at once.
pub proof fn law_fin_taken(t: Tcp, flags: u8, seq: u32, len: int)
    requires
        0 <= len <= u32::MAX,
        flags & 1 != 0,
        seq == t.seq_from_guest,
        !t.guest_fin_received,
    ensures
        ({
            let (u, r) = t.spec_take(flags, seq, len, len);
            &&& r.shutdown && r.ack
            &&& u.guest_fin_received && !u.ack_deferred
            &&& u.seq_from_guest as int == (seq + len + 1) % 0x1_0000_0000
        }),
{
    reveal(seq_add);
}

/// A FIN that is not due changes nothing: one that was taken before, or one
/// whose segment is out of order or was not taken whole.
pub proof fn law_fin_not_due(t: Tcp, flags: u8, seq: u32, len: int, n: int)
    requires
        0 <= n <= len <= 0x7fff_ffff,
        flags & 1 == 0 || t.guest_fin_received || n < len || (seq != t.seq_from_guest && n == len
            && len == 0),
    ensures
        ({
            let (u, r) = t.spec_take(flags, seq, len, n);
            &&& !r.shutdown
            &&& u.guest_fin_received == t.guest_fin_received
        }),
{
    reveal(seq_add);
}

/// How much of the guest's stream is taken: in-order data as far as the
/// socket took it, out-of-order data never.
pub proof fn law_data_taken(t: Tcp, flags: u8, seq: u32, len: int, n: int)
    requires
        0 <= n <= len <= u32::MAX,
        flags & 1 == 0,
    ensures
        ({
            let (u, r) = t.spec_take(flags, seq, len, n);
            &&& len > 0 && seq == t.seq_from_guest ==> u.seq_from_guest as int == (seq + n)
                % 0x1_0000_0000
            &&& len == 0 || seq != t.seq_from_guest ==> u.seq_from_guest == t.seq_from_guest
            &&& u.seq_una == t.seq_una && u.sent_unacked == t.sent_unacked
            &&& u.buffered == t.buffered && u.buf_head == t.buf_head
            &&& u.guest_window == t.guest_window && u.host_fin == t.host_fin
            &&& u.state == t.state && u.poll_armed == t.poll_armed && u.host_eof == t.host_eof
            &&& u.guest_mss == t.guest_mss && u.guest_wscale == t.guest_wscale
            &&& u.sndbuf == t.sndbuf && u.dup_acks == t.dup_acks
            &&& u.last_progress == t.last_progress
        }),
{
    reveal(seq_add);
}

/// When the guest's data is acknowledged: at once if the socket did not
/// take all of it, if the guest pushed it, or if the ack of the segment
/// before is still owed; else with the next segment. A segment without data
/// or FIN is not acknowledged.
pub proof fn law_when_acked(t: Tcp, flags: u8, seq: u32, len: int, n: int)
    requires
        0 <= n <= len <= u32::MAX,
        flags & 1 == 0,
    ensures
        ({
            let (u, r) = t.spec_take(flags, seq, len, n);
            &&& r.ack <==> len > 0 && (n < len || flags & 8 != 0 || t.ack_deferred)
            &&& r.deferred <==> len > 0 && !r.ack
            &&& u.ack_deferred <==> r.deferred || (len == 0 && t.ack_deferred)
        }),
{
}

/// What becomes of a segment: an RST closes the flow in any state; while
/// the host connects everything else waits; a SYN on an established flow
/// asks for the SYN-ACK again unless data is in flight; the rest is
/// processed.
pub proof fn law_verdict(t: Tcp, flags: u8)
    ensures
        t.spec_verdict(flags) == Verdict::Close <==> flags & 4 != 0,
        t.spec_verdict(flags) == Verdict::Process <==> flags & 4 == 0 && flags & 2 == 0 && t.state
            == TcpState::Established,
        t.spec_verdict(flags) == Verdict::SynAck <==> flags & 4 == 0 && flags & 2 != 0 && t.state
            == TcpState::Established && t.sent_unacked == 0,
{
}

/// A new flow expects the byte behind the guest's SYN, has nothing buffered
/// or in flight, and goes by the guest's window, scale (at most 14) and
/// segment size.
pub proof fn law_connecting(syn: TcpHdr, sndbuf: u32, now: Instant)
    ensures
        ({
            let t = Tcp::spec_connecting(syn, sndbuf, now);
            &&& t.wf()
            &&& t.state == TcpState::Connecting
            &&& t.seq_from_guest as int == (syn.seq + 1) % 0x1_0000_0000
            &&& t.buffered == 0 && t.sent_unacked == 0 && t.dup_acks == 0
            &&& t.guest_window == syn.window
            &&& t.guest_wscale is Some <==> syn.wscale is Some
            &&& syn.wscale matches Some(s) ==> t.guest_wscale == Some(
                if s < 14 {
                    s
                } else {
                    14u8
                },
            )
            &&& t.guest_mss == (match syn.mss {
                Some(m) => if m == 0 {
                    536u16
                } else {
                    m
                },
                None => 536u16,
            })
            &&& t.seq_una == 0x0001_0000
            &&& t.sndbuf == sndbuf && t.last_progress == now
            &&& !t.host_eof && !t.guest_fin_received && !t.ack_deferred && !t.poll_armed
            &&& t.host_fin == FinState::NotSent
        }),
{
    reveal(seq_add);
}

/// An ack of `k` bytes in flight moves the first unacknowledged byte to
/// where the ack says, and takes exactly those bytes off the ring and out
/// of flight. What is left of the FIN and of the guest's stream stays.
pub proof fn law_ack_of_data(
    t: Tcp,
    hdr: TcpHdr,
    payload_empty: bool,
    now: Instant,
    k: int,
    ring: Seq<u8>,
)
    requires
        t.wf(),
        0 < k <= t.sent_unacked,
        hdr.ack as int == (t.seq_una + k) % 0x1_0000_0000,
    ensures
        ({
            let u = t.acked(hdr, payload_empty, now);
            &&& u.seq_una == hdr.ack
            &&& u.sent_unacked == t.sent_unacked - k
            &&& u.buffered == t.buffered - k
            &&& u.pending(ring) == t.pending(ring).skip(k)
            &&& u.host_fin == t.host_fin
            &&& u.dup_acks == 0 && u.last_progress == now
            &&& u.seq_from_guest == t.seq_from_guest && u.state == t.state
            &&& !t.is_fast_retransmit(hdr, payload_empty)
        }),
{
    law_ack_releases_prefix(t, hdr, payload_empty, now, ring);
    assert(t.data_acked(hdr.ack) == k);
    reveal(seq_add);
}

/// An ack of everything in flight and of the FIN behind it.
pub proof fn law_ack_of_fin(t: Tcp, hdr: TcpHdr, payload_empty: bool, now: Instant)
    requires
        t.wf(),
        t.host_fin == FinState::Sent,
        hdr.ack as int == (t.seq_una + t.sent_unacked + 1) % 0x1_0000_0000,
    ensures
        ({
            let u = t.acked(hdr, payload_empty, now);
            &&& u.host_fin == FinState::Acked
            &&& u.sent_unacked == 0
            &&& u.buffered == t.buffered - t.sent_unacked
        }),
{
}

/// Every processed ack brings the guest's window: its window field times
/// two to the power of the scale that the guest offered.
pub proof fn law_window_update(t: Tcp, hdr: TcpHdr, payload_empty: bool, now: Instant)
    requires
        t.wf(),
    ensures
        t.acked(hdr, payload_empty, now).guest_window == (match t.guest_wscale {
            Some(s) => hdr.window * pow2(s as nat),
            None => hdr.window as int,
        }),
{
    if let Some(s) = t.guest_wscale {
        power2::lemma2_to64();
        if s < 14 {
            power2::lemma_pow2_strictly_increases(s as nat, 14);
        }
        assert(hdr.window * pow2(s as nat) <= 65535 * 16384) by (nonlinear_arith)
            requires
                hdr.window <= 65535,
                0 <= pow2(s as nat) <= 16384,
        ;
    }
}

/// The same ack three times over, without data, FIN or change of window
/// while data is in flight, asks for a retransmit of everything in flight;
/// the first two leave everything where it was.
pub proof fn law_three_duplicates(t: Tcp, hdr: TcpHdr, now: Instant, ring: Seq<u8>)
    requires
        t.wf(),
        t.dup_acks == 0,
        t.sent_unacked > 0,
        hdr.ack == t.seq_una,
        hdr.flags & 1 == 0,
        t.guest_window == (match t.guest_wscale {
            Some(s) => hdr.window * pow2(s as nat),
            None => hdr.window as int,
        }),
    ensures
        ({
            let a = t.acked(hdr, true, now);
            let b = a.acked(hdr, true, now);
            let c = b.acked(hdr, true, now);
            &&& a == (Tcp { dup_acks: 1, ..t }) && b == (Tcp { dup_acks: 2, ..t })
            &&& c == (Tcp { dup_acks: 0, sent_unacked: 0, ..t })
            &&& !t.is_fast_retransmit(hdr, true) && !a.is_fast_retransmit(hdr, true)
            &&& b.is_fast_retransmit(hdr, true)
            &&& c.pending(ring) == t.pending(ring)
        }),
{
    law_window_update(t, hdr, true, now);
    assert(seq_distance(t.seq_una, hdr.ack) == 0);
    let c = t.acked(hdr, true, now).acked(hdr, true, now).acked(hdr, true, now);
    assert(c.pending(ring) =~= t.pending(ring));
}

/// What is no duplicate ack does not count as one: data, a FIN, a new
/// window, nothing in flight, or another ack number that acknowledges
/// nothing.
pub proof fn law_no_duplicate(t: Tcp, hdr: TcpHdr, payload_empty: bool, now: Instant)
    requires
        t.wf(),
        !payload_empty || hdr.flags & 1 != 0 || t.sent_unacked == 0 || hdr.ack != t.seq_una
            || t.guest_window != (match t.guest_wscale {
            Some(s) => hdr.window * pow2(s as nat),
            None => hdr.window as int,
        }),
        !(0 < seq_distance(t.seq_una, hdr.ack) <= t.in_flight()),
    ensures
        ({
            let u = t.acked(hdr, payload_empty, now);
            &&& u == (Tcp { guest_window: u.guest_window, ..t })
            &&& !t.is_fast_retransmit(hdr, payload_empty)
        }),
{
    law_window_update(t, hdr, payload_empty, now);
}

/// The distance in sequence space is what takes one number to the other.
pub proof fn law_seq_distance(from: u32, n: u32)
    ensures
        seq_distance(from, ((from + n) % 0x1_0000_0000) as u32) == n,
{
}

/// Data moves towards the guest exactly while the connection is up, the
/// host's FIN was not forwarded yet, there is room in the guest's window,
/// and something is unsent, closed, or not watched by a poll.
pub proof fn law_when_data_moves(t: Tcp)
    requires
        t.wf(),
    ensures
        t.spec_push() == Push::Fill <==> {
            &&& t.state == TcpState::Established
            &&& t.host_fin == FinState::NotSent
            &&& t.guest_window > t.sent_unacked
            &&& t.buffered > t.sent_unacked || t.host_eof || !t.poll_armed
        },
        t.spec_push() == Push::WindowFull <==> {
            &&& t.state == TcpState::Established
            &&& t.host_fin == FinState::NotSent
            &&& t.guest_window <= t.sent_unacked
            &&& t.buffered > t.sent_unacked || t.host_eof || !t.poll_armed
        },
{
}

/// The host socket is read into all of the ring's free space, and not at
/// all once the host closed or the ring is full.
pub proof fn law_space_is_all(t: Tcp)
    requires
        t.wf(),
    ensures
        t.spec_space() is None <==> t.host_eof || t.buffered == 262_144,
        t.spec_space() matches Some(s) ==> s.first + s.second == 262_144 - t.buffered && s.wpos
            + s.first <= 262_144 && (s.second > 0 ==> s.wpos + s.first == 262_144),
{
}

/// What follows a read of the host socket: unsent data is sent; with none,
/// a FIN once everything was acknowledged; else a poll where the socket ran
/// dry and none is pending.
pub proof fn law_next(t: Tcp, drained: bool)
    requires
        t.wf(),
    ensures
        t.spec_next(drained) == Next::Send <==> t.buffered > t.sent_unacked,
        t.spec_next(drained) == Next::Fin <==> t.buffered == 0 && t.host_eof,
        t.spec_next(drained) == Next::Arm <==> t.buffered == t.sent_unacked && !(t.buffered == 0
            && t.host_eof) && drained && !t.poll_armed,
{
}

/// A burst sends all that is unsent or all that the window takes, whichever
/// is less, and says whether the window cut it short.
pub proof fn law_burst_is_maximal(t: Tcp, tso: bool)
    requires
        t.wf(),
        t.guest_window >= t.sent_unacked,
    ensures
        ({
            let b = t.spec_burst(tso);
            &&& b.send_len == t.buffered - t.sent_unacked || b.send_len == t.guest_window
                - t.sent_unacked
            &&& b.send_len <= t.buffered - t.sent_unacked
            &&& b.send_len <= t.guest_window - t.sent_unacked
            &&& b.short <==> t.buffered > t.guest_window
        }),
{
}

/// How a burst is framed: more than one segment's worth goes out as
/// super-frames where the tap can carry them; else every frame but the last
/// holds exactly one segment, or what an IP packet can hold.
pub proof fn law_burst_frames(t: Tcp, tso: bool)
    requires
        t.wf(),
    ensures
        ({
            let b = t.spec_burst(tso);
            &&& b.gso <==> tso && b.send_len > t.guest_mss
            &&& b.gso ==> b.chunk == (if b.send_len <= 65_475 {
                b.send_len
            } else {
                65_475
            })
            &&& !b.gso && b.send_len > t.guest_mss && t.guest_mss <= 65_475 ==> b.chunk
                == t.guest_mss
            &&& b.send_len <= t.guest_mss && b.send_len <= 65_475 ==> b.chunk == b.send_len
        }),
{
}

/// A burst that went out is in flight; nothing else changes.
pub proof fn law_sent_is_in_flight(t: Tcp, tso: bool, now: Instant, ring: Seq<u8>)
    requires
        t.wf(),
    ensures
        ({
            let b = t.spec_burst(tso);
            let u = t.sent(b.send_len as int, now);
            &&& u == (Tcp {
                sent_unacked: (t.sent_unacked + b.send_len) as u32,
                last_progress: now,
                ..t
            })
            &&& u.sent_unacked <= u.buffered
            &&& u.pending(ring) == t.pending(ring)
        }),
{
    let u = t.sent(t.spec_burst(tso).send_len as int, now);
    assert(u.pending(ring) =~= t.pending(ring));
}

/// The advertised window leaves less than one unit of the send buffer's
/// free space unused, unless the window field is full.
pub proof fn law_window_is_tight(t: Tcp, queued: i32)
    ensures
        ({
            let unit: int = if t.guest_wscale is Some {
                128
            } else {
                1
            };
            let used: int = if queued > 0 {
                queued as int
            } else {
                0
            };
            let w = t.spec_window(Some(queued));
            &&& w == 65535 || t.sndbuf - used < (w + 1) * unit
            &&& t.spec_window(None) == 0
            &&& t.spec_syn_window() == (if t.sndbuf < 65535 {
                t.sndbuf as int
            } else {
                65535
            })
        }),
{
}

/// A connection is over exactly when the guest closed its side and
/// acknowledged our FIN.
pub proof fn law_finished(t: Tcp)
    ensures
        t.spec_finished() <==> t.guest_fin_received && t.host_fin == FinState::Acked,
{
}

/// The end of the host's stream is remembered and brings no bytes; any
/// other read brings its bytes and nothing else.
pub proof fn law_filled(t: Tcp, n: int)
    requires
        t.wf(),
        0 <= n <= 262_144 - t.buffered,
    ensures
        n == 0 ==> t.filled(n) == (Tcp { host_eof: true, ..t }),
        n > 0 ==> t.filled(n) == (Tcp { buffered: (t.buffered + n) as u32, ..t }),
{
}

} // verus!
