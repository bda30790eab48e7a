//! Invariant of the event loop's state: every buffer has one owner, the
//! flow index agrees with the flows, and everything handed to the caller
//! stays within its buffer.

use vstd::prelude::*;

use crate::buf;
use crate::buf::{BufId, PoolView};
use crate::flow;
use crate::flow::{Flow, FlowKey, FlowKind, TableView};
use crate::frame;
use crate::tap::Offloads;
use crate::uring::state;
use crate::uring::state::{After, Counter, Op, Pending, Request, State};
use crate::Config;

verus! {

/// A TCP flow has TCP state in its invariant, another flow has none, and
/// a closing flow has an operation whose completion will free it.
pub open spec fn flow_ok(f: Flow) -> bool {
    &&& f.kind == FlowKind::Tcp <==> f.tcp is Some
    &&& f.tcp matches Some(t) ==> t.wf()
    &&& f.closing ==> state::has_pending_op(f)
}

/// A range within a buffer of the pool.
pub open spec fn range_ok(pool: PoolView, buf: BufId, start: usize, end: usize) -> bool {
    buf < pool.bufs.len() && start <= end <= buf::BUF_SIZE
}

/// Flow `id` owns its buffer: it is neither free nor the tap's.
pub open spec fn owns_buf(pool: PoolView, tap_buf: BufId, f: Flow) -> bool {
    &&& f.buf < pool.bufs.len()
    &&& f.buf != tap_buf
    &&& !pool.free.contains(f.buf)
}

/// Every buffer has one owner: the tap has its own, each flow has its own,
/// and the rest are free. None is lost.
pub open spec fn owners_ok(pool: PoolView, flows: TableView, tap_buf: BufId) -> bool {
    &&& tap_buf < pool.bufs.len()
    &&& !pool.free.contains(tap_buf)
    &&& forall|id: usize| #[trigger]
        flows.holds(id) ==> owns_buf(pool, tap_buf, flows.flow(id)) && flow_ok(flows.flow(id))
    &&& forall|a: usize, b: usize| #[trigger]
        flows.holds(a) && #[trigger] flows.holds(b) && a != b ==> flows.flow(a).buf != flows.flow(
            b,
        ).buf
    &&& pool.free.len() + (flows.slots.len() - flows.free.len()) + 1 == pool.bufs.len()
    &&& flows.slots.len() < pool.bufs.len()
}

/// A flow for `key` may be created.
pub open spec fn key_is_new(flows: TableView, key: FlowKey) -> bool {
    flows.lookup(key) is None
}

/// A range within the tap buffer.
pub open spec fn tap_range_ok(start: usize, end: usize) -> bool {
    start <= end <= buf::BUF_SIZE
}

/// A super-frame that is being collected holds whole segments of `seg`
/// bytes, and no more than one packet can carry unless it is a single
/// datagram.
pub open spec fn super_frame_ok(seg: usize, total: usize) -> bool {
    &&& 0 < seg <= total <= buf::FRAME
    &&& total % seg == 0
    &&& total == seg || total <= state::UDP_MAX_PAYLOAD
}

/// A note for the counters: no socket takes more than it was given, and
/// lengths are those of frames.
pub open spec fn counter_ok(c: Counter) -> bool {
    match c {
        Counter::TapIn(n) => n <= 2 * buf::BUF_SIZE,
        Counter::TapOut(n) => n <= 2 * buf::BUF_SIZE,
        Counter::SockSend { accepted, wanted } => accepted <= wanted <= buf::BUF_SIZE,
        _ => true,
    }
}

impl State {
    /// An action stays within its buffer.
    pub open spec fn op_ok(self, o: Op) -> bool {
        match o {
            Op::WriteTap { buf, start, end } => range_ok(self.pool, buf, start, end),
            Op::WriteSegment { hdr_start, hdr_end, buf, start, end, start2, end2 } => {
                &&& hdr_start <= hdr_end <= self.hdrs.len()
                &&& range_ok(self.pool, buf, start, end)
                &&& range_ok(self.pool, buf, start2, end2)
            },
            Op::Send { start, end, .. } => tap_range_ok(start, end),
            Op::ArmRecv { buf, start, end, .. } => range_ok(self.pool, buf, start, end),
            Op::ArmTapRead { buf } => buf == self.tap_buf,
            Op::Count(c) => counter_ok(c),
            _ => true,
        }
    }

    /// A request stays within its buffer.
    pub open spec fn ask_ok(self, r: Request) -> bool {
        match r {
            Request::ArmRecv { buf, start, end, .. } => range_ok(self.pool, buf, start, end),
            Request::SendTcp { start, end, .. } => tap_range_ok(start, end),
            Request::RecvTcp { buf, start, end, start2, end2, .. } => {
                &&& range_ok(self.pool, buf, start, end)
                &&& range_ok(self.pool, buf, start2, end2)
            },
            Request::RecvUdp { buf, start, end, .. } => range_ok(self.pool, buf, start, end),
            _ => true,
        }
    }

    /// What is awaited makes sense: a flow that is being created does not
    /// exist yet, the tap is not read before the bytes that wait in its
    /// buffer are dealt with, and ranges stay within their buffer.
    pub open spec fn pending_ok(self, p: Pending) -> bool {
        match p {
            Pending::NewFlow { key, kind, l4, start, end } => {
                &&& self.after is Tap
                &&& key_is_new(self.flows, key)
                &&& kind != FlowKind::Tcp
                &&& frame::l4_start_ok(l4)
                &&& tap_range_ok(start, end)
            },
            Pending::Resolving { key, start, end } => {
                &&& self.after is Tap
                &&& key_is_new(self.flows, key)
                &&& tap_range_ok(start, end)
            },
            Pending::Opening { key, kind, start, end } => {
                &&& self.after is Tap
                &&& key_is_new(self.flows, key)
                &&& kind != FlowKind::Tcp
                &&& tap_range_ok(start, end)
            },
            Pending::Arming { start, end, .. } => self.after is Tap && tap_range_ok(start, end),
            Pending::NewTcp { key, l4, .. } => {
                &&& self.after is Tap
                &&& key_is_new(self.flows, key)
                &&& frame::l4_start_ok(l4)
            },
            Pending::OpeningTcp { key, .. } => self.after is Tap && key_is_new(self.flows, key),
            Pending::Sending { id, start, end, .. } => {
                &&& self.after == After::TapTcp(id)
                &&& tap_range_ok(start, end)
            },
            Pending::Draining { seg, total, .. } => super_frame_ok(seg, total),
            Pending::Flushing { total, n, .. } => 0 < n && total + n <= buf::FRAME,
            _ => true,
        }
    }

    /// The invariant.
    pub open spec fn wf(self) -> bool {
        &&& self.pool.wf()
        &&& self.pool.distinct()
        &&& self.flows.wf()
        &&& self.flows.keyed()
        &&& owners_ok(self.pool, self.flows, self.tap_buf)
        &&& self.pending_ok(self.pending)
        &&& self.ask_ok(self.ask)
        &&& forall|i: int| 0 <= i < self.ops.len() ==> self.op_ok(#[trigger] self.ops[i])
    }
}

/// A flow replaced by one with the same key and buffer keeps the invariant.
pub proof fn lemma_with_flow_wf(s: State, id: usize, f: Flow)
    requires
        s.wf(),
        s.holds(id),
        f.key == s.flow(id).key,
        f.buf == s.flow(id).buf,
        flow_ok(f),
    ensures
        s.with_flow(id, f).wf(),
{
    let t = s.flows.with_flow(id, f);
    flow::lemma_with_flow(s.flows, id);
    assert(t.wf());
    assert forall|j: usize| t.holds(j) == #[trigger] s.flows.holds(j) by {}
    assert forall|j: usize| #[trigger] t.holds(j) implies s.flows.holds(j) && t.flow(j).key
        == s.flows.flow(j).key && t.flow(j).buf == s.flows.flow(j).buf && flow_ok(t.flow(j)) by {
        assert(s.flows.holds(j));
    }
    assert(t.keyed()) by {
        assert forall|k: flow::KeyTuple| #[trigger] t.index.contains_key(k) implies t.holds(
            t.index[k],
        ) && t.flow(t.index[k]).key.tuple() == k by {
            assert(s.flows.index.contains_key(k));
            assert(s.flows.holds(t.index[k]));
        }
    }
    assert(owners_ok(s.pool, t, s.tap_buf)) by {
        assert forall|j: usize| #[trigger] t.holds(j) implies owns_buf(
            s.pool,
            s.tap_buf,
            t.flow(j),
        ) && flow_ok(t.flow(j)) by {
            assert(s.flows.holds(j));
        }
        assert forall|a: usize, b: usize| #[trigger]
            t.holds(a) && #[trigger] t.holds(b) && a != b implies t.flow(a).buf != t.flow(
            b,
        ).buf by {
            assert(s.flows.holds(a) && s.flows.holds(b));
        }
    }
    assert(s.with_flow(id, f).pending_ok(s.pending));
    assert forall|i: int| 0 <= i < s.ops.len() implies s.with_flow(id, f).op_ok(
        #[trigger] s.ops[i],
    ) by {
        assert(s.op_ok(s.ops[i]));
    }
}

/// An action that stays within its buffer keeps the invariant.
pub proof fn lemma_op_wf(s: State, o: Op)
    requires
        s.wf(),
        s.op_ok(o),
    ensures
        s.op(o).wf(),
{
    let t = s.op(o);
    assert forall|i: int| 0 <= i < t.ops.len() implies t.op_ok(#[trigger] t.ops[i]) by {
        if i < s.ops.len() {
            assert(s.op_ok(s.ops[i]));
        }
    }
}

/// New bytes for a buffer keep the invariant.
pub proof fn lemma_with_buf_wf(s: State, id: BufId, b: Seq<u8>)
    requires
        s.wf(),
        id < s.pool.bufs.len(),
        b.len() == buf::BUF_SIZE,
    ensures
        s.with_buf(id, b).wf(),
{
    let t = s.with_buf(id, b);
    assert forall|i: int| 0 <= i < t.ops.len() implies t.op_ok(#[trigger] t.ops[i]) by {
        assert(s.op_ok(s.ops[i]));
    }
    assert forall|j: usize| #[trigger] t.flows.holds(j) implies owns_buf(
        t.pool,
        t.tap_buf,
        t.flows.flow(j),
    ) && flow_ok(t.flows.flow(j)) by {
        assert(s.flows.holds(j));
    }
}

/// Freeing a flow's slot and buffer keeps the invariant.
pub proof fn lemma_free_flow_wf(s: State, id: usize)
    requires
        s.wf(),
        s.holds(id),
    ensures
        (State {
            flows: s.flows.removed(id),
            pool: s.pool.freed(s.flow(id).buf),
            ..s
        }).wf(),
{
    let buf = s.flow(id).buf;
    let t = State { flows: s.flows.removed(id), pool: s.pool.freed(buf), ..s };
    assert(s.flows.holds(id));
    flow::lemma_removed_wf(s.flows, id);
    flow::law_remove_keyed(s.flows, id);
    flow::law_remove(s.flows, id);
    assert(t.pool.free == s.pool.free.push(buf));
    assert(t.pool.distinct()) by {
        assert forall|i: int, j: int|
            0 <= i < t.pool.free.len() && 0 <= j < t.pool.free.len() && i
                != j implies t.pool.free[i] != t.pool.free[j] by {
            if i == s.pool.free.len() {
                assert(s.pool.free.contains(s.pool.free[j]));
            } else if j == s.pool.free.len() {
                assert(s.pool.free.contains(s.pool.free[i]));
            }
        }
    }
    assert forall|b: BufId| t.pool.free.contains(b) implies s.pool.free.contains(b) || b
        == buf by {
        let i = choose|i: int| 0 <= i < t.pool.free.len() && t.pool.free[i] == b;
        if i < s.pool.free.len() {
            assert(s.pool.free[i] == b);
        }
    }
    assert forall|j: usize| #[trigger] t.flows.holds(j) implies owns_buf(
        t.pool,
        t.tap_buf,
        t.flows.flow(j),
    ) && flow_ok(t.flows.flow(j)) by {
        assert(j != id);
        assert(s.flows.holds(j));
        assert(s.flows.flow(j).buf != buf);
    }
    assert forall|a: usize, b: usize| #[trigger]
        t.flows.holds(a) && #[trigger] t.flows.holds(b) && a != b implies t.flows.flow(a).buf
        != t.flows.flow(b).buf by {
        assert(s.flows.holds(a) && s.flows.holds(b));
    }
    assert forall|k: FlowKey| key_is_new(s.flows, k) implies #[trigger] key_is_new(t.flows, k) by {}
    assert(t.pending_ok(t.pending));
    assert forall|i: int| 0 <= i < t.ops.len() implies t.op_ok(#[trigger] t.ops[i]) by {
        assert(s.op_ok(s.ops[i]));
    }
}

/// Inserting a flow with a new key and a buffer from the pool keeps the
/// invariant.
pub proof fn lemma_add_flow_wf(s: State, f: Flow)
    requires
        s.wf(),
        s.pending is Idle,
        s.pool.free.len() > 0,
        f.buf == s.pool.free.last(),
        flow_ok(f),
        key_is_new(s.flows, f.key),
    ensures
        (State { pool: s.pool.alloced(), flows: s.flows.inserted(f), ..s }).wf(),
        s.flows.inserted(f).holds(s.flows.next_id()),
        s.flows.inserted(f).flow(s.flows.next_id()) == f,
{
    let t = State { pool: s.pool.alloced(), flows: s.flows.inserted(f), ..s };
    let id = s.flows.next_id();
    flow::lemma_inserted_wf(s.flows, f);
    flow::law_insert_keyed(s.flows, f);
    flow::law_insert(s.flows, f);
    let n = s.pool.free.len();
    assert(s.pool.free[n - 1] == f.buf);
    assert(s.pool.free.contains(f.buf));
    assert forall|b: BufId| t.pool.free.contains(b) implies s.pool.free.contains(b) && b
        != f.buf by {
        let i = choose|i: int| 0 <= i < t.pool.free.len() && t.pool.free[i] == b;
        assert(s.pool.free[i] == b);
    }
    assert forall|j: usize| #[trigger] t.flows.holds(j) implies owns_buf(
        t.pool,
        t.tap_buf,
        t.flows.flow(j),
    ) && flow_ok(t.flows.flow(j)) by {
        if j != id {
            assert(s.flows.holds(j));
        }
    }
    assert forall|a: usize, b: usize| #[trigger]
        t.flows.holds(a) && #[trigger] t.flows.holds(b) && a != b implies t.flows.flow(a).buf
        != t.flows.flow(b).buf by {
        if a != id {
            assert(s.flows.holds(a));
        }
        if b != id {
            assert(s.flows.holds(b));
        }
    }
    assert forall|i: int| 0 <= i < t.ops.len() implies t.op_ok(#[trigger] t.ops[i]) by {
        assert(s.op_ok(s.ops[i]));
    }
}

/// A new datapath satisfies the invariant.
pub proof fn lemma_initial_wf(cfg: Config, offloads: Offloads)
    requires
        0 < cfg.buffers <= u32::MAX,
    ensures
        State::initial(cfg, offloads).wf(),
{
    let s = State::initial(cfg, offloads);
    assert forall|b: BufId| s.pool.free.contains(b) implies b < s.tap_buf by {
        let i = choose|i: int| 0 <= i < s.pool.free.len() && s.pool.free[i] == b;
    }
}

} // verus!
