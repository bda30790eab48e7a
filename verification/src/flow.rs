//! Flow table: guest 5-tuple to host socket.

use std::collections::HashMap;

use vstd::prelude::*;

use crate::addr;
use crate::addr::{IpAddr, SocketAddr};
use crate::buf::BufId;
pub use crate::tcp::{FinState, Tcp, TcpState};

verus! {

/// Point on a monotonic clock, in nanoseconds.
pub type Instant = u64;

/// A host socket, by its file descriptor number.
pub type Fd = i32;

/// Guest-visible identity of a flow. `dst` is what the guest addressed
/// (before any DNS redirect), so replies can be sourced from it. For
/// ICMP echo flows `guest_port` carries the guest's echo identifier
/// and the port in `dst` is zero.
#[derive(Debug, Clone, Copy, PartialEq, Eq, Hash)]
pub struct FlowKey {
    pub proto: u8,
    pub guest_port: u16,
    pub dst: SocketAddr,
}

/// A flow key as integers: protocol, guest port, whether the destination
/// is IPv6, its octets (IPv4 padded with zeros) and its port.
pub type KeyTuple = (u8, u16, bool, [u8; 16], u16);

impl FlowKey {
    /// The key under which the table indexes the flow.
    pub open spec fn tuple(self) -> KeyTuple {
        match self.dst.ip {
            IpAddr::V4(ip) => (
                self.proto,
                self.guest_port,
                false,
                [
                    ip.octets[0],
                    ip.octets[1],
                    ip.octets[2],
                    ip.octets[3],
                    0,
                    0,
                    0,
                    0,
                    0,
                    0,
                    0,
                    0,
                    0,
                    0,
                    0,
                    0,
                ],
                self.dst.port,
            ),
            IpAddr::V6(ip) => (self.proto, self.guest_port, true, ip.octets, self.dst.port),
        }
    }

    fn to_tuple(&self) -> (r: KeyTuple)
        ensures
            r == self.tuple(),
    {
        match self.dst.ip {
            IpAddr::V4(ip) => {
                let o = ip.octets;
                (
                    self.proto,
                    self.guest_port,
                    false,
                    [o[0], o[1], o[2], o[3], 0, 0, 0, 0, 0, 0, 0, 0, 0, 0, 0, 0],
                    self.dst.port,
                )
            },
            IpAddr::V6(ip) => (self.proto, self.guest_port, true, ip.octets, self.dst.port),
        }
    }
}

/// Different flow keys have different index keys.
pub proof fn law_key_injective(a: FlowKey, b: FlowKey)
    requires
        a.tuple() == b.tuple(),
    ensures
        a == b,
{
    match (a.dst.ip, b.dst.ip) {
        (IpAddr::V4(x), IpAddr::V4(y)) => {
            let s = a.tuple().3@;
            let t = b.tuple().3@;
            assert(s[0] == t[0] && s[1] == t[1] && s[2] == t[2] && s[3] == t[3]);
            assert(x.octets@ =~= y.octets@);
            addr::lemma_v4_ext(x, y);
        },
        _ => {},
    }
}

/// How replies from the host socket are framed back to the guest.
#[derive(Debug, Clone, Copy, PartialEq, Eq, Structural)]
pub enum FlowKind {
    Udp,
    /// ICMP/ICMPv6 echo over a ping socket; the kernel rewrites the
    /// echo identifier, so replies are patched back to the guest's.
    Ping,
    /// TCP, terminated towards the guest by [`Tcp`].
    Tcp,
}

/// A flow: connected host socket plus the buffer its pending recv
/// targets.
#[derive(Debug, Clone, Copy)]
pub struct Flow {
    pub key: FlowKey,
    pub kind: FlowKind,
    pub sock: Fd,
    pub buf: BufId,
    pub last_active: Instant,
    /// Connection state of a TCP flow.
    pub tcp: Option<Tcp>,
    /// Set once expiry has cancelled the pending operation; the slot is
    /// freed when that operation completes.
    pub closing: bool,
}

/// Flows indexed by a stable id (used as `io_uring` `user_data`) and by key.
/// Slots of removed flows are reused only after their pending operation
/// completed, so in-flight completions never hit a different flow.
pub struct FlowTable {
    flows: Vec<Option<Flow>>,
    free: Vec<usize>,
    by_key: HashMap<KeyTuple, usize, foldhash::fast::RandomState>,
}

/// Contents of a flow table: the slots, the stack of reusable slot ids and
/// the index from keys to slot ids.
#[verifier::ext_equal]
pub struct TableView {
    pub slots: Seq<Option<Flow>>,
    pub free: Seq<usize>,
    pub index: Map<KeyTuple, usize>,
}

/// The hash builder of the key index, seeded at random when it is made.
#[verifier::external_type_specification]
#[verifier::external_body]
pub struct ExFoldState(foldhash::fast::RandomState);

/// Wraps `HashMap::get` on a map hashed by `foldhash::fast::RandomState`:
/// the value stored under the key, if there is one. Every hasher that one
/// such state builds starts from the same seeds, and tuples of integers
/// compare and hash by value.
#[verifier::external_body]
fn index_get(
    m: &HashMap<KeyTuple, usize, foldhash::fast::RandomState>,
    k: &KeyTuple,
) -> (r: Option<usize>)
    ensures
        r == (if m@.contains_key(*k) {
            Some(m@[*k])
        } else {
            None
        }),
{
    m.get(k).copied()
}

/// Wraps `HashMap::insert` on a map hashed by `foldhash::fast::RandomState`:
/// the key maps to the value afterwards, nothing else changes.
#[verifier::external_body]
fn index_insert(
    m: &mut HashMap<KeyTuple, usize, foldhash::fast::RandomState>,
    k: KeyTuple,
    v: usize,
)
    ensures
        final(m)@ == old(m)@.insert(k, v),
{
    m.insert(k, v);
}

/// Wraps `HashMap::remove` on a map hashed by `foldhash::fast::RandomState`:
/// the key maps to nothing afterwards, nothing else changes.
#[verifier::external_body]
fn index_remove(m: &mut HashMap<KeyTuple, usize, foldhash::fast::RandomState>, k: &KeyTuple)
    ensures
        final(m)@ == old(m)@.remove(*k),
{
    m.remove(k);
}

impl View for FlowTable {
    type V = TableView;

    closed spec fn view(&self) -> TableView {
        TableView { slots: self.flows@, free: self.free@, index: self.by_key@ }
    }
}

/// Ids below `n` of the flows that satisfy `p`, in ascending order.
pub open spec fn ids_where(
    slots: Seq<Option<Flow>>,
    n: nat,
    p: spec_fn(Flow) -> bool,
) -> Seq<usize>
    decreases n,
{
    if n == 0 {
        Seq::empty()
    } else {
        let rest = ids_where(slots, (n - 1) as nat, p);
        match slots[n - 1] {
            Some(f) => if p(f) {
                rest.push((n - 1) as usize)
            } else {
                rest
            },
            None => rest,
        }
    }
}

/// Idle since before `cutoff` and not yet closing.
pub open spec fn is_expired(f: Flow, cutoff: Instant) -> bool {
    !f.closing && f.last_active < cutoff
}

/// A TCP flow with data in flight that made no progress since before
/// `cutoff` and is not closing.
pub open spec fn is_stalled(f: Flow, cutoff: Instant) -> bool {
    &&& !f.closing
    &&& f.tcp matches Some(t)
    &&& t.sent_unacked > 0
    &&& t.last_progress < cutoff
}

/// A UDP or ping flow that is not closing already.
pub open spec fn is_evictable(f: Flow) -> bool {
    !f.closing && f.kind != FlowKind::Tcp
}

/// The least recently used evictable flow below `n`, the lowest id among
/// equals.
pub open spec fn lru_below(slots: Seq<Option<Flow>>, n: nat) -> Option<usize>
    decreases n,
{
    if n == 0 {
        None
    } else {
        let best = lru_below(slots, (n - 1) as nat);
        match slots[n - 1] {
            Some(f) => if is_evictable(f) && (best is None || f.last_active
                < slots[best->0 as int]->0.last_active) {
                Some((n - 1) as usize)
            } else {
                best
            },
            None => best,
        }
    }
}

impl TableView {
    /// Reusable ids are distinct and name empty slots.
    pub open spec fn wf(self) -> bool {
        &&& self.slots.len() <= usize::MAX
        &&& self.free.no_duplicates()
        &&& forall|i: int|
            0 <= i < self.free.len() ==> (#[trigger] self.free[i]) < self.slots.len()
                && self.slots[self.free[i] as int] is None
    }

    /// The index and the slots agree: each key leads to the slot that
    /// holds the flow of that key, and each flow is found by its key.
    pub open spec fn keyed(self) -> bool {
        &&& forall|k: KeyTuple| #[trigger]
            self.index.contains_key(k) ==> self.holds(self.index[k]) && self.flow(
                self.index[k],
            ).key.tuple() == k
        &&& forall|id: usize| #[trigger]
            self.holds(id) ==> self.index.contains_key(self.flow(id).key.tuple())
                && self.index[self.flow(id).key.tuple()] == id
    }

    /// Slot `id` holds a flow.
    pub open spec fn holds(self, id: usize) -> bool {
        id < self.slots.len() && self.slots[id as int] is Some
    }

    /// The flow in slot `id`.
    pub open spec fn flow(self, id: usize) -> Flow {
        self.slots[id as int]->0
    }

    /// The id found under a key.
    pub open spec fn lookup(self, key: FlowKey) -> Option<usize> {
        if self.index.contains_key(key.tuple()) {
            Some(self.index[key.tuple()])
        } else {
            None
        }
    }

    /// The id that the next inserted flow gets: the slot freed last, or a
    /// new one.
    pub open spec fn next_id(self) -> usize {
        if self.free.len() > 0 {
            self.free.last()
        } else {
            self.slots.len() as usize
        }
    }

    /// The table with `flow` inserted.
    pub open spec fn inserted(self, flow: Flow) -> TableView {
        let id = self.next_id();
        TableView {
            slots: if self.free.len() > 0 {
                self.slots.update(id as int, Some(flow))
            } else {
                self.slots.push(Some(flow))
            },
            free: if self.free.len() > 0 {
                self.free.drop_last()
            } else {
                self.free
            },
            index: self.index.insert(flow.key.tuple(), id),
        }
    }

    /// The table with the flow in slot `id` removed.
    pub open spec fn removed(self, id: usize) -> TableView {
        if self.holds(id) {
            TableView {
                slots: self.slots.update(id as int, None),
                free: self.free.push(id),
                index: self.index.remove(self.flow(id).key.tuple()),
            }
        } else {
            self
        }
    }

    /// The table with the flow in slot `id` replaced by `flow`.
    pub open spec fn with_flow(self, id: usize, flow: Flow) -> TableView {
        TableView { slots: self.slots.update(id as int, Some(flow)), ..self }
    }
}

impl FlowTable {
    /// Reusable slots are empty and distinct.
    pub open spec fn inv(self) -> bool {
        self@.wf()
    }

    /// An empty table.
    #[must_use]
    pub fn new() -> (r: Self)
        ensures
            r.inv(),
            r@ == (TableView {
                slots: Seq::empty(),
                free: Seq::empty(),
                index: Map::empty(),
            }),
    {
        let r = FlowTable { flows: Vec::new(), free: Vec::new(), by_key: HashMap::default() };
        assert(r@ =~= (TableView { slots: Seq::empty(), free: Seq::empty(), index: Map::empty() }));
        r
    }

    #[must_use]
    pub fn get(&self, key: &FlowKey) -> (r: Option<usize>)
        ensures
            r == self@.lookup(*key),
    {
        index_get(&self.by_key, &key.to_tuple())
    }

    #[must_use]
    pub fn get_by_id(&self, id: usize) -> (r: Option<&Flow>)
        ensures
            match r {
                Some(f) => self@.holds(id) && *f == self@.flow(id),
                None => !self@.holds(id),
            },
    {
        if id < self.flows.len() {
            self.flows[id].as_ref()
        } else {
            None
        }
    }

    pub fn get_mut(&mut self, id: usize) -> (r: Option<&mut Flow>)
        requires
            old(self).inv(),
        ensures
            match r {
                Some(f) => {
                    &&& old(self)@.holds(id)
                    &&& *f == old(self)@.flow(id)
                    &&& final(self)@ == old(self)@.with_flow(id, *final(f))
                    &&& final(self).inv()
                },
                None => !old(self)@.holds(id) && final(self)@ == old(self)@ && final(self).inv(),
            },
    {
        if id < self.flows.len() {
            proof {
                lemma_with_flow(self@, id);
            }
            let slot: &mut Option<Flow> = &mut self.flows[id];
            slot.as_mut()
        } else {
            None
        }
    }

    pub fn insert(&mut self, flow: Flow) -> (id: usize)
        requires
            old(self).inv(),
            old(self)@.slots.len() < usize::MAX,
        ensures
            final(self).inv(),
            id == old(self)@.next_id(),
            final(self)@ == old(self)@.inserted(flow),
    {
        let key = flow.key.to_tuple();
        let id: usize = match self.free.pop() {
            Some(id) => {
                assert(old(self)@.free[old(self)@.free.len() - 1] == id);
                self.flows[id] = Some(flow);
                id
            },
            None => {
                self.flows.push(Some(flow));
                self.flows.len() - 1
            },
        };
        index_insert(&mut self.by_key, key, id);
        assert(self@ =~= old(self)@.inserted(flow));
        proof {
            lemma_inserted_wf(old(self)@, flow);
        }
        id
    }

    /// Drop the flow and hand back its buffer id.
    pub fn remove(&mut self, id: usize) -> (r: Option<BufId>)
        requires
            old(self).inv(),
        ensures
            final(self).inv(),
            final(self)@ == old(self)@.removed(id),
            r == (if old(self)@.holds(id) {
                Some(old(self)@.flow(id).buf)
            } else {
                None
            }),
    {
        if id >= self.flows.len() {
            return None;
        }
        let flow = match self.flows[id] {
            Some(f) => f,
            None => {
                return None;
            },
        };
        self.flows[id] = None;
        index_remove(&mut self.by_key, &flow.key.to_tuple());
        self.free.push(id);
        assert(self@ =~= old(self)@.removed(id));
        proof {
            lemma_removed_wf(old(self)@, id);
        }
        Some(flow.buf)
    }

    /// Ids of flows idle since before `cutoff` and not yet closing.
    #[must_use]
    pub fn expired(&self, cutoff: Instant) -> (r: Vec<usize>)
        ensures
            r@ == ids_where(self@.slots, self@.slots.len(), |f: Flow| is_expired(f, cutoff)),
    {
        let ghost p = |f: Flow| is_expired(f, cutoff);
        let mut ids: Vec<usize> = Vec::new();
        let mut i: usize = 0;
        while i < self.flows.len()
            invariant
                i <= self.flows@.len(),
                p == (|f: Flow| is_expired(f, cutoff)),
                ids@ == ids_where(self.flows@, i as nat, p),
            decreases self.flows@.len() - i,
        {
            match &self.flows[i] {
                Some(f) => {
                    if !f.closing && f.last_active < cutoff {
                        ids.push(i);
                    }
                },
                None => {},
            }
            i += 1;
        }
        ids
    }

    /// Ids of TCP flows whose in-flight data saw no ack since before
    /// `cutoff`.
    #[must_use]
    pub fn retransmit_due(&self, cutoff: Instant) -> (r: Vec<usize>)
        ensures
            r@ == ids_where(self@.slots, self@.slots.len(), |f: Flow| is_stalled(f, cutoff)),
    {
        let ghost p = |f: Flow| is_stalled(f, cutoff);
        let mut ids: Vec<usize> = Vec::new();
        let mut i: usize = 0;
        while i < self.flows.len()
            invariant
                i <= self.flows@.len(),
                p == (|f: Flow| is_stalled(f, cutoff)),
                ids@ == ids_where(self.flows@, i as nat, p),
            decreases self.flows@.len() - i,
        {
            match &self.flows[i] {
                Some(f) => {
                    let due = match &f.tcp {
                        Some(t) => t.sent_unacked > 0 && t.last_progress < cutoff,
                        None => false,
                    };
                    if !f.closing && due {
                        ids.push(i);
                    }
                },
                None => {},
            }
            i += 1;
        }
        ids
    }

    /// The least recently used UDP or ping flow that is not closing.
    #[must_use]
    pub fn lru_evictable(&self) -> (r: Option<usize>)
        ensures
            r == lru_below(self@.slots, self@.slots.len()),
    {
        let mut best: Option<usize> = None;
        let mut oldest: Instant = 0;
        let mut i: usize = 0;
        while i < self.flows.len()
            invariant
                i <= self.flows@.len(),
                best == lru_below(self.flows@, i as nat),
                best matches Some(b) ==> b < i && self.flows@[b as int] is Some && oldest
                    == self.flows@[b as int]->0.last_active,
            decreases self.flows@.len() - i,
        {
            match &self.flows[i] {
                Some(f) => {
                    if !f.closing && f.kind != FlowKind::Tcp && (best.is_none() || f.last_active
                        < oldest) {
                        best = Some(i);
                        oldest = f.last_active;
                    }
                },
                None => {},
            }
            i += 1;
        }
        best
    }
}

impl Default for FlowTable {
    fn default() -> (r: Self)
        ensures
            r.inv(),
            r@ == (TableView {
                slots: Seq::empty(),
                free: Seq::empty(),
                index: Map::empty(),
            }),
    {
        FlowTable::new()
    }
}

/// Replacing a flow in its slot keeps the table well formed.
pub proof fn lemma_with_flow(t: TableView, id: usize)
    requires
        t.wf(),
    ensures
        t.holds(id) ==> forall|f: Flow| (#[trigger] t.with_flow(id, f)).wf(),
{
}

/// Inserting keeps the table well formed.
pub proof fn lemma_inserted_wf(t: TableView, flow: Flow)
    requires
        t.wf(),
        t.slots.len() < usize::MAX,
    ensures
        t.inserted(flow).wf(),
{
}

/// Removing keeps the table well formed.
pub proof fn lemma_removed_wf(t: TableView, id: usize)
    requires
        t.wf(),
    ensures
        t.removed(id).wf(),
{
}

/// An inserted flow is found by its key and by its id, and no other flow
/// changes.
pub proof fn law_insert(t: TableView, flow: Flow)
    requires
        t.wf(),
        t.slots.len() < usize::MAX,
    ensures
        ({
            let id = t.next_id();
            let u = t.inserted(flow);
            &&& !t.holds(id)
            &&& u.lookup(flow.key) == Some(id)
            &&& u.holds(id) && u.flow(id) == flow
            &&& forall|j: usize|
                j != id ==> #[trigger] u.holds(j) == t.holds(j) && (t.holds(j) ==> u.flow(j)
                    == t.flow(j))
            &&& forall|k: FlowKey| k.tuple() != flow.key.tuple() ==> #[trigger] u.lookup(k)
                == t.lookup(k)
        }),
{
    let id = t.next_id();
    if t.free.len() > 0 {
        assert(t.free[t.free.len() - 1] == id);
    }
}

/// A removed flow is found neither by its id nor by its key, and no other
/// flow changes.
pub proof fn law_remove(t: TableView, id: usize)
    requires
        t.wf(),
        t.holds(id),
    ensures
        ({
            let u = t.removed(id);
            &&& !u.holds(id)
            &&& u.lookup(t.flow(id).key) is None
            &&& forall|j: usize|
                j != id ==> #[trigger] u.holds(j) == t.holds(j) && (t.holds(j) ==> u.flow(j)
                    == t.flow(j))
            &&& forall|k: FlowKey| k.tuple() != t.flow(id).key.tuple() ==> #[trigger] u.lookup(k)
                == t.lookup(k)
        }),
{
}

/// The slot freed last is the next one to be filled.
pub proof fn law_slot_reuse(t: TableView, id: usize)
    requires
        t.wf(),
        t.holds(id),
    ensures
        t.removed(id).next_id() == id,
{
}

/// A table whose index agrees with its slots keeps doing so when a flow
/// with a new key is inserted.
pub proof fn law_insert_keyed(t: TableView, flow: Flow)
    requires
        t.wf(),
        t.keyed(),
        t.slots.len() < usize::MAX,
        t.lookup(flow.key) is None,
    ensures
        t.inserted(flow).keyed(),
{
    law_insert(t, flow);
    let u = t.inserted(flow);
    let id = t.next_id();
    assert forall|k: KeyTuple| #[trigger] u.index.contains_key(k) implies u.holds(u.index[k])
        && u.flow(u.index[k]).key.tuple() == k by {
        if k != flow.key.tuple() {
            assert(t.index.contains_key(k));
            assert(u.holds(t.index[k]) == t.holds(t.index[k]));
        }
    }
    assert forall|j: usize| #[trigger] u.holds(j) implies u.index.contains_key(
        u.flow(j).key.tuple(),
    ) && u.index[u.flow(j).key.tuple()] == j by {
        if j != id {
            assert(t.holds(j));
        }
    }
}

/// A table whose index agrees with its slots keeps doing so when a flow is
/// removed.
pub proof fn law_remove_keyed(t: TableView, id: usize)
    requires
        t.wf(),
        t.keyed(),
    ensures
        t.removed(id).keyed(),
{
    if t.holds(id) {
        law_remove(t, id);
        let u = t.removed(id);
        assert forall|k: KeyTuple| #[trigger] u.index.contains_key(k) implies u.holds(u.index[k])
            && u.flow(u.index[k]).key.tuple() == k by {
            assert(t.index.contains_key(k));
            assert(t.holds(id));
            assert(u.holds(t.index[k]) == t.holds(t.index[k]));
        }
        assert forall|j: usize| #[trigger] u.holds(j) implies u.index.contains_key(
            u.flow(j).key.tuple(),
        ) && u.index[u.flow(j).key.tuple()] == j by {
            assert(t.holds(j));
            assert(t.holds(id));
        }
    }
}

/// The ids of the flows that satisfy a predicate: each such flow once, in
/// ascending order, and no other.
pub proof fn law_ids_where(slots: Seq<Option<Flow>>, n: nat, p: spec_fn(Flow) -> bool)
    requires
        n <= slots.len(),
        slots.len() <= usize::MAX,
    ensures
        forall|i: int|
            0 <= i < ids_where(slots, n, p).len() ==> {
                let id = #[trigger] ids_where(slots, n, p)[i];
                id < n && slots[id as int] is Some && p(slots[id as int]->0)
            },
        forall|i: int, j: int|
            0 <= i < j < ids_where(slots, n, p).len() ==> ids_where(slots, n, p)[i] < ids_where(
                slots,
                n,
                p,
            )[j],
        forall|id: int|
            0 <= id < n && (#[trigger] slots[id]) is Some && p(slots[id]->0) ==> ids_where(
                slots,
                n,
                p,
            ).contains(id as usize),
    decreases n,
{
    if n > 0 {
        law_ids_where(slots, (n - 1) as nat, p);
        let rest = ids_where(slots, (n - 1) as nat, p);
        let all = ids_where(slots, n, p);
        assert forall|id: int|
            0 <= id < n && (#[trigger] slots[id]) is Some && p(slots[id]->0) implies all.contains(
            id as usize,
        ) by {
            if id < n - 1 {
                assert(rest.contains(id as usize));
                let i = choose|i: int| 0 <= i < rest.len() && rest[i] == id as usize;
                assert(all[i] == id as usize);
            } else {
                assert(all[rest.len() as int] == id as usize);
            }
        }
    }
}

/// The flow chosen for eviction is a UDP or ping flow that is not closing,
/// no such flow was idle for longer, and there is none only where no such
/// flow exists.
pub proof fn law_lru(slots: Seq<Option<Flow>>, n: nat)
    requires
        n <= slots.len(),
        slots.len() <= usize::MAX,
    ensures
        match lru_below(slots, n) {
            Some(id) => {
                &&& id < n
                &&& slots[id as int] is Some
                &&& is_evictable(slots[id as int]->0)
                &&& forall|j: int|
                    0 <= j < n && (#[trigger] slots[j]) is Some && is_evictable(slots[j]->0)
                        ==> slots[id as int]->0.last_active <= slots[j]->0.last_active
            },
            None => forall|j: int|
                0 <= j < n && (#[trigger] slots[j]) is Some ==> !is_evictable(slots[j]->0),
        },
    decreases n,
{
    if n > 0 {
        law_lru(slots, (n - 1) as nat);
    }
}

/// A flow that is found is the one that was asked for.
pub proof fn law_lookup(t: TableView, key: FlowKey)
    requires
        t.wf(),
        t.keyed(),
    ensures
        t.lookup(key) matches Some(id) ==> t.holds(id) && t.flow(id).key == key,
{
    if let Some(id) = t.lookup(key) {
        assert(t.index.contains_key(key.tuple()));
        law_key_injective(t.flow(id).key, key);
    }
}

/// A flow is expired exactly when it was last used before the cutoff and is
/// not closing yet; stalled when it is a TCP flow that is not closing, has
/// data in flight and made no progress since the cutoff; and may be evicted
/// when it is no TCP flow and not closing.
pub proof fn law_flow_conditions(f: Flow, cutoff: Instant)
    ensures
        is_expired(f, cutoff) <==> f.last_active < cutoff && !f.closing,
        is_stalled(f, cutoff) <==> !f.closing && (f.tcp matches Some(t) && t.sent_unacked > 0
            && t.last_progress < cutoff),
        is_evictable(f) <==> f.kind != FlowKind::Tcp && !f.closing,
{
}

} // verus!
