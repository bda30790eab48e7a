//! Fixed pool of frame buffers.
//!
//! Each buffer holds payload plus headroom where L2/L3/L4 headers are
//! built in front of the payload, so payload never moves.

use vstd::prelude::*;

verus! {

/// Headroom in front of the payload for vnet + ethernet + IP + TCP headers.
pub const HEADROOM: usize = 256;

/// Payload space per buffer. It bounds a tap frame (up to a 64 KiB
/// super-frame) and, per TCP flow, the data in flight towards the
/// guest: retransmits are resent from this buffer, so unacked data
/// must fit. Well above twice the largest possible MSS, otherwise the
/// guest's delayed ack (which waits for two full segments) would idle
/// the flow at large MTUs.
pub const FRAME: usize = 262_144;

/// Total size of one buffer.
pub const BUF_SIZE: usize = 262_400;

/// Index of a buffer in the pool.
pub type BufId = u32;

/// Fixed-size pool of equally sized buffers.
pub struct Pool {
    mem: Vec<u8>,
    free: Vec<BufId>,
}

/// Contents of a pool: every buffer's bytes and the stack of free ids.
#[verifier::ext_equal]
pub struct PoolView {
    pub bufs: Seq<Seq<u8>>,
    pub free: Seq<BufId>,
}

/// Buffer `i` of a pool backed by `mem`.
pub open spec fn buf_at(mem: Seq<u8>, i: int) -> Seq<u8> {
    mem.subrange(i * 262_400, i * 262_400 + 262_400)
}

impl View for Pool {
    type V = PoolView;

    closed spec fn view(&self) -> PoolView {
        PoolView {
            bufs: Seq::new((self.mem@.len() / 262_400) as nat, |i: int| buf_at(self.mem@, i)),
            free: self.free@,
        }
    }
}

impl PoolView {
    /// Every buffer has its full size and every free id names one.
    pub open spec fn wf(self) -> bool {
        &&& self.bufs.len() <= u32::MAX
        &&& forall|i: int| 0 <= i < self.bufs.len() ==> (#[trigger] self.bufs[i]).len() == BUF_SIZE
        &&& forall|i: int| 0 <= i < self.free.len() ==> (#[trigger] self.free[i]) < self.bufs.len()
    }

    /// No buffer is on the free stack twice.
    pub open spec fn distinct(self) -> bool {
        self.free.no_duplicates()
    }

    /// The pool after taking the top of the free stack.
    pub open spec fn alloced(self) -> PoolView {
        if self.free.len() > 0 {
            PoolView { free: self.free.drop_last(), ..self }
        } else {
            self
        }
    }

    /// What taking a buffer returns.
    pub open spec fn alloc_result(self) -> Option<BufId> {
        if self.free.len() > 0 {
            Some(self.free.last())
        } else {
            None
        }
    }

    /// The pool after putting `id` back.
    pub open spec fn freed(self, id: BufId) -> PoolView {
        PoolView { free: self.free.push(id), ..self }
    }

    /// The pool with the contents of buffer `id` replaced.
    pub open spec fn with_buf(self, id: BufId, b: Seq<u8>) -> PoolView {
        PoolView { bufs: self.bufs.update(id as int, b), ..self }
    }
}

impl Pool {
    /// The backing memory holds whole buffers and the view is well formed.
    pub closed spec fn inv(self) -> bool {
        &&& self.mem@.len() % 262_400 == 0
        &&& self@.wf()
    }

    /// A pool of `count` zeroed buffers, all free.
    #[must_use]
    pub fn new(count: usize) -> (r: Self)
        requires
            count <= u32::MAX,
            count * BUF_SIZE <= usize::MAX,
        ensures
            r.inv(),
            r@.wf(),
            r@.bufs == Seq::new(count as nat, |i: int| Seq::new(BUF_SIZE as nat, |j: int| 0u8)),
            r@.free == Seq::new(count as nat, |i: int| i as u32),
    {
        let mem: Vec<u8> = vec![0u8; count * BUF_SIZE];
        let mut free: Vec<BufId> = Vec::with_capacity(count);
        let mut i: usize = 0;
        while i < count
            invariant
                i <= count <= u32::MAX,
                free@ == Seq::new(i as nat, |j: int| j as u32),
            decreases count - i,
        {
            free.push(i as u32);
            i += 1;
            assert(free@ =~= Seq::new(i as nat, |j: int| j as u32));
        }
        let r = Pool { mem, free };
        assert(r@.bufs.len() == count);
        assert forall|k: int| 0 <= k < count implies r@.bufs[k] == Seq::new(
            BUF_SIZE as nat,
            |j: int| 0u8,
        ) by {
            assert(buf_at(r.mem@, k) =~= Seq::new(BUF_SIZE as nat, |j: int| 0u8));
        }
        assert(r@.bufs =~= Seq::new(
            count as nat,
            |i: int| Seq::new(BUF_SIZE as nat, |j: int| 0u8),
        ));
        r
    }

    /// Take a free buffer, the one freed last first.
    pub fn alloc_buf(&mut self) -> (r: Option<BufId>)
        requires
            old(self).inv(),
        ensures
            final(self).inv(),
            final(self)@.wf(),
            r == old(self)@.alloc_result(),
            final(self)@ == old(self)@.alloced(),
    {
        let r = self.free.pop();
        assert(self@ =~= old(self)@.alloced());
        assert(self@.wf());
        r
    }

    /// Put a buffer back.
    pub fn free(&mut self, id: BufId)
        requires
            old(self).inv(),
            id < old(self)@.bufs.len(),
        ensures
            final(self).inv(),
            final(self)@.wf(),
            final(self)@ == old(self)@.freed(id),
    {
        self.free.push(id);
        assert(self@ =~= old(self)@.freed(id));
        assert(self@.wf());
    }

    /// Offset of a buffer in the backing memory.
    fn start(&self, id: BufId) -> (r: usize)
        requires
            self.inv(),
            id < self@.bufs.len(),
        ensures
            r == id * 262_400,
            r + 262_400 <= self.mem@.len(),
            self.mem@.len() <= usize::MAX,
    {
        let n: usize = self.mem.len();
        assert(id * 262_400 + 262_400 <= n);
        id as usize * BUF_SIZE
    }

    #[must_use]
    pub fn get_mut(&mut self, id: BufId) -> (r: &mut [u8])
        requires
            old(self).inv(),
            id < old(self)@.bufs.len(),
        ensures
            r@ == old(self)@.bufs[id as int],
            r@.len() == BUF_SIZE,
            final(r)@.len() == BUF_SIZE ==> {
                &&& final(self).inv()
                &&& final(self)@.wf()
                &&& final(self)@ == old(self)@.with_buf(id, final(r)@)
            },
    {
        let start: usize = self.start(id);
        let ghost mem = self.mem@;
        assert forall|i: int| 0 <= i < self.free@.len() implies (#[trigger] self.free@[i])
            < mem.len() / 262_400 by {
            assert(self@.free[i] < self@.bufs.len());
        }
        let (front, rest) = self.mem.as_mut_slice().split_at_mut(start);
        let (b, back) = rest.split_at_mut(BUF_SIZE);
        assert(b@ =~= buf_at(mem, id as int));
        proof {
            assert(back@ =~= mem.subrange(id * 262_400 + 262_400, mem.len() as int));
            lemma_replace(mem, front@, back@, id as int);
        }
        b
    }

    #[must_use]
    pub fn get(&self, id: BufId) -> (r: &[u8])
        requires
            self.inv(),
            id < self@.bufs.len(),
        ensures
            r@ == self@.bufs[id as int],
            r@.len() == BUF_SIZE,
    {
        let start: usize = self.start(id);
        vstd::slice::slice_subrange(self.mem.as_slice(), start, start + BUF_SIZE)
    }
}

/// Replacing the bytes of one buffer in the backing memory changes that
/// buffer and no other.
proof fn lemma_replace(mem: Seq<u8>, front: Seq<u8>, back: Seq<u8>, id: int)
    requires
        mem.len() % 262_400 == 0,
        0 <= id < mem.len() / 262_400,
        front == mem.subrange(0, id * 262_400),
        back == mem.subrange(id * 262_400 + 262_400, mem.len() as int),
    ensures
        forall|b: Seq<u8>|
            b.len() == 262_400 ==> {
                &&& (#[trigger] (front + (b + back))).len() == mem.len()
                &&& Seq::new(
                    (mem.len() / 262_400) as nat,
                    |i: int| buf_at(front + (b + back), i),
                ) == Seq::new((mem.len() / 262_400) as nat, |i: int| buf_at(mem, i)).update(id, b)
            },
{
    assert forall|b: Seq<u8>| b.len() == 262_400 implies {
        &&& (#[trigger] (front + (b + back))).len() == mem.len()
        &&& Seq::new((mem.len() / 262_400) as nat, |i: int| buf_at(front + (b + back), i))
            == Seq::new((mem.len() / 262_400) as nat, |i: int| buf_at(mem, i)).update(id, b)
    } by {
        let n = (mem.len() / 262_400) as nat;
        let after = front + (b + back);
        let l = Seq::new(n, |i: int| buf_at(after, i));
        let r = Seq::new(n, |i: int| buf_at(mem, i)).update(id, b);
        assert forall|i: int| 0 <= i < n implies l[i] == r[i] by {
            if i == id {
                assert(buf_at(after, i) =~= b);
            } else {
                assert(buf_at(after, i) =~= buf_at(mem, i));
            }
        }
        assert(l =~= r);
    }
}

/// A buffer taken from a pool whose free stack holds no id twice is a
/// buffer of the pool and no longer free; the pool's bytes are untouched.
pub proof fn law_alloc(p: PoolView)
    requires
        p.wf(),
        p.distinct(),
    ensures
        p.alloced().wf(),
        p.alloced().distinct(),
        p.alloced().bufs == p.bufs,
        p.alloc_result() matches Some(id) ==> id < p.bufs.len() && !p.alloced().free.contains(id),
        p.alloc_result() is None <==> p.free.len() == 0,
{
}

/// Two buffers taken one after the other are different buffers.
pub proof fn law_alloc_distinct(p: PoolView)
    requires
        p.wf(),
        p.distinct(),
    ensures
        p.alloc_result() is Some && p.alloced().alloc_result() is Some ==> p.alloc_result()
            != p.alloced().alloc_result(),
{
}

/// A buffer that was put back is the next one handed out, and taking it
/// restores the pool; putting back a buffer that is not free keeps the
/// free stack without duplicates.
pub proof fn law_free_then_alloc(p: PoolView, id: BufId)
    requires
        p.wf(),
        id < p.bufs.len(),
    ensures
        p.freed(id).wf(),
        p.freed(id).alloc_result() == Some(id),
        p.freed(id).alloced() == p,
        p.distinct() && !p.free.contains(id) ==> p.freed(id).distinct(),
{
    assert(p.freed(id).alloced() =~= p);
}

} // verus!
