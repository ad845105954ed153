//! Work queue: an append-only buffer with an atomic-style slot counter,
//! the sole inter-kernel communication primitive.
//!
//! On the device, appending is an atomic fetch-and-increment of the write
//! head — which hands the lane its exclusive slot — followed by a plain
//! store into that slot; there is no ordering guarantee among lanes, so a
//! drain may see the appended items in any arrival order. This model
//! exposes one append per lane in arrival order: callers pass arrivals in
//! whatever order they wish, and every property proved here holds for
//! each of them. A consumer dispatches over the full capacity, not the
//! live counter, and idle lanes exit early; the reset operation zeroes
//! the counters between frames, never concurrently with any producer or
//! consumer of the same queue.

use vstd::prelude::*;

verus! {

/// A work queue: capacity, read/write heads, and the slot buffer.
pub struct Queue {
    pub size: u32,
    pub read: u32,
    pub write: u32,
    pub slots: Vec<u32>,
}

impl Queue {
    /// The buffer matches the declared capacity and the write head has
    /// not run past it.
    pub open spec fn wf(self) -> bool {
        &&& self.slots@.len() == self.size
        &&& self.write <= self.size
        &&& self.read <= self.size
    }

    /// Allocate a queue: both counters zero, `size` zeroed slots.
    pub fn new(size: u32) -> (q: Queue)
        ensures
            q.wf(),
            q.size == size,
            q.read == 0,
            q.write == 0,
            q.slots@.len() == size,
            forall|k: int| 0 <= k < size ==> q.slots@[k] == 0u32,
    {
        let slots = vec![0u32; size as usize];
        Queue { size, read: 0, write: 0, slots }
    }

    /// One lane's append: take the next slot from the write head and
    /// store the item there. The returned slot is exclusively the
    /// caller's: no other append of this batch returns it.
    pub fn append(&mut self, item: u32) -> (slot: u32)
        requires
            old(self).wf(),
            old(self).write < old(self).size,
        ensures
            final(self).wf(),
            slot == old(self).write,
            final(self).write == old(self).write + 1,
            final(self).read == old(self).read,
            final(self).size == old(self).size,
            final(self).slots@ == old(self).slots@.update(old(self).write as int, item),
    {
        let slot = self.write;
        self.write = self.write + 1;
        let i = slot as usize;
        self.slots[i] = item;
        slot
    }

    /// Zero both counters: the per-frame reset. The slot contents are
    /// left alone; a queue is logically cleared by its counters.
    pub fn reset(&mut self)
        ensures
            final(self).wf() == (final(self).slots@.len() == final(self).size),
            final(self).read == 0,
            final(self).write == 0,
            final(self).size == old(self).size,
            final(self).slots@ == old(self).slots@,
    {
        self.read = 0;
        self.write = 0;
    }

    /// Dispatch one batch: every lane of `items` appends exactly one
    /// item, in the given arrival order.
    pub fn append_all(&mut self, items: &Vec<u32>)
        requires
            old(self).wf(),
            old(self).write + items@.len() <= old(self).size,
        ensures
            final(self).wf(),
            final(self).size == old(self).size,
            final(self).read == old(self).read,
            final(self).write == old(self).write + items@.len(),
            forall|k: int|
                0 <= k < items@.len() ==> #[trigger] final(self).slots@[old(self).write + k]
                    == items@[k],
            forall|k: int|
                0 <= k < final(self).slots@.len() && !(old(self).write <= k < old(self).write
                    + items@.len()) ==> #[trigger] final(self).slots@[k] == old(self).slots@[k],
    {
        let n = items.len();
        let ghost w0 = self.write as int;
        let ghost slots0 = self.slots@;
        let mut k: usize = 0;
        while k < n
            invariant
                0 <= k <= n,
                n == items@.len(),
                self.wf(),
                self.size == old(self).size,
                self.read == old(self).read,
                0 <= w0,
                self.write as int == w0 + k,
                w0 + n <= self.size,
                self.slots@.len() == slots0.len(),
                forall|j: int| 0 <= j < k ==> #[trigger] self.slots@[w0 + j] == items@[j],
                forall|j: int|
                    0 <= j < self.slots@.len() && !(w0 <= j < w0 + k) ==> #[trigger] self.slots@[j]
                        == slots0[j],
            decreases n - k,
        {
            let ghost sl_pre = self.slots@;
            self.append(items[k]);
            proof {
                assert forall|j: int| 0 <= j < k as int + 1 implies #[trigger] self.slots@[w0 + j]
                    == items@[j] by {
                    if j < k as int {
                        assert(self.slots@[w0 + j] == sl_pre[w0 + j]);
                    }
                }
            }
            k = k + 1;
        }
    }
}

/// Queue slot uniqueness: dispatching `n` lanes that each append exactly
/// one item into a freshly reset queue ends with the write counter at
/// exactly `n`, and the `n` items populate exactly the `n` distinct
/// slots `0..n`, the `k`-th arrival in slot `k` — in whatever order the
/// lanes arrived, since the arrival order is the caller's to pick.
pub proof fn lemma_queue_slot_uniqueness(pre: Queue, post: Queue, items: Seq<u32>)
    requires
        pre.wf(),
        pre.write == 0,
        items.len() <= pre.size,
        post.write == pre.write + items.len(),
        post.slots@.len() == pre.slots@.len(),
        forall|k: int| 0 <= k < items.len() ==> #[trigger] post.slots@[pre.write + k] == items[k],
    ensures
        post.write == items.len(),
        post.slots@.take(items.len() as int) =~= items,
{
    assert forall|k: int| 0 <= k < items.len() implies post.slots@.take(items.len() as int)[k]
        == items[k] by {
        assert(post.slots@[pre.write + k] == items[k]);
    }
}

} // verus!
