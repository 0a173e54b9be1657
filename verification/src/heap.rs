//! A binary min-heap of (node, priority) pairs that also records where
//! each node sits, so a node's priority can be lowered in place.

use vstd::prelude::*;

verus! {

/// Index of the parent of heap slot `k`.
pub open spec fn parent(k: int) -> int {
    (k - 1) / 2
}

/// Slot `k` is no smaller than its parent.
pub open spec fn heap_edge(h: Seq<(usize, u32)>, k: int) -> bool {
    h[parent(k)].1 <= h[k].1
}

/// Slot `k` is no smaller than slot `a`.
pub open spec fn below(h: Seq<(usize, u32)>, a: int, k: int) -> bool {
    h[a].1 <= h[k].1
}

/// Every slot but `pos` is no smaller than its parent, and the children of
/// `pos` are no smaller than the parent of `pos`.
pub open spec fn ordered_except_up(h: Seq<(usize, u32)>, pos: int) -> bool {
    &&& forall|k: int| 0 < k < h.len() && k != pos ==> #[trigger] heap_edge(h, k)
    &&& pos > 0 ==> forall|k: int| 0 < k < h.len() && parent(k) == pos ==> #[trigger] below(h, parent(pos), k)
}

/// Every slot whose parent is not `pos` is no smaller than its parent, and
/// the children of `pos` are no smaller than the parent of `pos`.
pub open spec fn ordered_except_down(h: Seq<(usize, u32)>, pos: int) -> bool {
    &&& forall|k: int| 0 < k < h.len() && parent(k) != pos ==> #[trigger] heap_edge(h, k)
    &&& pos > 0 ==> forall|k: int| 0 < k < h.len() && parent(k) == pos ==> #[trigger] below(h, parent(pos), k)
}

/// Every slot is no smaller than its parent.
pub open spec fn ordered(h: Seq<(usize, u32)>) -> bool {
    forall|k: int| 0 < k < h.len() ==> #[trigger] heap_edge(h, k)
}

/// The root of an ordered heap holds a smallest priority.
proof fn lemma_root_min(h: Seq<(usize, u32)>, k: int)
    requires
        ordered(h),
        0 <= k < h.len(),
    ensures
        h[0].1 <= h[k].1,
    decreases k,
{
    if k > 0 {
        assert(heap_edge(h, k));
        lemma_root_min(h, parent(k));
    }
}

/// Children of `p` in an array heap.
pub open spec fn is_child(k: int, p: int) -> bool {
    k == 2 * p + 1 || k == 2 * p + 2
}

proof fn lemma_parent_child(k: int, p: int)
    requires
        0 < k,
        0 <= p,
    ensures
        parent(k) == p <==> is_child(k, p),
{
}

proof fn lemma_down_done(h: Seq<(usize, u32)>, p: int)
    requires
        0 <= p < h.len(),
        ordered_except_down(h, p),
        2 * p + 1 < h.len() ==> h[p].1 <= h[2 * p + 1].1,
        2 * p + 2 < h.len() ==> h[p].1 <= h[2 * p + 2].1,
    ensures
        ordered(h),
{
    assert forall|k: int| 0 < k < h.len() implies #[trigger] heap_edge(h, k) by {
        lemma_parent_child(k, p);
    }
}

proof fn lemma_down_step(h: Seq<(usize, u32)>, p: int, c: int)
    requires
        0 <= p < h.len(),
        is_child(c, p),
        c < h.len(),
        ordered_except_down(h, p),
        h[c].1 < h[p].1,
        2 * p + 1 < h.len() ==> h[c].1 <= h[2 * p + 1].1,
        2 * p + 2 < h.len() ==> h[c].1 <= h[2 * p + 2].1,
    ensures
        ordered_except_down(h.update(p, h[c]).update(c, h[p]), c),
{
    let h2 = h.update(p, h[c]).update(c, h[p]);
    lemma_parent_child(c, p);
    assert forall|k: int| 0 < k < h2.len() && parent(k) != c implies #[trigger] heap_edge(h2, k) by {
        lemma_parent_child(k, p);
        if k == c {
        } else if parent(k) == p {
        } else if k == p {
            assert(below(h, parent(p), c));
        } else {
            assert(heap_edge(h, k));
        }
    }
    assert forall|k: int| 0 < k < h2.len() && parent(k) == c implies #[trigger] below(h2, parent(c), k) by {
        assert(heap_edge(h, k));
    }
}

/// Lowering the priority at `pos` can only break the order above `pos`.
proof fn lemma_lowered(h: Seq<(usize, u32)>, pos: int, x: (usize, u32))
    requires
        ordered(h),
        0 <= pos < h.len(),
        x.1 <= h[pos].1,
    ensures
        ordered_except_up(h.update(pos, x), pos),
{
    let h2 = h.update(pos, x);
    assert forall|k: int| 0 < k < h2.len() && k != pos implies #[trigger] heap_edge(h2, k) by {
        assert(heap_edge(h, k));
    }
    if pos > 0 {
        assert forall|k: int| 0 < k < h2.len() && parent(k) == pos implies #[trigger] below(h2, parent(pos), k) by {
            assert(heap_edge(h, pos));
            assert(heap_edge(h, k));
        }
    }
}

/// A new last slot can only break the order above it.
proof fn lemma_appended(h: Seq<(usize, u32)>, x: (usize, u32))
    requires
        ordered(h),
    ensures
        ordered_except_up(h.push(x), h.len() as int),
{
    let h2 = h.push(x);
    assert forall|k: int| 0 < k < h2.len() && k != h.len() implies #[trigger] heap_edge(h2, k) by {
        assert(heap_edge(h, k));
    }
}

/// A min-heap of nodes `0..n` keyed by priority, with each node's slot.
pub struct IndexedMinHeap {
    heap: Vec<(usize, u32)>,
    positions: Vec<Option<usize>>,
}

impl IndexedMinHeap {
    /// The number of nodes the heap can hold.
    pub closed spec fn capacity(self) -> nat {
        self.positions.len() as nat
    }

    /// The queued nodes and their priorities.
    pub closed spec fn entries(self) -> Map<usize, u32> {
        Map::new(
            |v: usize| v < self.positions.len() && self.positions@[v as int] is Some,
            |v: usize| self.heap@[self.positions@[v as int]->Some_0 as int].1,
        )
    }

    /// Slots and recorded positions agree.
    pub closed spec fn indexed(self) -> bool {
        &&& forall|k: int|
            0 <= k < self.heap.len() ==> (#[trigger] self.heap@[k]).0 < self.positions.len()
                && self.positions@[self.heap@[k].0 as int] == Some(k as usize)
        &&& forall|v: int|
            0 <= v < self.positions.len() && (#[trigger] self.positions@[v]) is Some ==> {
                &&& (self.positions@[v]->Some_0 as int) < self.heap.len()
                &&& self.heap@[self.positions@[v]->Some_0 as int].0 == v
            }
    }

    pub closed spec fn wf(self) -> bool {
        self.indexed() && ordered(self.heap@)
    }

    /// An empty heap for nodes `0..size`.
    pub fn new(size: usize) -> (h: IndexedMinHeap)
        ensures
            h.wf(),
            h.capacity() == size,
            h.entries() == Map::<usize, u32>::empty(),
    {
        let mut positions: Vec<Option<usize>> = Vec::new();
        let mut i: usize = 0;
        while i < size
            invariant
                i <= size,
                positions.len() == i,
                forall|v: int| 0 <= v < i ==> positions@[v] is None,
            decreases size - i,
        {
            positions.push(None);
            i += 1;
        }
        let h = IndexedMinHeap { heap: Vec::new(), positions };
        assert(h.entries() =~= Map::<usize, u32>::empty());
        h
    }

    /// Exchanges two slots, keeping the positions in step.
    fn swap(&mut self, a: usize, b: usize)
        requires
            old(self).indexed(),
            a < old(self).heap.len(),
            b < old(self).heap.len(),
        ensures
            final(self).indexed(),
            final(self).heap@ == old(self).heap@.update(a as int, old(self).heap@[b as int]).update(b as int, old(self).heap@[a as int]),
            final(self).positions.len() == old(self).positions.len(),
            final(self).entries() == old(self).entries(),
    {
        let ghost s0 = *self;
        let x = self.heap[a];
        let y = self.heap[b];
        self.heap.set(a, y);
        self.heap.set(b, x);
        assert(s0.positions@[x.0 as int] == Some(a));
        assert(s0.positions@[y.0 as int] == Some(b));
        self.positions.set(x.0, Some(b));
        self.positions.set(y.0, Some(a));
        proof {
            assert forall|k: int| 0 <= k < self.heap.len() implies (#[trigger] self.heap@[k]).0 < self.positions.len()
                && self.positions@[self.heap@[k].0 as int] == Some(k as usize) by {
                if k != a && k != b {
                    assert(s0.heap@[k] == self.heap@[k]);
                    assert(s0.positions@[s0.heap@[k].0 as int] == Some(k as usize));
                }
            }
            assert forall|v: int|
                0 <= v < self.positions.len() && (#[trigger] self.positions@[v]) is Some implies {
                    &&& (self.positions@[v]->Some_0 as int) < self.heap.len()
                    &&& self.heap@[self.positions@[v]->Some_0 as int].0 == v
                } by {
                if v != x.0 && v != y.0 {
                    assert(s0.positions@[v] is Some);
                    let k = s0.positions@[v]->Some_0 as int;
                    assert(s0.heap@[k].0 == v);
                }
            }
            assert(self.entries() =~= s0.entries()) by {
                assert forall|v: usize| #[trigger] self.entries().contains_key(v) implies self.entries()[v] == s0.entries()[v] by {
                    if v != x.0 && v != y.0 {
                        assert(s0.positions@[v as int] is Some);
                    }
                }
            }
        }
    }

    /// Moves the entry at `pos` up until its parent is no larger.
    fn sift_up(&mut self, pos: usize)
        requires
            old(self).indexed(),
            pos < old(self).heap.len(),
            ordered_except_up(old(self).heap@, pos as int),
        ensures
            final(self).wf(),
            final(self).heap.len() == old(self).heap.len(),
            final(self).positions.len() == old(self).positions.len(),
            final(self).entries() == old(self).entries(),
    {
        let ghost e0 = self.entries();
        let ghost n0 = self.positions.len();
        let mut position = pos;
        while position > 0 && self.heap[(position - 1) / 2].1 > self.heap[position].1
            invariant
                self.indexed(),
                position < self.heap.len(),
                self.heap.len() == old(self).heap.len(),
                self.positions.len() == n0,
                ordered_except_up(self.heap@, position as int),
                self.entries() == e0,
            decreases position,
        {
            let parent_pos = (position - 1) / 2;
            let ghost h = self.heap@;
            self.swap(parent_pos, position);
            proof {
                let h2 = self.heap@;
                let p = parent_pos as int;
                let c = position as int;
                assert forall|k: int| 0 < k < h2.len() && k != p implies #[trigger] heap_edge(h2, k) by {
                    if k == c {
                    } else if parent(k) == c {
                        assert(below(h, parent(c), k));
                    } else if parent(k) == p {
                        assert(heap_edge(h, k));
                    } else {
                        assert(heap_edge(h, k));
                    }
                }
                if p > 0 {
                    assert forall|k: int| 0 < k < h2.len() && parent(k) == p implies #[trigger] below(h2, parent(p), k) by {
                        assert(heap_edge(h, p));
                        if k != c {
                            assert(heap_edge(h, k));
                        }
                    }
                }
            }
            position = parent_pos;
        }
    }

    /// Moves the entry at `pos` down until no child is smaller.
    fn sift_down(&mut self, pos: usize)
        requires
            old(self).indexed(),
            pos < old(self).heap.len(),
            ordered_except_down(old(self).heap@, pos as int),
        ensures
            final(self).wf(),
            final(self).heap.len() == old(self).heap.len(),
            final(self).positions.len() == old(self).positions.len(),
            final(self).entries() == old(self).entries(),
    {
        let ghost e0 = self.entries();
        let ghost n0 = self.positions.len();
        let mut position = pos;
        loop
            invariant
                self.indexed(),
                position < self.heap.len(),
                self.heap.len() == old(self).heap.len(),
                self.positions.len() == n0,
                ordered_except_down(self.heap@, position as int),
                self.entries() == e0,
            ensures
                self.wf(),
                self.heap.len() == old(self).heap.len(),
                self.positions.len() == n0,
                self.entries() == e0,
            decreases self.heap.len() - position,
        {
            // a child index past `usize::MAX` cannot name a slot
            let left = if position <= (usize::MAX - 1) / 2 { 2 * position + 1 } else { usize::MAX };
            let right = if left < usize::MAX { left + 1 } else { usize::MAX };
            let mut smallest = position;
            if left < self.heap.len() && self.heap[left].1 < self.heap[smallest].1 {
                smallest = left;
            }
            if right < self.heap.len() && self.heap[right].1 < self.heap[smallest].1 {
                smallest = right;
            }
            let ghost h = self.heap@;
            if smallest == position {
                proof {
                    lemma_down_done(h, position as int);
                }
                break;
            }
            proof {
                lemma_down_step(h, position as int, smallest as int);
            }
            self.swap(position, smallest);
            position = smallest;
        }
    }

    /// Queues `node` with `priority`, or lowers its priority if it is
    /// queued with a higher one.
    pub fn push_or_decrease(&mut self, node: usize, priority: u32)
        requires
            old(self).wf(),
            node < old(self).capacity(),
        ensures
            final(self).wf(),
            final(self).capacity() == old(self).capacity(),
            final(self).entries() == if old(self).entries().contains_key(node) {
                if priority < old(self).entries()[node] {
                    old(self).entries().insert(node, priority)
                } else {
                    old(self).entries()
                }
            } else {
                old(self).entries().insert(node, priority)
            },
    {
        let ghost s0 = *self;
        match self.positions[node] {
            Some(position) => {
                assert(self.positions@[node as int] is Some);
                if priority < self.heap[position].1 {
                    self.heap.set(position, (node, priority));
                    proof {
                        lemma_lowered(s0.heap@, position as int, (node, priority));
                        assert forall|k: int| 0 <= k < self.heap.len() implies (#[trigger] self.heap@[k]).0 < self.positions.len()
                            && self.positions@[self.heap@[k].0 as int] == Some(k as usize) by {
                            assert(s0.heap@[k].0 < s0.positions.len());
                        }
                        assert(self.indexed());
                        assert(self.entries() =~= s0.entries().insert(node, priority));
                    }
                    self.sift_up(position);
                }
            },
            None => {
                let position = self.heap.len();
                self.heap.push((node, priority));
                self.positions.set(node, Some(position));
                proof {
                    assert forall|k: int| 0 <= k < self.heap.len() implies (#[trigger] self.heap@[k]).0 < self.positions.len()
                        && self.positions@[self.heap@[k].0 as int] == Some(k as usize) by {
                        if k < position {
                            assert(s0.heap@[k].0 < s0.positions.len());
                            assert(s0.heap@[k].0 != node);
                        }
                    }
                    assert forall|v: int|
                        0 <= v < self.positions.len() && (#[trigger] self.positions@[v]) is Some implies {
                            &&& (self.positions@[v]->Some_0 as int) < self.heap.len()
                            &&& self.heap@[self.positions@[v]->Some_0 as int].0 == v
                        } by {
                        if v != node {
                            assert(s0.positions@[v] is Some);
                        }
                    }
                    assert(self.entries() =~= s0.entries().insert(node, priority)) by {
                        assert forall|v: usize| #[trigger] s0.entries().contains_key(v) implies self.entries().contains_key(v) by {}
                    }
                    lemma_appended(s0.heap@, (node, priority));
                }
                self.sift_up(position);
            },
        }
    }

    /// Removes and returns an entry with the smallest priority.
    pub fn pop_min(&mut self) -> (r: Option<(usize, u32)>)
        requires
            old(self).wf(),
        ensures
            final(self).wf(),
            final(self).capacity() == old(self).capacity(),
            match r {
                None => old(self).entries() == Map::<usize, u32>::empty() && final(self).entries() == old(self).entries(),
                Some((v, p)) => {
                    &&& old(self).entries().contains_key(v)
                    &&& old(self).entries()[v] == p
                    &&& forall|u: usize| #[trigger] old(self).entries().contains_key(u) ==> p <= old(self).entries()[u]
                    &&& final(self).entries() == old(self).entries().remove(v)
                },
            },
    {
        let ghost s0 = *self;
        if self.heap.len() == 0 {
            proof {
                assert(s0.entries() =~= Map::<usize, u32>::empty()) by {
                    assert forall|v: usize| !#[trigger] s0.entries().contains_key(v) by {
                        if s0.entries().contains_key(v) {
                            assert(s0.positions@[v as int] is Some);
                        }
                    }
                }
            }
            return None;
        }
        let last = self.heap.len() - 1;
        proof {
            assert forall|u: usize| #[trigger] s0.entries().contains_key(u) implies s0.heap@[0].1 <= s0.entries()[u] by {
                assert(s0.positions@[u as int] is Some);
                lemma_root_min(s0.heap@, s0.positions@[u as int]->Some_0 as int);
            }
        }
        self.swap(0, last);
        let ghost s1 = *self;
        let item = self.heap.pop().unwrap();
        assert(s1.positions@[item.0 as int] == Some(last));
        self.positions.set(item.0, None);
        proof {
            assert forall|k: int| 0 <= k < self.heap.len() implies (#[trigger] self.heap@[k]).0 < self.positions.len()
                && self.positions@[self.heap@[k].0 as int] == Some(k as usize) by {
                assert(s1.heap@[k] == self.heap@[k]);
                assert(s1.positions@[s1.heap@[k].0 as int] == Some(k as usize));
            }
            assert forall|v: int|
                0 <= v < self.positions.len() && (#[trigger] self.positions@[v]) is Some implies {
                    &&& (self.positions@[v]->Some_0 as int) < self.heap.len()
                    &&& self.heap@[self.positions@[v]->Some_0 as int].0 == v
                } by {
                assert(s1.positions@[v] is Some);
                let k = s1.positions@[v]->Some_0 as int;
                assert(s1.heap@[k].0 == v);
            }
            assert(self.entries() =~= s1.entries().remove(item.0)) by {
                assert forall|v: usize| #[trigger] self.entries().contains_key(v) implies self.entries()[v] == s1.entries()[v] by {
                    let k = self.positions@[v as int]->Some_0 as int;
                    assert(self.heap@[k] == s1.heap@[k]);
                }
            }
            assert(item == s0.heap@[0]);
            assert(s0.positions@[item.0 as int] == Some(0usize));
            let h2 = self.heap@;
            assert forall|k: int| 0 < k < h2.len() && parent(k) != 0 implies #[trigger] heap_edge(h2, k) by {
                assert(heap_edge(s0.heap@, k));
            }
        }
        if self.heap.len() > 0 {
            self.sift_down(0);
        } else {
            proof {
                assert(ordered(self.heap@));
            }
        }
        Some(item)
    }
}

} // verus!
