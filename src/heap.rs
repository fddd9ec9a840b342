//! A binary heap over integers: one algorithm serving as a max-heap or a
//! min-heap according to the ordering it is built with.
use vstd::prelude::*;
use vstd::multiset::Multiset;
use vstd::seq_lib::group_to_multiset_ensures;
use vstd::seq_lib::to_multiset_update;

verus! {

broadcast use group_to_multiset_ensures;

/// Which end of the ordering sits at the root.
#[derive(Clone, Copy, Debug, PartialEq, Eq, Structural)]
pub enum HeapOrder {
    /// The largest value first.
    Max,
    /// The smallest value first.
    Min,
}

/// Whether `a` may stand above `b` in a heap of ordering `o`.
pub open spec fn dominates(o: HeapOrder, a: i64, b: i64) -> bool {
    match o {
        HeapOrder::Max => a >= b,
        HeapOrder::Min => a <= b,
    }
}

/// The index of the parent of slot `i` in an array-backed binary tree.
pub open spec fn parent(i: int) -> int {
    (i - 1) / 2
}

/// Whether `s` is ordered from the root end: each entry dominates every later one.
pub open spec fn sorted_by(o: HeapOrder, s: Seq<i64>) -> bool {
    forall|i: int, j: int| 0 <= i < j < s.len() ==> dominates(o, s[i], s[j])
}

/// Successive pops come out ordered from the root end: a value popped first
/// dominates any value popped from what is left.
pub proof fn lemma_successive_pops(o: HeapOrder, m: Multiset<i64>, x: i64, y: i64)
    requires
        forall|z: i64| #[trigger] m.contains(z) ==> dominates(o, x, z),
        m.remove(x).contains(y),
    ensures
        dominates(o, x, y),
{
    assert(m.contains(y));
}

/// A priority queue kept as an array-backed complete binary tree in which
/// every parent dominates its children.
pub struct PriorityQueue {
    order: HeapOrder,
    data: Vec<i64>,
}

impl View for PriorityQueue {
    type V = Multiset<i64>;

    closed spec fn view(&self) -> Multiset<i64> {
        self.data@.to_multiset()
    }
}

impl PriorityQueue {
    /// The ordering the queue was built with.
    pub closed spec fn spec_order(&self) -> HeapOrder {
        self.order
    }

    /// The heap property: every parent dominates its children.
    pub closed spec fn well_formed(&self) -> bool {
        forall|i: int| 1 <= i < self.data@.len() ==> dominates(self.order, self.data@[parent(i)], #[trigger] self.data@[i])
    }

    /// An empty queue with ordering `order`.
    pub fn new(order: HeapOrder) -> (q: Self)
        ensures
            q.well_formed(),
            q@ == Multiset::<i64>::empty(),
            q.spec_order() == order,
    {
        let q = PriorityQueue { order, data: Vec::new() };
        assert(q@ =~= Multiset::<i64>::empty());
        q
    }

    /// An empty queue that yields its largest value first.
    pub fn new_max() -> (q: Self)
        ensures
            q.well_formed(),
            q@ == Multiset::<i64>::empty(),
            q.spec_order() == HeapOrder::Max,
    {
        PriorityQueue::new(HeapOrder::Max)
    }

    /// An empty queue that yields its smallest value first.
    pub fn new_min() -> (q: Self)
        ensures
            q.well_formed(),
            q@ == Multiset::<i64>::empty(),
            q.spec_order() == HeapOrder::Min,
    {
        PriorityQueue::new(HeapOrder::Min)
    }

    /// The ordering the queue was built with.
    pub fn order(&self) -> (r: HeapOrder)
        ensures
            r == self.spec_order(),
    {
        self.order
    }

    fn dominates_exec(o: HeapOrder, a: i64, b: i64) -> (r: bool)
        ensures
            r == dominates(o, a, b),
    {
        match o {
            HeapOrder::Max => a >= b,
            HeapOrder::Min => a <= b,
        }
    }

    fn swap(&mut self, i: usize, j: usize)
        requires
            i < old(self).data@.len(),
            j < old(self).data@.len(),
        ensures
            final(self).order == old(self).order,
            final(self).data@ == old(self).data@.update(i as int, old(self).data@[j as int]).update(
                j as int,
                old(self).data@[i as int],
            ),
            final(self)@ == old(self)@,
    {
        let a = self.data[i];
        let b = self.data[j];
        let ghost s = self.data@;
        self.data.set(i, b);
        self.data.set(j, a);
        proof {
            to_multiset_update(s, i as int, b);
            to_multiset_update(s.update(i as int, b), j as int, a);
            assert(self@ =~= s.to_multiset());
        }
    }

    proof fn lemma_root_dominates(&self, i: int)
        requires
            self.well_formed(),
            0 <= i < self.data@.len(),
        ensures
            dominates(self.order, self.data@[0], self.data@[i]),
        decreases i,
    {
        if i > 0 {
            self.lemma_root_dominates(parent(i));
            assert(dominates(self.order, self.data@[parent(i)], self.data@[i]));
        }
    }

    /// The value at the root, which dominates every value held; `None` when empty.
    pub fn peek(&self) -> (r: Option<i64>)
        requires
            self.well_formed(),
        ensures
            self@.len() == 0 ==> r.is_none(),
            self@.len() > 0 ==> (match r {
                Some(x) => self@.contains(x) && forall|y: i64| #[trigger] self@.contains(y) ==> dominates(self.spec_order(), x, y),
                None => false,
            }),
    {
        if self.data.len() == 0 {
            None
        } else {
            proof {
                assert forall|y: i64| #[trigger] self@.contains(y) implies dominates(self.order, self.data@[0], y) by {
                    let k = choose|k: int| 0 <= k < self.data@.len() && self.data@[k] == y;
                    self.lemma_root_dominates(k);
                }
                assert(self.data@.contains(self.data@[0]));
            }
            Some(self.data[0])
        }
    }

    /// Adds `value`, moving it up until its parent dominates it.
    pub fn push(&mut self, value: i64)
        requires
            old(self).well_formed(),
        ensures
            final(self).well_formed(),
            final(self)@ == old(self)@.insert(value),
            final(self).spec_order() == old(self).spec_order(),
    {
        self.data.push(value);
        let mut pos: usize = self.data.len() - 1;
        while pos > 0
            invariant
                pos < self.data@.len(),
                self@ == old(self)@.insert(value),
                self.order == old(self).order,
                forall|i: int| 1 <= i < self.data@.len() && i != pos ==> dominates(self.order, self.data@[parent(i)], #[trigger] self.data@[i]),
                pos > 0 ==> forall|c: int| 1 <= c < self.data@.len() && parent(c) == pos ==> dominates(self.order, self.data@[parent(pos as int)], #[trigger] self.data@[c]),
            ensures
                self@ == old(self)@.insert(value),
                self.order == old(self).order,
                self.well_formed(),
            decreases pos,
        {
            let up: usize = (pos - 1) / 2;
            if PriorityQueue::dominates_exec(self.order, self.data[up], self.data[pos]) {
                break;
            }
            let ghost s = self.data@;
            self.swap(up, pos);
            proof {
                assert forall|i: int| 1 <= i < self.data@.len() && i != up implies dominates(self.order, self.data@[parent(i)], #[trigger] self.data@[i]) by {
                    {
                        if i == pos {
                        } else if parent(i) == pos {
                        } else if parent(i) == up {
                        } else if up > 0 && i == parent(up as int) {
                        }
                    }
                }
            }
            pos = up;
        }
    }

    /// Removes and returns the value at the root, which dominates every value
    /// held; `None` when empty. The last leaf takes the root's place and moves
    /// down until it dominates its children.
    pub fn pop(&mut self) -> (r: Option<i64>)
        requires
            old(self).well_formed(),
        ensures
            final(self).well_formed(),
            final(self).spec_order() == old(self).spec_order(),
            old(self)@.len() == 0 ==> r.is_none() && final(self)@ == old(self)@,
            old(self)@.len() > 0 ==> (match r {
                Some(x) => {
                    &&& old(self)@.contains(x)
                    &&& final(self)@ == old(self)@.remove(x)
                    &&& forall|y: i64| #[trigger] old(self)@.contains(y) ==> dominates(old(self).spec_order(), x, y)
                },
                None => false,
            }),
    {
        let n = self.data.len();
        if n == 0 {
            return None;
        }
        proof {
            assert forall|y: i64| #[trigger] self@.contains(y) implies dominates(self.order, self.data@[0], y) by {
                let k = choose|k: int| 0 <= k < self.data@.len() && self.data@[k] == y;
                self.lemma_root_dominates(k);
            }
            assert(self.data@.contains(self.data@[0]));
        }
        let top = self.data[0];
        let last = self.data[n - 1];
        let ghost s = self.data@;
        self.data.set(0, last);
        let ghost s2 = self.data@;
        self.data.pop();
        proof {
            to_multiset_update(s, 0, last);
            assert(self.data@ =~= s2.remove(n - 1));
            assert(s2[n - 1] == last) by {
                if n > 1 {
                    assert(s2[n - 1] == s[n - 1]);
                }
            }
            assert(s.to_multiset().insert(last).remove(top).remove(last) =~= s.to_multiset().remove(top));
        }
        let ghost target = self@;
        let len = self.data.len();
        let mut pos: usize = 0;
        loop
            invariant
                len == self.data@.len(),
                pos == 0 || pos < len,
                self@ == target,
                self.order == old(self).order,
                forall|i: int| 1 <= i < self.data@.len() && parent(i) != pos ==> dominates(self.order, self.data@[parent(i)], #[trigger] self.data@[i]),
                pos > 0 ==> forall|c: int| 1 <= c < self.data@.len() && parent(c) == pos ==> dominates(self.order, self.data@[parent(pos as int)], #[trigger] self.data@[c]),
            ensures
                self@ == target,
                self.order == old(self).order,
                self.well_formed(),
            decreases len - pos,
        {
            if len - pos <= pos + 1 {
                break;
            }
            let l: usize = 2 * pos + 1;
            let mut best: usize = l;
            if l + 1 < len && PriorityQueue::dominates_exec(self.order, self.data[l + 1], self.data[l]) {
                best = l + 1;
            }
            if PriorityQueue::dominates_exec(self.order, self.data[pos], self.data[best]) {
                proof {
                    assert(parent(l as int) == pos);
                    assert(parent(l as int + 1) == pos);
                }
                break;
            }
            let ghost d = self.data@;
            self.swap(pos, best);
            proof {
                assert(parent(l as int) == pos);
                assert(parent(l as int + 1) == pos);
                assert(parent(best as int) == pos);
                assert forall|i: int| 1 <= i < self.data@.len() && parent(i) != best implies dominates(self.order, self.data@[parent(i)], #[trigger] self.data@[i]) by {
                    if i == best {
                    } else if i == pos {
                    } else if parent(i) == pos {
                    } else if pos > 0 && i == parent(pos as int) {
                    }
                }
            }
            pos = best;
        }
        Some(top)
    }

    /// Pops up to `k` values: the result holds the `min(k, size)` values that
    /// dominate all others, ordered from the root end, and they leave the queue.
    pub fn top_k(&mut self, k: usize) -> (r: Vec<i64>)
        requires
            old(self).well_formed(),
        ensures
            final(self).well_formed(),
            final(self).spec_order() == old(self).spec_order(),
            r@.len() == (if k < old(self)@.len() { k as int } else { old(self)@.len() as int }),
            r@.to_multiset().add(final(self)@) == old(self)@,
            sorted_by(old(self).spec_order(), r@),
            forall|i: int, y: i64| 0 <= i < r@.len() && #[trigger] final(self)@.contains(y) ==> dominates(old(self).spec_order(), #[trigger] r@[i], y),
    {
        let mut r: Vec<i64> = Vec::new();
        let mut taken: usize = 0;
        while taken < k
            invariant
                self.well_formed(),
                self.order == old(self).order,
                taken <= k,
                r@.len() == taken,
                taken <= old(self)@.len(),
                r@.to_multiset().add(self@) == old(self)@,
                sorted_by(self.order, r@),
                forall|i: int, y: i64| 0 <= i < r@.len() && #[trigger] self@.contains(y) ==> dominates(self.order, #[trigger] r@[i], y),
            ensures
                self.well_formed(),
                self.order == old(self).order,
                r@.len() == (if k < old(self)@.len() { k as int } else { old(self)@.len() as int }),
                r@.to_multiset().add(self@) == old(self)@,
                sorted_by(self.order, r@),
                forall|i: int, y: i64| 0 <= i < r@.len() && #[trigger] self@.contains(y) ==> dominates(self.order, #[trigger] r@[i], y),
            decreases k - taken,
        {
            let ghost before = self@;
            let ghost rb = r@;
            match self.pop() {
                None => {
                    proof {
                        assert(before.len() == 0);
                        assert(rb.to_multiset().len() == rb.len());
                    }
                    break;
                },
                Some(x) => {
                    r.push(x);
                    proof {
                        assert(r@.to_multiset() =~= rb.to_multiset().insert(x));
                        assert(r@.to_multiset().add(self@) =~= rb.to_multiset().add(before));
                        assert(rb.to_multiset().len() == rb.len());
                        assert forall|i: int, j: int| 0 <= i < j < r@.len() implies dominates(self.order, r@[i], r@[j]) by {
                            if j == rb.len() {
                                assert(before.contains(x));
                            }
                        }
                        assert forall|i: int, y: i64| 0 <= i < r@.len() && #[trigger] self@.contains(y) implies dominates(self.order, #[trigger] r@[i], y) by {
                            assert(before.contains(y));
                        }
                    }
                    taken = taken + 1;
                },
            }
        }
        r
    }

    /// The number of values held.
    pub fn size(&self) -> (r: usize)
        ensures
            r == self@.len(),
    {
        self.data.len()
    }

    /// Whether the queue holds no value.
    pub fn is_empty(&self) -> (r: bool)
        ensures
            r == (self@.len() == 0),
    {
        self.data.len() == 0
    }
}

} // verus!
