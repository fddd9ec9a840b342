//! A FIFO queue over a double-ended buffer, with insertion at the front for
//! urgent items.
use vstd::prelude::*;
use vstd::std_specs::vecdeque::group_vec_dequeue_axioms;
use std::collections::VecDeque;

verus! {

broadcast use group_vec_dequeue_axioms;

/// A first-in, first-out queue. The front is the first element of its view.
pub struct Queue<T> {
    items: VecDeque<T>,
}

impl<T> View for Queue<T> {
    type V = Seq<T>;

    closed spec fn view(&self) -> Seq<T> {
        self.items@
    }
}

/// The values that `n` successive dequeues return from a queue whose view is `q`.
pub open spec fn dequeues<T>(q: Seq<T>, n: nat) -> Seq<T>
    decreases n,
{
    if n == 0 || q.len() == 0 {
        Seq::empty()
    } else {
        seq![q[0]] + dequeues(q.drop_first(), (n - 1) as nat)
    }
}

/// Dequeuing everything returns the queue's items front to back.
pub proof fn lemma_dequeue_all<T>(q: Seq<T>)
    ensures
        dequeues(q, q.len()) == q,
    decreases q.len(),
{
    if q.len() > 0 {
        lemma_dequeue_all(q.drop_first());
        assert(q =~= seq![q[0]] + q.drop_first());
    }
}

/// Items enqueued at the back, one after another, come out in the order they
/// went in, after everything already waiting; an item put at the front comes
/// out before everything that was waiting.
pub proof fn lemma_fifo<T>(q: Seq<T>, xs: Seq<T>, x: T)
    ensures
        dequeues(q + xs, (q.len() + xs.len()) as nat) == q + xs,
        dequeues(seq![x] + q, (q.len() + 1) as nat) == seq![x] + q,
{
    lemma_dequeue_all(q + xs);
    lemma_dequeue_all(seq![x] + q);
}

impl<T> Queue<T> {
    /// An empty queue.
    pub fn new() -> (q: Self)
        ensures
            q@ == Seq::<T>::empty(),
    {
        Queue { items: VecDeque::new() }
    }

    /// Adds `item` at the back.
    pub fn enqueue(&mut self, item: T)
        ensures
            final(self)@ == old(self)@.push(item),
    {
        self.items.push_back(item);
    }

    /// Adds `item` at the front, ahead of everything waiting.
    pub fn enqueue_front(&mut self, item: T)
        ensures
            final(self)@ == seq![item] + old(self)@,
    {
        self.items.push_front(item);
    }

    /// Removes and returns the front item; `None` when the queue is empty.
    pub fn dequeue(&mut self) -> (r: Option<T>)
        ensures
            old(self)@.len() == 0 ==> r.is_none() && final(self)@ == old(self)@,
            old(self)@.len() > 0 ==> r == Some(old(self)@[0]) && final(self)@ == old(self)@.drop_first(),
    {
        let r = self.items.pop_front();
        proof {
            if old(self)@.len() > 0 {
                assert(self@ =~= old(self)@.drop_first());
            }
        }
        r
    }

    /// The front item, left in place; `None` when the queue is empty.
    pub fn front(&self) -> (r: Option<&T>)
        ensures
            self@.len() == 0 ==> r.is_none(),
            self@.len() > 0 ==> r == Some(&self@[0]),
    {
        if self.items.len() == 0 {
            None
        } else {
            Some(&self.items[0])
        }
    }

    /// The back item, left in place; `None` when the queue is empty.
    pub fn back(&self) -> (r: Option<&T>)
        ensures
            self@.len() == 0 ==> r.is_none(),
            self@.len() > 0 ==> r == Some(&self@.last()),
    {
        let n = self.items.len();
        if n == 0 {
            None
        } else {
            Some(&self.items[n - 1])
        }
    }

    /// Whether the queue holds no item.
    pub fn is_empty(&self) -> (r: bool)
        ensures
            r == (self@.len() == 0),
    {
        self.items.len() == 0
    }

    /// The number of items waiting.
    pub fn size(&self) -> (r: usize)
        ensures
            r == self@.len(),
    {
        self.items.len()
    }
}

} // verus!
