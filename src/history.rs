//! A bounded history, most recent item first: pushing onto a full history
//! evicts its oldest item.
use vstd::prelude::*;
use std::collections::VecDeque;

verus! {

/// `s` after `x` is pushed onto a history of capacity `cap`.
pub open spec fn pushed<T>(s: Seq<T>, cap: nat, x: T) -> Seq<T> {
    let t = seq![x] + s;
    if t.len() > cap {
        t.take(cap as int)
    } else {
        t
    }
}

/// `s` after each of `xs` is pushed, in order.
pub open spec fn pushed_all<T>(s: Seq<T>, cap: nat, xs: Seq<T>) -> Seq<T>
    decreases xs.len(),
{
    if xs.len() == 0 {
        s
    } else {
        pushed(pushed_all(s, cap, xs.drop_last()), cap, xs.last())
    }
}

pub open spec fn reversed<T>(s: Seq<T>) -> Seq<T> {
    Seq::new(s.len(), |i: int| s[s.len() - 1 - i])
}

pub struct HistoryBuffer<T> {
    items: VecDeque<T>,
    capacity: usize,
}

impl<T> View for HistoryBuffer<T> {
    type V = Seq<T>;

    closed spec fn view(&self) -> Seq<T> {
        self.items@
    }
}

impl<T> HistoryBuffer<T> {
    /// Never more items than the capacity.
    pub open spec fn wf(&self) -> bool {
        self@.len() <= self.spec_capacity()
    }

    pub closed spec fn spec_capacity(&self) -> nat {
        self.capacity as nat
    }

    /// An empty history that holds at most `capacity` items.
    pub fn new(capacity: usize) -> (r: Self)
        ensures
            r.wf(),
            r@ == Seq::<T>::empty(),
            r.spec_capacity() == capacity,
    {
        HistoryBuffer { items: VecDeque::new(), capacity }
    }

    pub fn capacity(&self) -> (r: usize)
        ensures
            r == self.spec_capacity(),
    {
        self.capacity
    }

    pub fn len(&self) -> (r: usize)
        ensures
            r == self@.len(),
    {
        self.items.len()
    }

    pub fn is_empty(&self) -> (r: bool)
        ensures
            r == (self@.len() == 0),
    {
        self.items.len() == 0
    }

    /// The item `i` places from the most recent one.
    pub fn get(&self, i: usize) -> (r: &T)
        requires
            i < self@.len(),
        ensures
            *r == self@[i as int],
    {
        &self.items[i]
    }

    /// Makes `item` the most recent one, evicting the oldest when the
    /// history would hold more than its capacity.
    pub fn push_front(&mut self, item: T)
        requires
            old(self).wf(),
        ensures
            final(self).wf(),
            final(self)@ == pushed(old(self)@, old(self).spec_capacity(), item),
            final(self).spec_capacity() == old(self).spec_capacity(),
    {
        self.items.push_front(item);
        if self.items.len() > self.capacity {
            self.items.pop_back();
        }
        assert(self.items@ =~= pushed(old(self)@, old(self).spec_capacity(), item));
    }

    pub fn clear(&mut self)
        ensures
            final(self).wf(),
            final(self)@ == Seq::<T>::empty(),
            final(self).spec_capacity() == old(self).spec_capacity(),
    {
        self.items.clear();
    }
}

/// Pushing items onto a history keeps the most recent of them, newest first,
/// ahead of what it held before, up to its capacity.
pub proof fn lemma_pushed_all<T>(s: Seq<T>, cap: nat, xs: Seq<T>)
    requires
        s.len() <= cap,
    ensures
        pushed_all(s, cap, xs) == (reversed(xs) + s).take(
            if xs.len() + s.len() <= cap {
                (xs.len() + s.len()) as int
            } else {
                cap as int
            },
        ),
    decreases xs.len(),
{
    let m = if xs.len() + s.len() <= cap {
        (xs.len() + s.len()) as int
    } else {
        cap as int
    };
    if xs.len() == 0 {
        assert((reversed(xs) + s).take(m) =~= s);
    } else {
        let d = xs.drop_last();
        lemma_pushed_all(s, cap, d);
        let prev = pushed_all(s, cap, d);
        assert(reversed(xs) =~= seq![xs.last()] + reversed(d));
        assert(reversed(xs) + s =~= seq![xs.last()] + (reversed(d) + s));
        assert(pushed(prev, cap, xs.last()) =~= (reversed(xs) + s).take(m));
    }
}

/// Once at least `cap` items have been pushed, a history holds exactly the
/// `cap` most recently pushed, newest first: everything older was evicted.
pub proof fn lemma_keeps_most_recent<T>(s: Seq<T>, cap: nat, xs: Seq<T>)
    requires
        s.len() <= cap,
        xs.len() >= cap,
    ensures
        pushed_all(s, cap, xs).len() == cap,
        pushed_all(s, cap, xs) == reversed(xs.subrange(xs.len() - cap, xs.len() as int)),
{
    lemma_pushed_all(s, cap, xs);
    assert(pushed_all(s, cap, xs) =~= reversed(xs.subrange(xs.len() - cap, xs.len() as int)));
}

} // verus!
