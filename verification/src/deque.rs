//! A double-ended queue with a double-ended consuming iterator.

use vstd::prelude::*;

verus! {

/// A queue open at both ends; the view lists the values front
/// first.
pub struct Deque<T> {
    items: Vec<T>,
}

impl<T> View for Deque<T> {
    type V = Seq<T>;

    closed spec fn view(&self) -> Seq<T> {
        self.items@
    }
}

impl<T> Deque<T> {
    pub fn new() -> (r: Deque<T>)
        ensures
            r@ == Seq::<T>::empty(),
    {
        Deque { items: Vec::new() }
    }

    /// Puts a value at the front.
    pub fn push_front(&mut self, val: T)
        ensures
            final(self)@ == seq![val] + old(self)@,
    {
        self.items.insert(0, val);
        proof {
            assert(old(self)@.insert(0, val) =~= seq![val] + old(self)@);
        }
    }

    /// Puts a value at the back.
    pub fn push_back(&mut self, val: T)
        ensures
            final(self)@ == old(self)@.push(val),
    {
        self.items.push(val);
    }

    /// Takes the front value off, if there is one.
    pub fn pop_front(&mut self) -> (r: Option<T>)
        ensures
            old(self)@.len() == 0 ==> r is None && final(self)@ == old(self)@,
            old(self)@.len() > 0 ==> r == Some(old(self)@.first()) && final(self)@ == old(self)@.drop_first(),
    {
        if self.items.len() == 0 {
            None
        } else {
            let v = self.items.remove(0);
            proof {
                assert(old(self)@.remove(0) =~= old(self)@.drop_first());
            }
            Some(v)
        }
    }

    /// Takes the back value off, if there is one.
    pub fn pop_back(&mut self) -> (r: Option<T>)
        ensures
            old(self)@.len() == 0 ==> r is None && final(self)@ == old(self)@,
            old(self)@.len() > 0 ==> r == Some(old(self)@.last()) && final(self)@ == old(self)@.drop_last(),
    {
        self.items.pop()
    }

    /// The front value, if there is one.
    pub fn peek_front(&self) -> (r: Option<&T>)
        ensures
            self@.len() == 0 ==> r is None,
            self@.len() > 0 ==> (r matches Some(v) && *v == self@.first()),
    {
        if self.items.len() == 0 {
            None
        } else {
            Some(&self.items[0])
        }
    }

    /// The back value, if there is one.
    pub fn peek_back(&self) -> (r: Option<&T>)
        ensures
            self@.len() == 0 ==> r is None,
            self@.len() > 0 ==> (r matches Some(v) && *v == self@.last()),
    {
        let n: usize = self.items.len();
        if n == 0 {
            None
        } else {
            Some(&self.items[n - 1])
        }
    }

    /// A consuming iterator that can be drawn from both ends.
    pub fn into_iter(self) -> (r: IntoIter<T>)
        ensures
            r.remaining() == self@,
    {
        IntoIter { queue: self }
    }
}

/// Draws the values of a consumed deque from either end.
pub struct IntoIter<T> {
    queue: Deque<T>,
}

impl<T> IntoIter<T> {
    /// The values still to be yielded, front first.
    pub closed spec fn remaining(self) -> Seq<T> {
        self.queue@
    }

    /// The next value from the front.
    pub fn next(&mut self) -> (r: Option<T>)
        ensures
            old(self).remaining().len() == 0 ==> r is None && final(self).remaining() == old(self).remaining(),
            old(self).remaining().len() > 0 ==> r == Some(old(self).remaining().first()) && final(self).remaining() == old(self).remaining().drop_first(),
    {
        self.queue.pop_front()
    }

    /// The next value from the back.
    pub fn next_back(&mut self) -> (r: Option<T>)
        ensures
            old(self).remaining().len() == 0 ==> r is None && final(self).remaining() == old(self).remaining(),
            old(self).remaining().len() > 0 ==> r == Some(old(self).remaining().last()) && final(self).remaining() == old(self).remaining().drop_last(),
    {
        self.queue.pop_back()
    }
}

} // verus!
