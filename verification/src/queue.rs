//! A first-in-first-out queue with iterators.

use vstd::prelude::*;

verus! {

/// A queue: `push` appends at the back, `pop` and `peek` work at
/// the front. The view lists the values front first.
pub struct Queue<T> {
    items: Vec<T>,
}

impl<T> View for Queue<T> {
    type V = Seq<T>;

    closed spec fn view(&self) -> Seq<T> {
        self.items@
    }
}

impl<T> Queue<T> {
    pub fn new() -> (r: Queue<T>)
        ensures
            r@ == Seq::<T>::empty(),
    {
        Queue { items: Vec::new() }
    }

    /// Appends a value at the back.
    pub fn push(&mut self, v: T)
        ensures
            final(self)@ == old(self)@.push(v),
    {
        self.items.push(v);
    }

    /// Takes the front value off, if there is one.
    pub fn pop(&mut self) -> (r: Option<T>)
        ensures
            old(self)@.len() == 0 ==> r is None && final(self)@ == old(self)@,
            old(self)@.len() > 0 ==> r == Some(old(self)@.first()) && final(self)@ == old(self)@.drop_first(),
    {
        if self.items.len() == 0 {
            None
        } else {
            let v = self.items.remove(0);
            proof {
                assert(old(self)@.remove(0) =~= old(self)@.drop_first());
            }
            Some(v)
        }
    }

    /// The front value, if there is one.
    pub fn peek(&self) -> (r: Option<&T>)
        ensures
            self@.len() == 0 ==> r is None,
            self@.len() > 0 ==> (r matches Some(v) && *v == self@.first()),
    {
        if self.items.len() == 0 {
            None
        } else {
            Some(&self.items[0])
        }
    }

    /// A consuming iterator that yields values front first.
    pub fn into_iter(self) -> (r: IntoIter<T>)
        ensures
            r.remaining() == self@,
    {
        IntoIter { queue: self }
    }

    /// A borrowing iterator that yields references front first.
    pub fn iter(&self) -> (r: Iter<'_, T>)
        ensures
            r.remaining() == self@,
    {
        Iter { queue: self, pos: 0 }
    }
}

/// Drains a consumed queue from the front.
pub struct IntoIter<T> {
    queue: Queue<T>,
}

impl<T> IntoIter<T> {
    /// The values still to be yielded, in order.
    pub closed spec fn remaining(self) -> Seq<T> {
        self.queue@
    }

    pub fn next(&mut self) -> (r: Option<T>)
        ensures
            old(self).remaining().len() == 0 ==> r is None && final(self).remaining() == old(self).remaining(),
            old(self).remaining().len() > 0 ==> r == Some(old(self).remaining().first()) && final(self).remaining() == old(self).remaining().drop_first(),
    {
        self.queue.pop()
    }
}

/// Walks a borrowed queue from the front.
pub struct Iter<'a, T> {
    queue: &'a Queue<T>,
    pos: usize,
}

impl<'a, T> Iter<'a, T> {
    /// The values still to be yielded, in order.
    pub closed spec fn remaining(self) -> Seq<T> {
        if self.pos <= self.queue@.len() {
            self.queue@.skip(self.pos as int)
        } else {
            Seq::empty()
        }
    }

    pub fn next(&mut self) -> (r: Option<&'a T>)
        ensures
            old(self).remaining().len() == 0 ==> r is None && final(self).remaining() == old(self).remaining(),
            old(self).remaining().len() > 0 ==> (r matches Some(v) && *v == old(self).remaining().first() && final(self).remaining() == old(self).remaining().drop_first()),
    {
        let n: usize = self.queue.items.len();
        if self.pos >= n {
            return None;
        }
        let v = &self.queue.items[self.pos];
        self.pos = self.pos + 1;
        proof {
            assert(old(self).queue@.skip(old(self).pos as int).first() == old(self).queue@[old(self).pos as int]);
            assert(self.queue@.skip(self.pos as int) =~= old(self).queue@.skip(
                old(self).pos as int,
            ).drop_first());
        }
        Some(v)
    }
}

} // verus!
