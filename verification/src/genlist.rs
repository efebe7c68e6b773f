//! A generic last-in-first-out list with iterators.

use vstd::prelude::*;

verus! {

/// A stack: `insert`, `remove` and `peek` work at the head, the
/// most recently inserted value.
pub struct List<T> {
    items: Vec<T>,
}

impl<T> View for List<T> {
    type V = Seq<T>;

    closed spec fn view(&self) -> Seq<T> {
        self.items@
    }
}

impl<T> List<T> {
    pub fn new() -> (r: List<T>)
        ensures
            r@ == Seq::<T>::empty(),
    {
        List { items: Vec::new() }
    }

    /// Puts a value at the head.
    pub fn insert(&mut self, v: T)
        ensures
            final(self)@ == old(self)@.push(v),
    {
        self.items.push(v);
    }

    /// Takes the head off, if there is one.
    pub fn remove(&mut self) -> (r: Option<T>)
        ensures
            old(self)@.len() == 0 ==> r is None && final(self)@ == old(self)@,
            old(self)@.len() > 0 ==> r == Some(old(self)@.last()) && final(self)@ == old(self)@.drop_last(),
    {
        self.items.pop()
    }

    /// The head, if there is one.
    pub fn peek(&self) -> (r: Option<&T>)
        ensures
            self@.len() == 0 ==> r is None,
            self@.len() > 0 ==> (r matches Some(v) && *v == self@.last()),
    {
        let n: usize = self.items.len();
        if n == 0 {
            None
        } else {
            Some(&self.items[n - 1])
        }
    }

    /// A consuming iterator that yields values head first.
    pub fn into_iter(self) -> (r: IntoIter<T>)
        ensures
            r.remaining() == self@.reverse(),
    {
        IntoIter { list: self }
    }

    /// A borrowing iterator that yields references head first.
    pub fn iter(&self) -> (r: Iter<'_, T>)
        ensures
            r.wf(),
            r.remaining() == self@.reverse(),
    {
        let n: usize = self.items.len();
        Iter { list: self, rest: n }
    }
}

/// Iterates a consumed list from its head down.
pub struct IntoIter<T> {
    list: List<T>,
}

impl<T> IntoIter<T> {
    /// The values still to be yielded, in order.
    pub closed spec fn remaining(self) -> Seq<T> {
        self.list@.reverse()
    }

    pub fn next(&mut self) -> (r: Option<T>)
        ensures
            old(self).remaining().len() == 0 ==> r is None && final(self).remaining() == old(self).remaining(),
            old(self).remaining().len() > 0 ==> r == Some(old(self).remaining().first()) && final(self).remaining() == old(self).remaining().drop_first(),
    {
        let r = self.list.remove();
        proof {
            if old(self).remaining().len() > 0 {
                assert(self.list@.reverse() =~= old(self).list@.reverse().drop_first());
            }
        }
        r
    }
}

/// Iterates a borrowed list from its head down.
pub struct Iter<'a, T> {
    list: &'a List<T>,
    rest: usize,
}

impl<'a, T> Iter<'a, T> {
    /// The iterator never reaches past its list.
    pub closed spec fn wf(self) -> bool {
        self.rest <= self.list@.len()
    }

    /// The values still to be yielded, in order.
    pub closed spec fn remaining(self) -> Seq<T> {
        self.list@.take(self.rest as int).reverse()
    }

    pub fn next(&mut self) -> (r: Option<&'a T>)
        requires
            old(self).wf(),
        ensures
            final(self).wf(),
            old(self).remaining().len() == 0 ==> r is None && final(self).remaining() == old(self).remaining(),
            old(self).remaining().len() > 0 ==> (r matches Some(v) && *v == old(self).remaining().first() && final(self).remaining() == old(self).remaining().drop_first()),
    {
        if self.rest == 0 {
            return None;
        }
        self.rest = self.rest - 1;
        let v = &self.list.items[self.rest];
        proof {
            let l = self.list@;
            let k = self.rest as int;
            assert(l.take(k + 1).reverse()[0] == l.take(k + 1)[k]);
            assert(l.take(k + 1)[k] == l[k]);
            assert(l.take(k).reverse() =~= l.take(k + 1).reverse().drop_first());
        }
        Some(v)
    }
}

} // verus!
