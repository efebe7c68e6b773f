//! A persistent list: `append` and `tail` leave the receiver as it
//! was and hand back a new list.
//!
//! Since the receiver stays usable, the derived lists carry clones
//! of its values; the contracts state that element for element with
//! the `cloned` relation, which is plain equality for the usual
//! value types.

use vstd::prelude::*;
use vstd::pervasive::cloned;

verus! {

/// A persistent list; the view lists the values with the head last.
pub struct List<T> {
    items: Vec<T>,
}

impl<T> View for List<T> {
    type V = Seq<T>;

    closed spec fn view(&self) -> Seq<T> {
        self.items@
    }
}

impl<T> List<T> {
    pub fn new() -> (r: List<T>)
        ensures
            r@ == Seq::<T>::empty(),
    {
        List { items: Vec::new() }
    }

    /// The head — the most recently appended value — if there is
    /// one.
    pub fn head(&self) -> (r: Option<&T>)
        ensures
            self@.len() == 0 ==> r is None,
            self@.len() > 0 ==> (r matches Some(v) && *v == self@.last()),
    {
        let n: usize = self.items.len();
        if n == 0 {
            None
        } else {
            Some(&self.items[n - 1])
        }
    }

    /// A borrowing iterator that yields references head first.
    pub fn iter(&self) -> (r: Iter<'_, T>)
        ensures
            r.wf(),
            r.remaining() == self@.reverse(),
    {
        let n: usize = self.items.len();
        Iter { list: self, rest: n }
    }
}

impl<T: Clone> List<T> {
    /// A new list with `val` at the head, leaving this one as it
    /// was.
    pub fn append(&self, val: T) -> (r: List<T>)
        ensures
            r@.len() == self@.len() + 1,
            r@.last() == val,
            forall|i: int| 0 <= i < self@.len() ==> cloned::<T>(self@[i], #[trigger] r@[i]),
    {
        let mut items = self.items.clone();
        items.push(val);
        List { items }
    }

    /// A new list without this one's head, leaving this one as it
    /// was.
    pub fn tail(&self) -> (r: List<T>)
        ensures
            self@.len() == 0 ==> r@.len() == 0,
            self@.len() > 0 ==> r@.len() == self@.len() - 1,
            forall|i: int| 0 <= i < r@.len() ==> cloned::<T>(self@[i], #[trigger] r@[i]),
    {
        let mut items = self.items.clone();
        let ghost cloned_items = items@;
        if items.len() > 0 {
            items.pop();
            proof {
                assert(forall|i: int|
                    0 <= i < items@.len() ==> cloned_items.drop_last()[i] == cloned_items[i]);
            }
        }
        List { items }
    }
}

/// Iterates a borrowed list from its head down.
pub struct Iter<'a, T> {
    list: &'a List<T>,
    rest: usize,
}

impl<'a, T> Iter<'a, T> {
    /// The iterator never reaches past its list.
    pub closed spec fn wf(self) -> bool {
        self.rest <= self.list@.len()
    }

    /// The values still to be yielded, in order.
    pub closed spec fn remaining(self) -> Seq<T> {
        self.list@.take(self.rest as int).reverse()
    }

    pub fn next(&mut self) -> (r: Option<&'a T>)
        requires
            old(self).wf(),
        ensures
            final(self).wf(),
            old(self).remaining().len() == 0 ==> r is None && final(self).remaining() == old(self).remaining(),
            old(self).remaining().len() > 0 ==> (r matches Some(v) && *v == old(self).remaining().first() && final(self).remaining() == old(self).remaining().drop_first()),
    {
        if self.rest == 0 {
            return None;
        }
        self.rest = self.rest - 1;
        let v = &self.list.items[self.rest];
        proof {
            let l = self.list@;
            let k = self.rest as int;
            assert(l.take(k + 1).reverse()[0] == l.take(k + 1)[k]);
            assert(l.take(k + 1)[k] == l[k]);
            assert(l.take(k).reverse() =~= l.take(k + 1).reverse().drop_first());
        }
        Some(v)
    }
}

} // verus!
