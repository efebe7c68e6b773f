//! A last-in-first-out list of integers.

use vstd::prelude::*;

verus! {

/// A stack of integers: `insert` and `remove` both work at the
/// head, which is the most recently inserted value.
pub struct List {
    items: Vec<i32>,
}

impl View for List {
    type V = Seq<i32>;

    closed spec fn view(&self) -> Seq<i32> {
        self.items@
    }
}

impl List {
    pub fn new() -> (r: List)
        ensures
            r@ == Seq::<i32>::empty(),
    {
        List { items: Vec::new() }
    }

    /// Puts a value at the head.
    pub fn insert(&mut self, v: i32)
        ensures
            final(self)@ == old(self)@.push(v),
    {
        self.items.push(v);
    }

    /// Takes the head off, if there is one.
    pub fn remove(&mut self) -> (r: Option<i32>)
        ensures
            old(self)@.len() == 0 ==> r is None && final(self)@ == old(self)@,
            old(self)@.len() > 0 ==> r == Some(old(self)@.last()) && final(self)@ == old(self)@.drop_last(),
    {
        self.items.pop()
    }
}

} // verus!
