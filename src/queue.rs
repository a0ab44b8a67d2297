//! A last-in, first-out queue of values.
use vstd::prelude::*;

verus! {

/// The values, the most recently pushed last.
#[derive(Debug)]
pub struct Queue<A> {
    data: Vec<A>,
}

impl<A> View for Queue<A> {
    type V = Seq<A>;

    closed spec fn view(&self) -> Seq<A> {
        self.data@
    }
}

impl<A> Queue<A> {
    /// An empty queue.
    pub fn new() -> (r: Queue<A>)
        ensures
            r@ == Seq::<A>::empty(),
    {
        Queue { data: Vec::new() }
    }

    /// Removes and returns the value pushed last.
    pub fn pop(&mut self) -> (r: Option<A>)
        ensures
            old(self)@.len() == 0 ==> r.is_none() && final(self)@ == old(self)@,
            old(self)@.len() > 0 ==> r == Some(old(self)@.last()) && final(self)@ == old(
                self,
            )@.drop_last(),
    {
        self.data.pop()
    }

    /// Adds `value` on top.
    pub fn push(&mut self, value: A)
        ensures
            final(self)@ == old(self)@.push(value),
    {
        self.data.push(value);
    }
}

} // verus!
