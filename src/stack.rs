//! A stack with a cursor: popping only moves the cursor, so popped values
//! can be put back with `undo` until the stack is extended.
use vstd::prelude::*;

verus! {

pub type Cursor = usize;

/// The values below `cursor` are the live stack, top last; the values from
/// `cursor` on were popped and can still be restored, nearest first.
#[derive(Debug)]
pub struct Stack<T> {
    inner: Vec<T>,
    cursor: Cursor,
}

impl<T: Copy> Stack<T> {
    /// The live stack, bottom first.
    pub closed spec fn live(&self) -> Seq<T> {
        self.inner@.subrange(0, self.cursor as int)
    }

    /// The popped values that `undo` can restore, the most recently popped first.
    pub closed spec fn held(&self) -> Seq<T> {
        self.inner@.subrange(self.cursor as int, self.inner@.len() as int)
    }

    pub closed spec fn wf(&self) -> bool {
        self.cursor <= self.inner@.len()
    }

    /// A stack holding `inner`, its last value on top.
    pub fn from_vec(inner: Vec<T>) -> (r: Stack<T>)
        ensures
            r.wf(),
            r.live() == inner@,
            r.held() == Seq::<T>::empty(),
    {
        let cursor = inner.len();
        let r = Stack { inner, cursor };
        proof {
            assert(r.live() =~= r.inner@);
            assert(r.held() =~= Seq::<T>::empty());
        }
        r
    }

    /// Every value the stack holds, live ones first, then the popped ones.
    pub fn into_inner(self) -> (r: Vec<T>)
        requires
            self.wf(),
        ensures
            r@ == self.live() + self.held(),
    {
        proof {
            assert(self.live() + self.held() =~= self.inner@);
        }
        self.inner
    }

    /// The number of live values.
    pub fn len(&self) -> (r: usize)
        requires
            self.wf(),
        ensures
            r == self.live().len(),
    {
        self.cursor
    }

    /// Removes the top value and returns it; `None` on an empty stack.
    pub fn pop(&mut self) -> (r: Option<T>)
        requires
            old(self).wf(),
        ensures
            final(self).wf(),
            old(self).live().len() == 0 ==> r.is_none() && *final(self) == *old(self),
            old(self).live().len() > 0 ==> {
                &&& r == Some(old(self).live().last())
                &&& final(self).live() == old(self).live().drop_last()
                &&& final(self).held() == seq![old(self).live().last()] + old(self).held()
            },
    {
        if self.cursor > 0 {
            self.cursor = self.cursor - 1;
            let v = self.inner[self.cursor];
            proof {
                assert(self.live() =~= old(self).live().drop_last());
                assert(self.held() =~= seq![old(self).live().last()] + old(self).held());
            }
            Some(v)
        } else {
            None
        }
    }

    /// Puts back the value that was popped last.
    pub fn undo(&mut self)
        requires
            old(self).wf(),
            old(self).held().len() > 0,
        ensures
            final(self).wf(),
            final(self).live() == old(self).live().push(old(self).held()[0]),
            final(self).held() == old(self).held().drop_first(),
    {
        let len = self.inner.len();
        assert(self.cursor < len);
        self.cursor = self.cursor + 1;
        proof {
            assert(self.live() =~= old(self).live().push(old(self).held()[0]));
            assert(self.held() =~= old(self).held().drop_first());
        }
    }

    /// Puts back every popped value.
    pub fn reset(&mut self)
        requires
            old(self).wf(),
        ensures
            final(self).wf(),
            final(self).live() == old(self).live() + old(self).held(),
            final(self).held() == Seq::<T>::empty(),
    {
        self.cursor = self.inner.len();
        proof {
            assert(self.live() =~= old(self).live() + old(self).held());
            assert(self.held() =~= Seq::<T>::empty());
        }
    }

    /// Drops the popped values and pushes `other`, in order, on the live stack.
    pub fn extend(&mut self, other: &Vec<T>)
        requires
            old(self).wf(),
        ensures
            final(self).wf(),
            final(self).live() == old(self).live() + other@,
            final(self).held() == Seq::<T>::empty(),
    {
        self.inner.truncate(self.cursor);
        proof {
            assert(self.inner@ =~= old(self).live());
        }
        let mut i: usize = 0;
        while i < other.len()
            invariant
                0 <= i <= other@.len(),
                self.inner@ == old(self).live() + other@.subrange(0, i as int),
            decreases other@.len() - i,
        {
            self.inner.push(other[i]);
            i = i + 1;
            proof {
                assert(self.inner@ =~= old(self).live() + other@.subrange(0, i as int));
            }
        }
        self.cursor = self.inner.len();
        proof {
            assert(other@.subrange(0, other@.len() as int) =~= other@);
            assert(self.live() =~= self.inner@);
            assert(self.held() =~= Seq::<T>::empty());
        }
    }
}

} // verus!
