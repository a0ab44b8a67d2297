//! An index of action sequences queried by content: a sequence is looked up
//! by its actions read from the last back to the first.
use vstd::prelude::*;

use crate::base::Action;
use crate::domain::{
    successor_list,
    inserted, lemma_sequence_nonempty, pattern_of, sequence_of, valid_index, Domain, Elem,
};

verus! {

pub type SequenceIndex = usize;

/// One node: an action and the node before it.
#[derive(Clone, Debug)]
pub struct SequenceElem {
    pub index: SequenceIndex,
    pub action: Action,
    pub prev: Option<SequenceIndex>,
    /// The links that continue this one, in increasing order.
    pub next: Vec<SequenceIndex>,
}

/// A walk from a node back to the first action of its sequence.
#[derive(Clone, Copy, Debug)]
pub struct SequenceIter {
    pub index: Option<SequenceIndex>,
}

/// The sequences.
#[derive(Debug)]
pub struct SequenceContext {
    data: Domain,
}

impl SequenceContext {
    /// The nodes.
    pub closed spec fn nodes(&self) -> Seq<Elem> {
        self.data@
    }

    pub closed spec fn wf(&self) -> bool {
        self.data.wf()
    }

    /// No sequences.
    pub fn new() -> (r: SequenceContext)
        ensures
            r.wf(),
            r.nodes().len() == 0,
    {
        SequenceContext { data: Domain::new() }
    }

    /// Registers `actions`, first to last; `None` for no actions.
    pub fn new_sequence(&mut self, actions: &Vec<Action>) -> (r: Option<SequenceIndex>)
        requires
            old(self).wf(),
        ensures
            final(self).wf(),
            inserted(old(self).nodes(), None, actions@, final(self).nodes(), r),
            r.is_some() ==> pattern_of(final(self).nodes(), r) == actions@,
    {
        let r = self.add_sequence(actions, None);
        proof {
            assert(pattern_of(old(self).nodes(), None) + actions@ =~= actions@);
        }
        r
    }

    /// Registers `actions`, first to last, as a continuation of `prev`.
    pub fn add_sequence(&mut self, actions: &Vec<Action>, prev: Option<SequenceIndex>) -> (r:
        Option<SequenceIndex>)
        requires
            old(self).wf(),
            valid_index(old(self).nodes(), prev),
        ensures
            final(self).wf(),
            inserted(old(self).nodes(), prev, actions@, final(self).nodes(), r),
    {
        self.data.insert_with_next(actions, prev)
    }

    /// The node whose sequence, read from the last action back, is `actions`.
    pub fn get_sequence(&self, actions: &Vec<Action>) -> (r: Option<SequenceIndex>)
        requires
            self.wf(),
        ensures
            match r {
                Some(i) => i < self.nodes().len() && sequence_of(self.nodes(), i as int).reverse()
                    == actions@,
                None => forall|i: int|
                    0 <= i < self.nodes().len() ==> #[trigger] sequence_of(self.nodes(), i).reverse()
                        != actions@,
            },
    {
        let mut i: usize = 0;
        while i < self.data.len()
            invariant
                self.wf(),
                0 <= i <= self.nodes().len(),
                forall|j: int| 0 <= j < i ==> #[trigger] sequence_of(self.nodes(), j).reverse() != actions@,
            decreases self.nodes().len() - i,
        {
            if self.is_same_sequence(actions, Some(i)) {
                return Some(i);
            }
            i = i + 1;
        }
        None
    }

    /// Whether the sequence of `index`, read from the last action back, is `actions`.
    pub fn is_same_sequence(&self, actions: &Vec<Action>, index: Option<SequenceIndex>) -> (r: bool)
        requires
            self.wf(),
            valid_index(self.nodes(), index),
        ensures
            r == (pattern_of(self.nodes(), index).reverse() == actions@),
    {
        let ghost pat = pattern_of(self.nodes(), index);
        let mut cur = index;
        let mut j: usize = 0;
        while cur.is_some()
            invariant
                self.wf(),
                valid_index(self.nodes(), cur),
                pat == pattern_of(self.nodes(), index),
                j <= actions@.len(),
                pat.len() == pattern_of(self.nodes(), cur).len() + j,
                pattern_of(self.nodes(), cur) == pat.subrange(0, pat.len() - j),
                forall|t: int| 0 <= t < j ==> pat[pat.len() - 1 - t] == actions@[t],
            decreases pat.len() - j,
        {
            let i = cur.unwrap();
            let elem = self.data.elem(i);
            proof {
                lemma_sequence_nonempty(self.nodes(), i as int);
                assert(sequence_of(self.nodes(), i as int) == pattern_of(self.nodes(), elem.next).push(
                    elem.value,
                ));
                assert(pat[pat.len() - 1 - j] == elem.value);
            }
            if j == actions.len() {
                proof {
                    assert(pat.reverse().len() != actions@.len());
                }
                return false;
            }
            if !actions[j].same(&elem.value) {
                proof {
                    assert(pat.reverse()[j as int] == pat[pat.len() - 1 - j]);
                }
                return false;
            }
            proof {
                assert(pattern_of(self.nodes(), elem.next) =~= pat.subrange(0, pat.len() - j - 1));
            }
            j = j + 1;
            cur = elem.next;
        }
        proof {
            assert(pattern_of(self.nodes(), cur).len() == 0);
        }
        if j == actions.len() {
            proof {
                assert(pat.reverse() =~= actions@);
            }
            true
        } else {
            false
        }
    }

    /// The action of node `index`.
    pub fn get_action(&self, index: SequenceIndex) -> (r: Option<Action>)
        ensures
            index < self.nodes().len() ==> r == Some(self.nodes()[index as int].value),
            index >= self.nodes().len() ==> r.is_none(),
    {
        if index < self.data.len() {
            Some(self.data.elem(index).value)
        } else {
            None
        }
    }

    /// The node at `index`.
    pub fn get_elem(&self, index: SequenceIndex) -> (r: Option<SequenceElem>)
        ensures
            index < self.nodes().len() ==> r.is_some() && r.unwrap().index == self.nodes()[index as int].index
                && r.unwrap().action == self.nodes()[index as int].value && r.unwrap().prev == self.nodes()[index as int].next
                && successor_list(self.nodes(), index as int, r.unwrap().next@),
            index >= self.nodes().len() ==> r.is_none(),
    {
        if index < self.data.len() {
            let e = self.data.elem(index);
            let next = self.data.successors(index);
            Some(SequenceElem { index: e.index, action: e.value, prev: e.next, next })
        } else {
            None
        }
    }

    /// A walk from node `index` back to the first action of its sequence.
    pub fn get_action_sequence(&self, index: SequenceIndex) -> (r: SequenceIter)
        ensures
            r.index == Some(index),
    {
        SequenceIter { index: Some(index) }
    }
}

impl SequenceIter {
    /// The action of the current node, moving on to the node before it.
    pub fn next(&mut self, context: &SequenceContext) -> (r: Option<Action>)
        ensures
            match old(self).index {
                Some(i) if i < context.nodes().len() => r == Some(context.nodes()[i as int].value)
                    && final(self).index == context.nodes()[i as int].next,
                _ => r.is_none() && final(self).index.is_none(),
            },
    {
        match self.index {
            Some(i) => if i < context.data.len() {
                let e = context.data.elem(i);
                self.index = e.next;
                Some(e.value)
            } else {
                self.index = None;
                None
            },
            None => None,
        }
    }
}

} // verus!
