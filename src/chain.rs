//! Chains of actions: an index of action sequences that records where each
//! chain ends, and recognizes a queue by the chain that ends in its last action.
use vstd::prelude::*;

use crate::base::Action;
use crate::domain::{
    successor_list,
    inserted, lemma_sequence_nonempty, pattern_of, recognized, sequence_of, valid_index, Domain,
    Elem,
};
use crate::domain::Recognized as Match;

verus! {

pub type ChainIndex = usize;

/// One link of a chain: an action and the link before it.
#[derive(Clone, Debug)]
pub struct ChainElem {
    pub index: ChainIndex,
    pub action: Action,
    pub prev: Option<ChainIndex>,
    /// The links that continue this one, in increasing order.
    pub next: Vec<ChainIndex>,
}

/// A walk along a chain, from a link back to its first action.
#[derive(Clone, Copy, Debug)]
pub struct ChainIter {
    pub index: Option<ChainIndex>,
}

/// The outcome of a recognition, with the queue it leaves.
#[derive(Debug)]
pub enum Recognized {
    All { queue: Vec<Action> },
    Partial { queue: Vec<Action> },
    Error { queue: Vec<Action> },
}

/// The outcome of a recognition, with the link of the chain recognized.
#[derive(Debug)]
pub enum RecognizedIndex {
    All { index: ChainIndex, queue: Vec<Action> },
    Partial { index: ChainIndex, queue: Vec<Action> },
    Error { queue: Vec<Action> },
}

/// The direction in which chains are read.
#[derive(Clone, Copy, PartialEq, Eq, Structural, Debug)]
pub enum ChainDirection {
    Forward,
    Backward,
}

impl Recognized {
    /// How the queue was recognized.
    pub open spec fn kind(&self) -> Match {
        match self {
            Recognized::All { .. } => Match::All,
            Recognized::Partial { .. } => Match::Partial,
            Recognized::Error { .. } => Match::Error,
        }
    }

    /// The queue left.
    pub open spec fn queue(&self) -> Seq<Action> {
        match self {
            Recognized::All { queue } => queue@,
            Recognized::Partial { queue } => queue@,
            Recognized::Error { queue } => queue@,
        }
    }

    /// The same outcome, naming the link `index` unless it is an error.
    pub fn with_index(self, index: ChainIndex) -> (r: RecognizedIndex)
        ensures
            match self {
                Recognized::All { queue } => r == (RecognizedIndex::All { index, queue }),
                Recognized::Partial { queue } => r == (RecognizedIndex::Partial { index, queue }),
                Recognized::Error { queue } => r == (RecognizedIndex::Error { queue }),
            },
    {
        match self {
            Recognized::All { queue } => RecognizedIndex::All { index, queue },
            Recognized::Partial { queue } => RecognizedIndex::Partial { index, queue },
            Recognized::Error { queue } => RecognizedIndex::Error { queue },
        }
    }
}

/// The chains: their links, the direction they are read in, and the links
/// where registered chains end, each once, in order of registration.
#[derive(Debug)]
pub struct ChainContext {
    data: Domain,
    direction: ChainDirection,
    ends: Vec<ChainIndex>,
}

impl ChainContext {
    /// The links.
    pub closed spec fn links(&self) -> Seq<Elem> {
        self.data@
    }

    /// The direction chains are read in.
    pub closed spec fn reading(&self) -> ChainDirection {
        self.direction
    }

    /// The links where registered chains end.
    pub closed spec fn ends(&self) -> Seq<ChainIndex> {
        self.ends@
    }

    pub closed spec fn wf(&self) -> bool {
        &&& self.data.wf()
        &&& forall|k: int| 0 <= k < self.ends@.len() ==> #[trigger] self.ends@[k] < self.data@.len()
        &&& forall|a: int, b: int|
            0 <= a < b < self.ends@.len() ==> #[trigger] self.ends@[a] != #[trigger] self.ends@[b]
    }

    /// The first registered end, from position `k` on, whose chain lies on top of `queue`.
    pub open spec fn first_end(&self, queue: Seq<Action>, k: int) -> Option<int>
        decreases self.ends().len() - k,
    {
        if k < 0 || k >= self.ends().len() {
            None
        } else if recognized(sequence_of(self.links(), self.ends()[k] as int), queue) != Match::Error {
            Some(k)
        } else {
            self.first_end(queue, k + 1)
        }
    }

    /// No chains.
    pub fn new() -> (r: ChainContext)
        ensures
            r.wf(),
            r.links().len() == 0,
            r.ends().len() == 0,
            r.reading() == ChainDirection::Forward,
    {
        ChainContext { data: Domain::new(), direction: ChainDirection::Forward, ends: Vec::new() }
    }

    /// The direction chains are read in.
    pub fn direction(&self) -> (r: ChainDirection)
        ensures
            r == self.reading(),
    {
        self.direction
    }

    /// A walk from link `index` back to the first action of its chain.
    pub fn get_chain(&self, index: ChainIndex) -> (r: ChainIter)
        ensures
            r.index == Some(index),
    {
        ChainIter { index: Some(index) }
    }

    /// The link at `index`.
    pub fn get_elem(&self, index: ChainIndex) -> (r: Option<ChainElem>)
        ensures
            index < self.links().len() ==> r.is_some() && r.unwrap().index == self.links()[index as int].index
                && r.unwrap().action == self.links()[index as int].value && r.unwrap().prev == self.links()[index as int].next
                && successor_list(self.links(), index as int, r.unwrap().next@),
            index >= self.links().len() ==> r.is_none(),
    {
        if index < self.data.len() {
            let e = self.data.elem(index);
            let next = self.data.successors(index);
            Some(ChainElem { index: e.index, action: e.value, prev: e.next, next })
        } else {
            None
        }
    }

    /// Registers the chain of `actions`, first to last, and records the link
    /// where it ends; `None` for no actions.
    #[verifier::loop_isolation(false)]
    pub fn new_chain(&mut self, actions: &Vec<Action>) -> (r: Option<ChainIndex>)
        requires
            old(self).wf(),
        ensures
            final(self).wf(),
            inserted(old(self).links(), None, actions@, final(self).links(), r),
            r.is_some() ==> pattern_of(final(self).links(), r) == actions@,
            match r {
                Some(i) => final(self).ends().contains(i) && (old(self).ends().contains(i)
                    ==> final(self).ends() == old(self).ends()) && (!old(self).ends().contains(i)
                    ==> final(self).ends() == old(self).ends().push(i)),
                None => final(self).ends() == old(self).ends(),
            },
    {
        let r = self.new_chain_with_prev(actions, None);
        proof {
            assert(pattern_of(old(self).links(), None) + actions@ =~= actions@);
        }
        if let Some(index) = r {
            let mut k: usize = 0;
            while k < self.ends.len()
                invariant
                    0 <= k <= self.ends@.len(),
                    forall|j: int| 0 <= j < k ==> self.ends@[j] != index,
                decreases self.ends@.len() - k,
            {
                if self.ends[k] == index {
                    proof {
                        assert(self.ends@[k as int] == index);
                    }
                    return r;
                }
                k = k + 1;
            }
            let ghost before = self.ends@;
            self.ends.push(index);
            proof {
                assert(self.ends@[before.len() as int] == index);
                assert(!before.contains(index));
            }
        }
        r
    }

    /// Registers `actions` as a continuation of the chain ending at `prev`.
    pub fn new_chain_with_prev(&mut self, actions: &Vec<Action>, prev: Option<ChainIndex>) -> (r:
        Option<ChainIndex>)
        requires
            old(self).wf(),
            valid_index(old(self).links(), prev),
        ensures
            final(self).wf(),
            inserted(old(self).links(), prev, actions@, final(self).links(), r),
            final(self).ends() == old(self).ends(),
    {
        let r = self.data.insert_with_next(actions, prev);
        r
    }

    /// Recognizes `queue` by the chains: takes its last action and tries the
    /// registered chains in order; the first whose chain lies on top of the
    /// queue gives the outcome, with the queue without that chain. The queue
    /// comes back unchanged as an error when none does.
    #[verifier::loop_isolation(false)]
    pub fn recognize_chain(&self, queue: Vec<Action>) -> (r: RecognizedIndex)
        requires
            self.wf(),
        ensures
            match self.first_end(queue@, 0) {
                Some(k) => {
                    let pattern = sequence_of(self.links(), self.ends()[k] as int);
                    match r {
                        RecognizedIndex::All { index, queue: q } => recognized(pattern, queue@) == Match::All
                            && index == self.ends()[k] && q@ == queue@.subrange(0, queue@.len() - pattern.len()),
                        RecognizedIndex::Partial { index, queue: q } => recognized(pattern, queue@)
                            == Match::Partial && index == self.ends()[k] && q@ == queue@.subrange(
                            0,
                            queue@.len() - pattern.len(),
                        ),
                        RecognizedIndex::Error { .. } => false,
                    }
                },
                None => match r {
                    RecognizedIndex::Error { queue: q } => q@ == queue@,
                    _ => false,
                },
            },
    {
        let ghost q0 = queue@;
        let mut queue = queue;
        let mut k: usize = 0;
        while k < self.ends.len()
            invariant
                self.wf(),
                0 <= k <= self.ends@.len(),
                queue@ == q0,
                self.first_end(q0, 0) == self.first_end(q0, k as int),
            decreases self.ends@.len() - k,
        {
            let end = self.ends[k];
            let result = self.recognize_chain_at_index(queue, Some(end));
            match result {
                Recognized::Error { queue: q } => {
                    queue = q;
                },
                other => {
                    return other.with_index(end);
                },
            }
            k = k + 1;
        }
        RecognizedIndex::Error { queue }
    }

    /// Compares the top of `queue` with the chain ending at `index` and
    /// returns the queue without the matched actions; on `Error` it comes
    /// back unchanged.
    pub fn recognize_chain_at_index(&self, mut queue: Vec<Action>, index: Option<ChainIndex>) -> (r:
        Recognized)
        requires
            self.wf(),
            valid_index(self.links(), index),
        ensures
            r.kind() == recognized(pattern_of(self.links(), index), queue@),
            r.kind() == Match::Error ==> r.queue() == queue@,
            r.kind() != Match::Error ==> r.queue() == queue@.subrange(
                0,
                queue@.len() - pattern_of(self.links(), index).len(),
            ),
    {
        let ghost pat = pattern_of(self.links(), index);
        let ghost q0 = queue@;
        let n = queue.len();
        let mut cur = index;
        let mut j: usize = 0;
        proof {
            assert(q0.subrange(n as int, n as int) =~= Seq::<Action>::empty());
            assert(pat =~= pat + Seq::<Action>::empty());
        }
        while cur.is_some()
            invariant
                self.wf(),
                valid_index(self.links(), cur),
                queue@ == q0,
                n == q0.len(),
                j <= n,
                pat == pattern_of(self.links(), index),
                pat == pattern_of(self.links(), cur) + q0.subrange(n - j, n as int),
            decreases n - j,
        {
            let i = cur.unwrap();
            let elem = self.data.elem(i);
            proof {
                lemma_sequence_nonempty(self.links(), i as int);
                assert(sequence_of(self.links(), i as int) == pattern_of(self.links(), elem.next).push(
                    elem.value,
                ));
                assert(pat.len() == sequence_of(self.links(), i as int).len() + j);
                assert(pat[pat.len() - j - 1] == elem.value);
            }
            if j == n {
                proof {
                    assert(pat.len() > q0.len());
                }
                return Recognized::Error { queue };
            }
            if !queue[n - 1 - j].same(&elem.value) {
                proof {
                    if pat.len() <= q0.len() && q0.subrange(q0.len() - pat.len(), q0.len() as int) == pat {
                        assert(q0[n - j - 1] == pat[pat.len() - j - 1]);
                    }
                }
                return Recognized::Error { queue };
            }
            proof {
                let m2 = q0.subrange(n - j - 1, n as int);
                assert(m2 =~= seq![elem.value] + q0.subrange(n - j, n as int));
                assert(pat =~= pattern_of(self.links(), elem.next) + m2);
            }
            j = j + 1;
            cur = elem.next;
        }
        proof {
            assert(pattern_of(self.links(), cur) == Seq::<Action>::empty());
            assert(pat =~= q0.subrange(n - j, n as int));
        }
        queue.truncate(n - j);
        if j == n {
            Recognized::All { queue }
        } else {
            Recognized::Partial { queue }
        }
    }
}

impl ChainIter {
    /// The action of the current link, moving on to the link before it.
    pub fn next(&mut self, context: &ChainContext) -> (r: Option<Action>)
        ensures
            match old(self).index {
                Some(i) if i < context.links().len() => r == Some(context.links()[i as int].value)
                    && final(self).index == context.links()[i as int].next,
                _ => r.is_none() && final(self).index.is_none(),
            },
    {
        match self.index {
            Some(i) => {
                if i < context.data.len() {
                    let e = context.data.elem(i);
                    self.index = e.next;
                    Some(e.value)
                } else {
                    self.index = None;
                    None
                }
            },
            None => None,
        }
    }
}

} // verus!
