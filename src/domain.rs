//! The sequence index: an append-only arena of nodes, each one symbol
//! followed by the node it continues. Node `i` stands for the sequence
//! spelled by its chain of continuations, read back to front, so sequences
//! with a common beginning share the nodes of that beginning. No two nodes
//! hold the same symbol and continuation.
use vstd::prelude::*;

use crate::base::Action;
use crate::stack::Stack;

verus! {

pub type ElemIndex = usize;

/// One node of the index.
#[derive(Clone, Copy, Debug)]
pub struct Elem {
    pub index: ElemIndex,
    pub value: Action,
    pub next: Option<ElemIndex>,
    pub maximal: bool,
}

/// How the top of a stack compares with a stored sequence.
#[derive(Clone, Copy, PartialEq, Eq, Structural, Debug)]
pub enum Recognized {
    /// The stack holds exactly the sequence.
    All,
    /// The sequence lies on top of the stack, with more below it.
    Partial,
    /// The top of the stack is not the sequence.
    Error,
}

/// The index: the nodes, by index.
#[derive(Debug)]
pub struct Domain {
    elems: Vec<Elem>,
}

/// A walk along a chain of continuations, from a node back to the first symbol.
#[derive(Clone, Copy, Debug)]
pub struct Iter {
    pub index: Option<ElemIndex>,
}

/// The sequence that node `i` stands for: the sequence of its continuation,
/// followed by its own symbol.
pub open spec fn sequence_of(elems: Seq<Elem>, i: int) -> Seq<Action>
    decreases i,
{
    if 0 <= i < elems.len() {
        let before = match elems[i].next {
            Some(j) => if j < i {
                sequence_of(elems, j as int)
            } else {
                Seq::empty()
            },
            None => Seq::empty(),
        };
        before.push(elems[i].value)
    } else {
        Seq::empty()
    }
}

/// The sequence that an optional node stands for; no node stands for the empty sequence.
pub open spec fn pattern_of(elems: Seq<Elem>, index: Option<ElemIndex>) -> Seq<Action> {
    match index {
        Some(i) => sequence_of(elems, i as int),
        None => Seq::empty(),
    }
}

/// Nodes know their index, continuations point to earlier nodes, and no two
/// nodes hold the same symbol and continuation.
pub open spec fn elems_wf(elems: Seq<Elem>) -> bool {
    &&& forall|i: int| 0 <= i < elems.len() ==> #[trigger] elems[i].index == i
    &&& forall|i: int|
        0 <= i < elems.len() && (#[trigger] elems[i]).next.is_some() ==> elems[i].next.unwrap()
            < i
    &&& forall|i: int, j: int|
        0 <= i < elems.len() && 0 <= j < elems.len() && i != j ==> !(#[trigger] elems[i].value
            == #[trigger] elems[j].value && elems[i].next == elems[j].next)
}

/// Whether `index` names no node or a node of `elems`.
pub open spec fn valid_index(elems: Seq<Elem>, index: Option<ElemIndex>) -> bool {
    match index {
        Some(i) => i < elems.len(),
        None => true,
    }
}

/// What recognizing `pattern` on top of `stack` yields.
pub open spec fn recognized(pattern: Seq<Action>, stack: Seq<Action>) -> Recognized {
    if pattern.len() <= stack.len() && stack.subrange(
        stack.len() - pattern.len(),
        stack.len() as int,
    ) == pattern {
        if pattern.len() == stack.len() {
            Recognized::All
        } else {
            Recognized::Partial
        }
    } else {
        Recognized::Error
    }
}

/// The stack after recognizing `pattern`: the matched values are gone; on
/// `Error` the stack is as it was.
pub open spec fn after_recognition(pattern: Seq<Action>, stack: Seq<Action>) -> Seq<Action> {
    if recognized(pattern, stack) == Recognized::Error {
        stack
    } else {
        stack.subrange(0, stack.len() - pattern.len())
    }
}

/// `list` holds, in increasing order, exactly the nodes that continue node `index`.
pub open spec fn successor_list(elems: Seq<Elem>, index: int, list: Seq<ElemIndex>) -> bool {
    &&& forall|a: int, b: int| 0 <= a < b < list.len() ==> list[a] < list[b]
    &&& forall|a: int|
        0 <= a < list.len() ==> #[trigger] list[a] < elems.len() && elems[list[a] as int].next
            == Some(index as ElemIndex)
    &&& forall|k: int|
        0 <= k < elems.len() && (#[trigger] elems[k]).next == Some(index as ElemIndex) ==> exists|
            a: int,
        | 0 <= a < list.len() && list[a] == k
}

/// Two nodes hold the same index, symbol and continuation.
pub open spec fn same_node(a: Elem, b: Elem) -> bool {
    a.index == b.index && a.value == b.value && a.next == b.next
}

/// What inserting `values` after `next` into `old` leaves, as `new`, returning `r`:
/// `r` stands for the sequence of `next` followed by `values` and is marked
/// maximal, earlier nodes keep their place, and nothing is allocated when a
/// node for that sequence was already there.
pub open spec fn inserted(
    old: Seq<Elem>,
    next: Option<ElemIndex>,
    values: Seq<Action>,
    new: Seq<Elem>,
    r: Option<ElemIndex>,
) -> bool {
    &&& elems_wf(new)
    &&& old.len() <= new.len()
    &&& forall|k: int| 0 <= k < old.len() ==> same_node(#[trigger] old[k], new[k])
    &&& forall|k: int|
        0 <= k < old.len() ==> (#[trigger] new[k]).maximal == (old[k].maximal || (r.is_some()
            && r.unwrap() == k))
    &&& forall|k: int|
        old.len() <= k < new.len() ==> (#[trigger] new[k]).maximal == (r.is_some() && r.unwrap()
            == k)
    &&& r.is_none() == (values.len() == 0 && next.is_none())
    &&& valid_index(new, r)
    &&& r.is_some() ==> pattern_of(new, r) == pattern_of(old, next) + values
    &&& values.len() == 0 ==> r == next && new.len() == old.len()
    &&& (exists|j: int|
        0 <= j < old.len() && sequence_of(old, j) == pattern_of(old, next) + values) ==> new.len()
        == old.len()
    &&& forall|k: int|
        old.len() <= k < new.len() ==> pattern_of(old, next).len() < (#[trigger] sequence_of(
            new,
            k,
        )).len() <= pattern_of(old, next).len() + values.len() && sequence_of(new, k) == (
        pattern_of(old, next) + values).subrange(0, sequence_of(new, k).len() as int)
}

/// A node's sequence is never empty.
pub proof fn lemma_sequence_nonempty(elems: Seq<Elem>, i: int)
    requires
        0 <= i < elems.len(),
    ensures
        sequence_of(elems, i).len() >= 1,
        sequence_of(elems, i).last() == elems[i].value,
{
}

/// A node's sequence depends only on the symbols and continuations up to it.
pub proof fn lemma_sequence_frame(a: Seq<Elem>, b: Seq<Elem>, i: int)
    requires
        0 <= i < a.len(),
        a.len() <= b.len(),
        forall|k: int| 0 <= k < a.len() ==> (#[trigger] a[k]).value == b[k].value && a[k].next == b[k].next,
    ensures
        sequence_of(a, i) == sequence_of(b, i),
    decreases i,
{
    match a[i].next {
        Some(j) => {
            if j < i {
                lemma_sequence_frame(a, b, j as int);
            }
        },
        None => {},
    }
}

/// In a well-formed index each sequence has at most one node.
pub proof fn lemma_sequence_injective(elems: Seq<Elem>, i: int, j: int)
    requires
        elems_wf(elems),
        0 <= i < elems.len(),
        0 <= j < elems.len(),
        sequence_of(elems, i) == sequence_of(elems, j),
    ensures
        i == j,
    decreases i + j,
{
    let si = sequence_of(elems, i);
    let sj = sequence_of(elems, j);
    assert(si.last() == elems[i].value);
    assert(sj.last() == elems[j].value);
    let pi = pattern_of(elems, elems[i].next);
    let pj = pattern_of(elems, elems[j].next);
    assert(si == pi.push(elems[i].value));
    assert(sj == pj.push(elems[j].value));
    assert(pi == si.drop_last());
    assert(pj == sj.drop_last());
    match (elems[i].next, elems[j].next) {
        (Some(a), Some(b)) => {
            lemma_sequence_injective(elems, a as int, b as int);
        },
        (Some(a), None) => {
            lemma_sequence_nonempty(elems, a as int);
        },
        (None, Some(b)) => {
            lemma_sequence_nonempty(elems, b as int);
        },
        (None, None) => {},
    }
    if i != j {
        assert(!(elems[i].value == elems[j].value && elems[i].next == elems[j].next));
    }
}

/// Every non-empty beginning of a node's sequence has a node too.
pub proof fn lemma_prefix_has_node(elems: Seq<Elem>, i: int, m: int)
    requires
        elems_wf(elems),
        0 <= i < elems.len(),
        1 <= m <= sequence_of(elems, i).len(),
    ensures
        exists|n: int|
            0 <= n < elems.len() && sequence_of(elems, n) == sequence_of(elems, i).subrange(0, m),
    decreases i,
{
    let s = sequence_of(elems, i);
    if m == s.len() {
        assert(s.subrange(0, m) =~= s);
    } else {
        let j = elems[i].next;
        assert(s == pattern_of(elems, j).push(elems[i].value));
        match j {
            Some(a) => {
                lemma_prefix_has_node(elems, a as int, m);
                assert(sequence_of(elems, a as int).subrange(0, m) =~= s.subrange(0, m));
            },
            None => {
                assert(false);
            },
        }
    }
}

/// Registering a sequence a second time returns the node that the first
/// registration returned, and changes nothing in the index.
pub proof fn lemma_insert_idempotent(
    d0: Seq<Elem>,
    s: Seq<Action>,
    d1: Seq<Elem>,
    r1: Option<ElemIndex>,
    d2: Seq<Elem>,
    r2: Option<ElemIndex>,
)
    requires
        elems_wf(d0),
        inserted(d0, None, s, d1, r1),
        inserted(d1, None, s, d2, r2),
    ensures
        r1 == r2,
        d2 == d1,
{
    if s.len() > 0 {
        let i1 = r1.unwrap() as int;
        let i2 = r2.unwrap() as int;
        assert(pattern_of(d0, None) + s =~= s);
        assert(pattern_of(d1, None) + s =~= s);
        assert(sequence_of(d1, i1) == s);
        assert(d2.len() == d1.len());
        assert forall|k: int| 0 <= k < d1.len() implies (#[trigger] d1[k]).value == d2[k].value
            && d1[k].next == d2[k].next by {
            assert(same_node(d1[k], d2[k]));
        }
        lemma_sequence_frame(d1, d2, i1);
        lemma_sequence_injective(d2, i1, i2);
        if i1 < d0.len() {
            assert(d1[i1].maximal);
        } else {
            assert(d1[i1].maximal);
        }
    }
    assert forall|k: int| 0 <= k < d1.len() implies #[trigger] d2[k] == d1[k] by {
        assert(same_node(d1[k], d2[k]));
    }
    assert(d2 =~= d1);
}

/// Two registered sequences that begin alike share the nodes of their common
/// beginning: each common beginning has one node, the same for both.
pub proof fn lemma_shared_prefix(elems: Seq<Elem>, i1: int, i2: int, m: int)
    requires
        elems_wf(elems),
        0 <= i1 < elems.len(),
        0 <= i2 < elems.len(),
        1 <= m <= sequence_of(elems, i1).len(),
        m <= sequence_of(elems, i2).len(),
        sequence_of(elems, i1).subrange(0, m) == sequence_of(elems, i2).subrange(0, m),
    ensures
        exists|n: int|
            0 <= n < elems.len() && sequence_of(elems, n) == sequence_of(elems, i1).subrange(0, m)
                && forall|n2: int|
                0 <= n2 < elems.len() && sequence_of(elems, n2) == sequence_of(elems, i2).subrange(
                    0,
                    m,
                ) ==> n2 == n,
{
    lemma_prefix_has_node(elems, i1, m);
    let n = choose|n: int|
        0 <= n < elems.len() && sequence_of(elems, n) == sequence_of(elems, i1).subrange(0, m);
    assert forall|n2: int|
        0 <= n2 < elems.len() && sequence_of(elems, n2) == sequence_of(elems, i2).subrange(
            0,
            m,
        ) implies n2 == n by {
        lemma_sequence_injective(elems, n, n2);
    }
}

/// A registered sequence, recognized from its node on a stack that holds
/// exactly that sequence, yields `All` and leaves the stack empty.
pub proof fn lemma_recognize_registered(
    d0: Seq<Elem>,
    s: Seq<Action>,
    d1: Seq<Elem>,
    r: Option<ElemIndex>,
)
    requires
        elems_wf(d0),
        s.len() > 0,
        inserted(d0, None, s, d1, r),
    ensures
        recognized(pattern_of(d1, r), s) == Recognized::All,
        after_recognition(pattern_of(d1, r), s) == Seq::<Action>::empty(),
{
    assert(pattern_of(d0, None) + s =~= s);
    assert(s.subrange(0, s.len() as int) =~= s);
    assert(s.subrange(0, 0) =~= Seq::<Action>::empty());
}

impl View for Domain {
    type V = Seq<Elem>;

    closed spec fn view(&self) -> Seq<Elem> {
        self.elems@
    }
}

impl Domain {
    pub open spec fn wf(&self) -> bool {
        elems_wf(self@)
    }

    /// An empty index.
    pub fn new() -> (r: Domain)
        ensures
            r.wf(),
            r@ == Seq::<Elem>::empty(),
    {
        Domain { elems: Vec::new() }
    }

    /// The number of nodes.
    pub fn len(&self) -> (r: usize)
        ensures
            r == self@.len(),
    {
        self.elems.len()
    }

    /// The node at `index`.
    pub fn elem(&self, index: ElemIndex) -> (r: Elem)
        requires
            index < self@.len(),
        ensures
            r == self@[index as int],
    {
        self.elems[index]
    }

    /// A walk from node `index` back along its continuations.
    pub fn get(&self, index: ElemIndex) -> (r: Iter)
        ensures
            r.index == Some(index),
    {
        Iter { index: Some(index) }
    }

    /// The node holding `value` followed by `next`, if there is one.
    fn lookup(&self, value: Action, next: Option<ElemIndex>) -> (r: Option<ElemIndex>)
        ensures
            match r {
                Some(i) => i < self@.len() && self@[i as int].value == value && self@[i as int].next
                    == next,
                None => forall|k: int|
                    0 <= k < self@.len() ==> !(#[trigger] self@[k].value == value && self@[k].next
                        == next),
            },
    {
        let mut k: usize = 0;
        while k < self.elems.len()
            invariant
                0 <= k <= self@.len(),
                forall|j: int|
                    0 <= j < k ==> !(#[trigger] self@[j].value == value && self@[j].next == next),
            decreases self@.len() - k,
        {
            let elem = self.elems[k];
            if elem.value.same(&value) && elem.next == next {
                return Some(k);
            }
            k = k + 1;
        }
        None
    }

    /// Registers `values`, first to last, and returns the node that stands for
    /// the whole sequence, marked maximal; `None` for an empty sequence.
    pub fn insert(&mut self, values: &Vec<Action>) -> (r: Option<ElemIndex>)
        requires
            old(self).wf(),
        ensures
            inserted(old(self)@, None, values@, final(self)@, r),
            r.is_some() ==> pattern_of(final(self)@, r) == values@,
    {
        let r = self.insert_with_next(values, None);
        proof {
            assert(pattern_of(old(self)@, None) + values@ =~= values@);
        }
        r
    }

    /// Registers `values`, first to last, as a continuation of `next`, and
    /// returns the node that stands for the whole sequence, marked maximal.
    pub fn insert_with_next(&mut self, values: &Vec<Action>, next: Option<ElemIndex>) -> (r: Option<
        ElemIndex,
    >)
        requires
            old(self).wf(),
            valid_index(old(self)@, next),
        ensures
            inserted(old(self)@, next, values@, final(self)@, r),
    {
        let ghost old_elems = self@;
        let ghost base = pattern_of(old_elems, next);
        let ghost already = exists|j: int|
            0 <= j < old_elems.len() && sequence_of(old_elems, j) == base + values@;
        let mut cur = next;
        let mut i: usize = 0;
        proof {
            assert(base + values@.subrange(0, 0) =~= base);
        }
        while i < values.len()
            invariant
                0 <= i <= values@.len(),
                elems_wf(self@),
                old_elems.len() <= self@.len(),
                forall|k: int| 0 <= k < old_elems.len() ==> #[trigger] self@[k] == old_elems[k],
                forall|k: int| old_elems.len() <= k < self@.len() ==> !(#[trigger] self@[k]).maximal,
                valid_index(self@, cur),
                cur.is_none() ==> i == 0 && next.is_none(),
                i == 0 ==> cur == next && self@ == old_elems,
                pattern_of(self@, cur) == base + values@.subrange(0, i as int),
                already ==> self@ == old_elems,
                forall|k: int|
                    old_elems.len() <= k < self@.len() ==> base.len() < (#[trigger] sequence_of(
                        self@,
                        k,
                    )).len() <= base.len() + i && sequence_of(self@, k) == (base + values@).subrange(
                        0,
                        sequence_of(self@, k).len() as int,
                    ),
                already == (exists|j: int|
                    0 <= j < old_elems.len() && sequence_of(old_elems, j) == base + values@),
                base == pattern_of(old_elems, next),
            decreases values@.len() - i,
        {
            let value = values[i];
            let ghost before = self@;
            let ghost want = base + values@.subrange(0, i as int + 1);
            assert(want == (base + values@.subrange(0, i as int)).push(value));
            let found = self.lookup(value, cur);
            let index = match found {
                Some(index) => index,
                None => {
                    proof {
                        if already {
                            let j = choose|j: int|
                                0 <= j < old_elems.len() && sequence_of(old_elems, j) == base
                                    + values@;
                            lemma_sequence_nonempty(old_elems, j);
                            lemma_prefix_has_node(old_elems, j, want.len() as int);
                            assert((base + values@).subrange(0, want.len() as int) =~= want);
                            let n = choose|n: int|
                                0 <= n < old_elems.len() && sequence_of(old_elems, n) == want;
                            assert(before == old_elems);
                            let pn = pattern_of(before, before[n].next);
                            assert(sequence_of(before, n) == pn.push(before[n].value));
                            assert(sequence_of(before, n) == want);
                            assert(want.last() == value);
                            assert(before[n].value == value);
                            assert(pn =~= want.drop_last());
                            assert(pattern_of(before, cur) =~= want.drop_last());
                            match (before[n].next, cur) {
                                (Some(a), Some(c)) => {
                                    lemma_sequence_injective(before, a as int, c as int);
                                },
                                (Some(a), None) => {
                                    lemma_sequence_nonempty(before, a as int);
                                },
                                (None, Some(c)) => {
                                    lemma_sequence_nonempty(before, c as int);
                                },
                                (None, None) => {},
                            }
                            assert(before[n].value == value && before[n].next == cur);
                        }
                    }
                    let index = self.elems.len();
                    self.elems.push(Elem { index, value, next: cur, maximal: false });
                    proof {
                        assert forall|k: int| 0 <= k <= index implies #[trigger] before.push(
                            self@[index as int],
                        )[k].value == self@[k].value && before.push(self@[index as int])[k].next
                            == self@[k].next by {}
                        assert(self@ == before.push(self@[index as int]));
                    }
                    index
                },
            };
            proof {
                assert forall|k: int| 0 <= k < before.len() implies #[trigger] before[k].value
                    == self@[k].value && before[k].next == self@[k].next by {}
                if let Some(c) = cur {
                    lemma_sequence_frame(before, self@, c as int);
                }
                assert(sequence_of(self@, index as int) == pattern_of(self@, cur).push(value));
                assert(want =~= (base + values@).subrange(0, base.len() + i + 1));
                assert forall|k: int| old_elems.len() <= k < self@.len() implies base.len() < (
                #[trigger] sequence_of(self@, k)).len() <= base.len() + i + 1 && sequence_of(self@, k)
                    == (base + values@).subrange(0, sequence_of(self@, k).len() as int) by {
                    if k < before.len() {
                        lemma_sequence_frame(before, self@, k);
                    } else {
                        assert(k == index);
                        assert(sequence_of(self@, k) == (base + values@).subrange(0, base.len() + i + 1));
                    }
                }
            }
            cur = Some(index);
            i = i + 1;
        }
        proof {
            assert(values@.subrange(0, values@.len() as int) =~= values@);
        }
        if let Some(index) = cur {
            let mut elem = self.elems[index];
            elem.maximal = true;
            let ghost before = self@;
            self.elems.set(index, elem);
            proof {
                assert forall|k: int| 0 <= k < before.len() implies #[trigger] before[k].value
                    == self@[k].value && before[k].next == self@[k].next by {}
                lemma_sequence_frame(before, self@, index as int);
                assert forall|k: int| old_elems.len() <= k < self@.len() implies base.len() < (
                #[trigger] sequence_of(self@, k)).len() <= base.len() + values@.len() && sequence_of(
                    self@,
                    k,
                ) == (base + values@).subrange(0, sequence_of(self@, k).len() as int) by {
                    lemma_sequence_frame(before, self@, k);
                }
                if already {
                    let j = choose|j: int|
                        0 <= j < old_elems.len() && sequence_of(old_elems, j) == base + values@;
                    lemma_sequence_injective(before, j, index as int);
                }
                assert forall|k: int| 0 <= k < old_elems.len() implies (#[trigger] self@[k]).maximal
                    == (old_elems[k].maximal || (cur.is_some() && cur.unwrap() == k)) by {
                    if k != index {
                        assert(self@[k] == before[k]);
                    }
                }
                assert forall|k: int| old_elems.len() <= k < self@.len() implies (
                #[trigger] self@[k]).maximal == (cur.is_some() && cur.unwrap() == k) by {
                    if k != index {
                        assert(self@[k] == before[k]);
                    }
                }
            }
        }
        proof {
            if already {
                assert(self@.len() == old_elems.len());
            }
            assert(old_elems == old(self)@);
            assert(base == pattern_of(old(self)@, next));
            if cur.is_none() {
                assert(self@ == old_elems);
            }
        }
        cur
    }

    /// The nodes that continue node `index`, in increasing order.
    pub fn successors(&self, index: ElemIndex) -> (r: Vec<ElemIndex>)
        ensures
            successor_list(self@, index as int, r@),
    {
        let mut r: Vec<ElemIndex> = Vec::new();
        let mut k: usize = 0;
        while k < self.elems.len()
            invariant
                0 <= k <= self@.len(),
                forall|a: int, b: int| 0 <= a < b < r@.len() ==> r@[a] < r@[b],
                forall|a: int|
                    0 <= a < r@.len() ==> #[trigger] r@[a] < k && self@[r@[a] as int].next == Some(
                        index,
                    ),
                forall|j: int|
                    0 <= j < k && (#[trigger] self@[j]).next == Some(index) ==> exists|a: int|
                        0 <= a < r@.len() && r@[a] == j,
            decreases self@.len() - k,
        {
            if self.elems[k].next == Some(index) {
                let ghost before = r@;
                r.push(k);
                proof {
                    assert forall|j: int|
                        0 <= j < k + 1 && (#[trigger] self@[j]).next == Some(index) implies exists|
                        a: int,
                    | 0 <= a < r@.len() && r@[a] == j by {
                        if j < k {
                            let a = choose|a: int| 0 <= a < before.len() && before[a] == j;
                            assert(r@[a] == j);
                        } else {
                            assert(r@[before.len() as int] == j);
                        }
                    }
                }
            }
            k = k + 1;
        }
        r
    }

    /// The indices of the maximal nodes, in increasing order.
    pub fn iter_maximal(&self) -> (r: Vec<ElemIndex>)
        ensures
            forall|a: int, b: int| 0 <= a < b < r@.len() ==> r@[a] < r@[b],
            forall|a: int| 0 <= a < r@.len() ==> #[trigger] r@[a] < self@.len() && self@[r@[a] as int].maximal,
            forall|k: int|
                0 <= k < self@.len() && (#[trigger] self@[k]).maximal ==> exists|a: int|
                    0 <= a < r@.len() && r@[a] == k,
    {
        let mut r: Vec<ElemIndex> = Vec::new();
        let mut k: usize = 0;
        while k < self.elems.len()
            invariant
                0 <= k <= self@.len(),
                forall|a: int, b: int| 0 <= a < b < r@.len() ==> r@[a] < r@[b],
                forall|a: int| 0 <= a < r@.len() ==> #[trigger] r@[a] < k && self@[r@[a] as int].maximal,
                forall|j: int|
                    0 <= j < k && (#[trigger] self@[j]).maximal ==> exists|a: int|
                        0 <= a < r@.len() && r@[a] == j,
            decreases self@.len() - k,
        {
            if self.elems[k].maximal {
                let ghost before = r@;
                r.push(k);
                proof {
                    assert forall|j: int| 0 <= j < k + 1 && (#[trigger] self@[j]).maximal implies exists|a: int|
                        0 <= a < r@.len() && r@[a] == j by {
                        if j < k {
                            let a = choose|a: int| 0 <= a < before.len() && before[a] == j;
                            assert(r@[a] == j);
                        } else {
                            assert(r@[before.len() as int] == j);
                        }
                    }
                }
            }
            k = k + 1;
        }
        r
    }

    /// The sequence that node `index` stands for, first to last.
    pub fn sequence(&self, index: ElemIndex) -> (r: Vec<Action>)
        requires
            self.wf(),
            index < self@.len(),
        ensures
            r@ == sequence_of(self@, index as int),
        decreases index,
    {
        let elem = self.elems[index];
        match elem.next {
            Some(j) => {
                let mut r = self.sequence(j);
                r.push(elem.value);
                r
            },
            None => {
                let mut r = Vec::new();
                r.push(elem.value);
                proof {
                    assert(r@ =~= Seq::<Action>::empty().push(elem.value));
                }
                r
            },
        }
    }

    /// Compares the top of `stack` with the sequence of `index`, popping
    /// the matched values; on `Error` the stack is left as it was.
    ///
    /// `All` when the stack holds exactly the sequence; `Partial` when the
    /// sequence lies on top with more values below it, which stay; `Error`
    /// otherwise, also when the stack runs out before the sequence does.
    /// With no node (the empty sequence) an empty stack is `All` and any
    /// other stack `Partial`. A stack shorter than a pattern is therefore no
    /// match: a single action never satisfies a pattern of two, and a pattern
    /// that ends with values left below it is a match of the top.
    pub fn recognize_at_index(&self, index: Option<ElemIndex>, stack: &mut Stack<Action>) -> (r:
        Recognized)
        requires
            self.wf(),
            valid_index(self@, index),
            old(stack).wf(),
        ensures
            final(stack).wf(),
            r == recognized(pattern_of(self@, index), old(stack).live()),
            final(stack).live() == after_recognition(pattern_of(self@, index), old(stack).live()),
            r == Recognized::Error ==> final(stack).held() == old(stack).held(),
    {
        let ghost s0 = old(stack).live();
        let ghost h0 = old(stack).held();
        let ghost pat = pattern_of(self@, index);
        let total = stack.len();
        let mut cur = index;
        let mut popped: usize = 0;
        proof {
            assert(s0.subrange(s0.len() as int, s0.len() as int) =~= Seq::<Action>::empty());
            assert(pat =~= pat + Seq::<Action>::empty());
            assert(s0.subrange(0, s0.len() as int) =~= s0);
        }
        while cur.is_some()
            invariant
                self.wf(),
                valid_index(self@, cur),
                stack.wf(),
                total == s0.len(),
                popped <= s0.len(),
                stack.live() == s0.subrange(0, s0.len() - popped),
                stack.held() == s0.subrange(s0.len() - popped, s0.len() as int) + h0,
                pat == pattern_of(self@, cur) + s0.subrange(s0.len() - popped, s0.len() as int),
                pat == pattern_of(self@, index),
                s0 == old(stack).live(),
                h0 == old(stack).held(),
            decreases stack.live().len(),
        {
            let i = cur.unwrap();
            let elem = self.elems[i];
            let ghost matched = s0.subrange(s0.len() - popped, s0.len() as int);
            proof {
                lemma_sequence_nonempty(self@, i as int);
                assert(sequence_of(self@, i as int) == pattern_of(self@, elem.next).push(
                    elem.value,
                ));
                assert(pat.len() == sequence_of(self@, i as int).len() + popped);
                assert(pat[pat.len() - popped - 1] == elem.value);
            }
            match stack.pop() {
                None => {
                    proof {
                        assert(pat.len() > s0.len());
                    }
                    Self::restore(stack, popped, Ghost(s0), Ghost(h0));
                    return Recognized::Error;
                },
                Some(top) => {
                    proof {
                        assert(popped < total);
                    }
                    if top.same(&elem.value) {
                        proof {
                            let matched2 = s0.subrange(s0.len() - popped - 1, s0.len() as int);
                            assert(matched2 =~= seq![top] + matched);
                            assert(pat =~= pattern_of(self@, elem.next) + matched2);
                            assert(stack.live() =~= s0.subrange(0, s0.len() - popped - 1));
                            assert(stack.held() =~= matched2 + h0);
                        }
                        popped = popped + 1;
                        cur = elem.next;
                    } else {
                        stack.undo();
                        proof {
                            assert(stack.live() =~= s0.subrange(0, s0.len() - popped));
                            assert(stack.held() =~= matched + h0);
                            let k = pat.len() - popped - 1;
                            if pat.len() <= s0.len() && s0.subrange(
                                s0.len() - pat.len(),
                                s0.len() as int,
                            ) == pat {
                                assert(s0[s0.len() - popped - 1] == pat[k]);
                            }
                        }
                        Self::restore(stack, popped, Ghost(s0), Ghost(h0));
                        return Recognized::Error;
                    }
                },
            }
        }
        proof {
            assert(pattern_of(self@, cur) == Seq::<Action>::empty());
            assert(pat =~= s0.subrange(s0.len() - popped, s0.len() as int));
        }
        if stack.len() == 0 {
            Recognized::All
        } else {
            Recognized::Partial
        }
    }

    /// Puts back the `popped` values that a failed recognition took off `stack`.
    fn restore(stack: &mut Stack<Action>, popped: usize, Ghost(s0): Ghost<Seq<Action>>, Ghost(h0): Ghost<Seq<Action>>)
        requires
            old(stack).wf(),
            popped <= s0.len(),
            old(stack).live() == s0.subrange(0, s0.len() - popped),
            old(stack).held() == s0.subrange(s0.len() - popped, s0.len() as int) + h0,
        ensures
            final(stack).wf(),
            final(stack).live() == s0,
            final(stack).held() == h0,
    {
        let mut k: usize = 0;
        while k < popped
            invariant
                stack.wf(),
                k <= popped,
                popped <= s0.len(),
                stack.live() == s0.subrange(0, s0.len() - popped + k),
                stack.held() == s0.subrange(s0.len() - popped + k, s0.len() as int) + h0,
            decreases popped - k,
        {
            stack.undo();
            proof {
                assert(stack.live() =~= s0.subrange(0, s0.len() - popped + k + 1));
                assert(stack.held() =~= s0.subrange(s0.len() - popped + k + 1, s0.len() as int) + h0);
            }
            k = k + 1;
        }
        proof {
            assert(s0.subrange(0, s0.len() as int) =~= s0);
            assert(s0.subrange(s0.len() as int, s0.len() as int) + h0 =~= h0);
        }
    }
}

impl Iter {
    /// The symbol of the current node, moving on to its continuation.
    pub fn next(&mut self, domain: &Domain) -> (r: Option<Action>)
        ensures
            match old(self).index {
                Some(i) if i < domain@.len() => r == Some(domain@[i as int].value)
                    && final(self).index == domain@[i as int].next,
                _ => r.is_none() && final(self).index.is_none(),
            },
    {
        match self.index {
            Some(i) => {
                if i < domain.len() {
                    let elem = domain.elem(i);
                    self.index = elem.next;
                    Some(elem.value)
                } else {
                    self.index = None;
                    None
                }
            },
            None => None,
        }
    }
}

} // verus!
