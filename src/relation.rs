//! Relations between finite sets of values, as lists of pairs; a pair may
//! occur more than once, so a relation counts how often it relates two values.
use vstd::prelude::*;
use std::collections::{HashMap, HashSet};

verus! {

broadcast use vstd::std_specs::hash::group_hash_axioms;

pub type Value = usize;

/// Hands out `*counter` as a fresh value and moves the counter on.
pub fn next_value(counter: &mut Value) -> (r: Value)
    requires
        *old(counter) < usize::MAX,
    ensures
        r == *old(counter),
        *final(counter) == *old(counter) + 1,
{
    let r = *counter;
    *counter = *counter + 1;
    r
}

/// The pairs, in order, duplicates kept.
#[derive(Debug, Default)]
pub struct Relation {
    data: Vec<(Value, Value)>,
}

/// The distinct first components of `pairs`, in order of first occurrence.
pub open spec fn firsts(pairs: Seq<(Value, Value)>) -> Seq<Value>
    decreases pairs.len(),
{
    if pairs.len() == 0 {
        Seq::empty()
    } else {
        let f = firsts(pairs.drop_last());
        if f.contains(pairs.last().0) {
            f
        } else {
            f.push(pairs.last().0)
        }
    }
}

/// The distinct second components of `pairs`, in order of first occurrence.
pub open spec fn seconds(pairs: Seq<(Value, Value)>) -> Seq<Value> {
    firsts(pairs.map_values(|p: (Value, Value)| (p.1, p.0)))
}

/// For each `y`, how many pairs relate `value` to `y`.
pub open spec fn forward_counts(pairs: Seq<(Value, Value)>, value: Value) -> Map<Value, usize>
    decreases pairs.len(),
{
    if pairs.len() == 0 {
        Map::empty()
    } else {
        let m = forward_counts(pairs.drop_last(), value);
        let (x, y) = pairs.last();
        if x == value {
            m.insert(
                y,
                if m.contains_key(y) {
                    (m[y] + 1) as usize
                } else {
                    1usize
                },
            )
        } else {
            m
        }
    }
}

/// The pairs with their components swapped.
pub open spec fn swapped(pairs: Seq<(Value, Value)>) -> Seq<(Value, Value)> {
    pairs.map_values(|p: (Value, Value)| (p.1, p.0))
}

/// The pairs `(x, z)` of `second` after `pair`: one for each pair `(y, z)`
/// of `second` whose `y` is the second component of `pair`, in order.
pub open spec fn joined(pair: (Value, Value), second: Seq<(Value, Value)>) -> Seq<(Value, Value)>
    decreases second.len(),
{
    if second.len() == 0 {
        Seq::empty()
    } else {
        let rest = joined(pair, second.drop_last());
        if second.last().0 == pair.1 {
            rest.push((pair.0, second.last().1))
        } else {
            rest
        }
    }
}

/// The composite relation: for each pair of `first` in order, its joins with `second`.
pub open spec fn joins(first: Seq<(Value, Value)>, second: Seq<(Value, Value)>) -> Seq<(Value, Value)>
    decreases first.len(),
{
    if first.len() == 0 {
        Seq::empty()
    } else {
        joins(first.drop_last(), second) + joined(first.last(), second)
    }
}

/// Each of `values` paired with a fresh value counted up from `start`; the
/// fresh value first when `fresh_first`.
pub open spec fn tagged(values: Seq<Value>, start: int, fresh_first: bool) -> Seq<(Value, Value)> {
    values.map(
        |k: int, x: Value|
            if fresh_first {
                ((start + k) as Value, x)
            } else {
                (x, (start + k) as Value)
            },
    )
}

proof fn lemma_firsts_len(pairs: Seq<(Value, Value)>)
    ensures
        firsts(pairs).len() <= pairs.len(),
    decreases pairs.len(),
{
    if pairs.len() > 0 {
        lemma_firsts_len(pairs.drop_last());
    }
}

proof fn lemma_forward_counts_bounded(pairs: Seq<(Value, Value)>, value: Value, y: Value)
    ensures
        forward_counts(pairs, value).contains_key(y) ==> forward_counts(pairs, value)[y] <= pairs.len(),
    decreases pairs.len(),
{
    if pairs.len() > 0 {
        lemma_forward_counts_bounded(pairs.drop_last(), value, y);
    }
}

impl View for Relation {
    type V = Seq<(Value, Value)>;

    closed spec fn view(&self) -> Seq<(Value, Value)> {
        self.data@
    }
}

impl Relation {
    /// The relation holding `data`.
    pub fn new(data: Vec<(Value, Value)>) -> (r: Relation)
        ensures
            r@ == data@,
    {
        Relation { data }
    }

    /// The pairs, in order.
    pub fn items(&self) -> (r: Vec<(Value, Value)>)
        ensures
            r@ == self@,
    {
        let mut r: Vec<(Value, Value)> = Vec::new();
        let mut i: usize = 0;
        while i < self.data.len()
            invariant
                0 <= i <= self@.len(),
                r@ == self@.subrange(0, i as int),
            decreases self@.len() - i,
        {
            r.push(self.data[i]);
            i = i + 1;
            proof {
                assert(r@ =~= self@.subrange(0, i as int));
            }
        }
        proof {
            assert(self@.subrange(0, self@.len() as int) =~= self@);
        }
        r
    }

    /// The values that something is related from.
    pub fn domain(&self) -> (r: HashSet<Value>)
        ensures
            forall|x: Value| r@.contains(x) <==> exists|i: int| 0 <= i < self@.len() && #[trigger] self@[i].0 == x,
    {
        let mut r: HashSet<Value> = HashSet::new();
        let mut i: usize = 0;
        while i < self.data.len()
            invariant
                0 <= i <= self@.len(),
                forall|x: Value| r@.contains(x) <==> exists|j: int| 0 <= j < i && #[trigger] self@[j].0 == x,
            decreases self@.len() - i,
        {
            let (x, _) = self.data[i];
            r.insert(x);
            proof {
                assert forall|z: Value| r@.contains(z) implies exists|j: int| 0 <= j < i + 1 && #[trigger] self@[j].0 == z by {
                    if z == x {
                        assert(self@[i as int].0 == z);
                    }
                }
            }
            i = i + 1;
        }
        r
    }

    /// The values that something is related to.
    pub fn codomain(&self) -> (r: HashSet<Value>)
        ensures
            forall|y: Value| r@.contains(y) <==> exists|i: int| 0 <= i < self@.len() && #[trigger] self@[i].1 == y,
    {
        let mut r: HashSet<Value> = HashSet::new();
        let mut i: usize = 0;
        while i < self.data.len()
            invariant
                0 <= i <= self@.len(),
                forall|y: Value| r@.contains(y) <==> exists|j: int| 0 <= j < i && #[trigger] self@[j].1 == y,
            decreases self@.len() - i,
        {
            let (_, y) = self.data[i];
            r.insert(y);
            proof {
                assert forall|z: Value| r@.contains(z) implies exists|j: int| 0 <= j < i + 1 && #[trigger] self@[j].1 == z by {
                    if z == y {
                        assert(self@[i as int].1 == z);
                    }
                }
            }
            i = i + 1;
        }
        r
    }

    /// For each value that `value` is related to, how many pairs relate them.
    pub fn forward_eval(&self, value: Value) -> (r: HashMap<Value, usize>)
        ensures
            r@ == forward_counts(self@, value),
    {
        counts(&self.data, value)
    }

    /// For each value related to `value`, how many pairs relate them.
    pub fn backward_eval(&self, value: Value) -> (r: HashMap<Value, usize>)
        ensures
            r@ == forward_counts(swapped(self@), value),
    {
        let d = self.dual();
        counts(&d.data, value)
    }

    /// The converse relation, pair by pair.
    pub fn dual(&self) -> (r: Relation)
        ensures
            r@ == swapped(self@),
    {
        let mut data: Vec<(Value, Value)> = Vec::new();
        let mut i: usize = 0;
        while i < self.data.len()
            invariant
                0 <= i <= self@.len(),
                data@ == swapped(self@.subrange(0, i as int)),
            decreases self@.len() - i,
        {
            let (x, y) = self.data[i];
            data.push((y, x));
            i = i + 1;
            proof {
                assert(data@ =~= swapped(self@.subrange(0, i as int)));
            }
        }
        proof {
            assert(self@.subrange(0, self@.len() as int) =~= self@);
        }
        Relation { data }
    }

    /// The identity relation on `values`, one pair for each.
    pub fn identity(&self, values: &Vec<Value>) -> (r: Relation)
        ensures
            r@ == values@.map_values(|x: Value| (x, x)),
    {
        let mut data: Vec<(Value, Value)> = Vec::new();
        let mut i: usize = 0;
        while i < values.len()
            invariant
                0 <= i <= values@.len(),
                data@ == values@.subrange(0, i as int).map_values(|x: Value| (x, x)),
            decreases values@.len() - i,
        {
            data.push((values[i], values[i]));
            i = i + 1;
            proof {
                assert(data@ =~= values@.subrange(0, i as int).map_values(|x: Value| (x, x)));
            }
        }
        proof {
            assert(values@.subrange(0, values@.len() as int) =~= values@);
        }
        Relation { data }
    }

    /// This relation followed by `other`: a pair `(x, z)` for each pair
    /// `(x, y)` here and each pair `(y, z)` of `other`.
    pub fn compose(&self, other: &Relation) -> (r: Relation)
        ensures
            r@ == joins(self@, other@),
    {
        let mut data: Vec<(Value, Value)> = Vec::new();
        let mut i: usize = 0;
        while i < self.data.len()
            invariant
                0 <= i <= self@.len(),
                data@ == joins(self@.subrange(0, i as int), other@),
            decreases self@.len() - i,
        {
            let (x, y1) = self.data[i];
            let ghost before = data@;
            proof {
                let s = self@.subrange(0, i as int + 1);
                assert(s.drop_last() =~= self@.subrange(0, i as int));
                assert(s.last() == (x, y1));
            }
            let mut j: usize = 0;
            while j < other.data.len()
                invariant
                    0 <= j <= other@.len(),
                    data@ == before + joined((x, y1), other@.subrange(0, j as int)),
                decreases other@.len() - j,
            {
                let (y2, z) = other.data[j];
                proof {
                    let s = other@.subrange(0, j as int + 1);
                    assert(s.drop_last() =~= other@.subrange(0, j as int));
                    assert(s.last() == (y2, z));
                }
                if y1 == y2 {
                    data.push((x, z));
                }
                j = j + 1;
                proof {
                    assert(data@ =~= before + joined((x, y1), other@.subrange(0, j as int)));
                }
            }
            proof {
                assert(other@.subrange(0, other@.len() as int) =~= other@);
            }
            i = i + 1;
        }
        proof {
            assert(self@.subrange(0, self@.len() as int) =~= self@);
        }
        Relation { data }
    }

    /// The two projections of the product of the domains of this relation
    /// and `other`: each value of a domain, in order of first occurrence,
    /// gets a fresh value from `counter`, which relates to it.
    pub fn product(&self, other: &Relation, counter: &mut Value) -> (r: (Relation, Relation))
        requires
            *old(counter) + self@.len() + other@.len() <= usize::MAX,
        ensures
            r.0@ == tagged(firsts(self@), *old(counter) as int, true),
            r.1@ == tagged(firsts(other@), *old(counter) + firsts(self@).len(), true),
            *final(counter) == *old(counter) + firsts(self@).len() + firsts(other@).len(),
    {
        proof {
            lemma_firsts_len(self@);
            lemma_firsts_len(other@);
        }
        let a = distinct_firsts(&self.data);
        let b = distinct_firsts(&other.data);
        let left = tag_fresh(&a, counter, true);
        let right = tag_fresh(&b, counter, true);
        (Relation { data: left }, Relation { data: right })
    }

    /// The two inclusions into the coproduct of the codomains of this
    /// relation and `other`: each value of a codomain, in order of first
    /// occurrence, relates to a fresh value from `counter`.
    pub fn coproduct(&self, other: &Relation, counter: &mut Value) -> (r: (Relation, Relation))
        requires
            *old(counter) + self@.len() + other@.len() <= usize::MAX,
        ensures
            r.0@ == tagged(seconds(self@), *old(counter) as int, false),
            r.1@ == tagged(seconds(other@), *old(counter) + seconds(self@).len(), false),
            *final(counter) == *old(counter) + seconds(self@).len() + seconds(other@).len(),
    {
        let d = self.dual();
        let e = other.dual();
        proof {
            lemma_firsts_len(d@);
            lemma_firsts_len(e@);
        }
        let a = distinct_firsts(&d.data);
        let b = distinct_firsts(&e.data);
        let left = tag_fresh(&a, counter, false);
        let right = tag_fresh(&b, counter, false);
        (Relation { data: left }, Relation { data: right })
    }
}

/// For each `y`, how many pairs of `pairs` relate `value` to `y`.
fn counts(pairs: &Vec<(Value, Value)>, value: Value) -> (r: HashMap<Value, usize>)
    ensures
        r@ == forward_counts(pairs@, value),
{
    let mut r: HashMap<Value, usize> = HashMap::new();
    let mut i: usize = 0;
    while i < pairs.len()
        invariant
            0 <= i <= pairs@.len(),
            r@ == forward_counts(pairs@.subrange(0, i as int), value),
        decreases pairs@.len() - i,
    {
        let (x, y) = pairs[i];
        let ghost s = pairs@.subrange(0, i as int + 1);
        proof {
            assert(s.drop_last() =~= pairs@.subrange(0, i as int));
            assert(s.last() == (x, y));
            lemma_forward_counts_bounded(pairs@.subrange(0, i as int), value, y);
        }
        if x == value {
            let c: usize = match r.get(&y) {
                Some(c) => *c,
                None => 0,
            };
            r.insert(y, c + 1);
        }
        i = i + 1;
    }
    proof {
        assert(pairs@.subrange(0, pairs@.len() as int) =~= pairs@);
    }
    r
}

/// The distinct first components of `pairs`, in order of first occurrence.
fn distinct_firsts(pairs: &Vec<(Value, Value)>) -> (r: Vec<Value>)
    ensures
        r@ == firsts(pairs@),
{
    let mut r: Vec<Value> = Vec::new();
    let mut seen: HashSet<Value> = HashSet::new();
    let mut i: usize = 0;
    while i < pairs.len()
        invariant
            0 <= i <= pairs@.len(),
            r@ == firsts(pairs@.subrange(0, i as int)),
            forall|x: Value| seen@.contains(x) <==> r@.contains(x),
        decreases pairs@.len() - i,
    {
        let (x, _) = pairs[i];
        proof {
            let s = pairs@.subrange(0, i as int + 1);
            assert(s.drop_last() =~= pairs@.subrange(0, i as int));
            assert(s.last().0 == x);
        }
        if !seen.contains(&x) {
            seen.insert(x);
            let ghost before = r@;
            r.push(x);
            proof {
                assert forall|z: Value| seen@.contains(z) <==> r@.contains(z) by {
                    if z == x {
                        assert(r@[before.len() as int] == x);
                    } else if r@.contains(z) {
                        let k = choose|k: int| 0 <= k < r@.len() && r@[k] == z;
                        assert(before[k] == z);
                    } else if before.contains(z) {
                        let k = choose|k: int| 0 <= k < before.len() && before[k] == z;
                        assert(r@[k] == z);
                    }
                }
            }
        }
        i = i + 1;
    }
    proof {
        assert(pairs@.subrange(0, pairs@.len() as int) =~= pairs@);
    }
    r
}

/// Pairs each of `values` with a fresh value from `counter`.
fn tag_fresh(values: &Vec<Value>, counter: &mut Value, fresh_first: bool) -> (r: Vec<(Value, Value)>)
    requires
        *old(counter) + values@.len() <= usize::MAX,
    ensures
        r@ == tagged(values@, *old(counter) as int, fresh_first),
        *final(counter) == *old(counter) + values@.len(),
{
    let ghost start = *counter;
    let mut r: Vec<(Value, Value)> = Vec::new();
    let mut i: usize = 0;
    while i < values.len()
        invariant
            0 <= i <= values@.len(),
            start + values@.len() <= usize::MAX,
            *counter == start + i,
            r@ == tagged(values@.subrange(0, i as int), start as int, fresh_first),
        decreases values@.len() - i,
    {
        let z = next_value(counter);
        if fresh_first {
            r.push((z, values[i]));
        } else {
            r.push((values[i], z));
        }
        i = i + 1;
        proof {
            assert(r@ =~= tagged(values@.subrange(0, i as int), start as int, fresh_first));
        }
    }
    proof {
        assert(values@.subrange(0, values@.len() as int) =~= values@);
    }
    r
}

} // verus!
