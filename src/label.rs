//! Labels for states and actions: handles handed out in order, and a map
//! from each label to the handle it names.
use vstd::prelude::*;

use crate::base::{Action, State};
use crate::config::{Config, InterfaceConfig, LensConfig, RuleConfig, StateConfig};
use crate::engine::TransduceError;
use crate::lens::{
    has_empty, lens_reduce, rules_view, typed, ActionHandle, Lens, LensError, Outcome, RuleView,
    StateHandle,
};
use crate::rule::Rule;

verus! {

/// What a label names.
#[derive(Clone, Copy, PartialEq, Eq, Structural, Debug)]
pub enum Labeled {
    Action(ActionHandle),
    State(StateHandle),
}

/// Whether some entry of `entries` has the label `label`.
pub open spec fn has_label(entries: Seq<(String, Labeled)>, label: Seq<char>) -> bool {
    exists|i: int| 0 <= i < entries.len() && (#[trigger] entries[i]).0@ == label
}

/// Whether `entries` maps `label` to `value`.
pub open spec fn maps_to(entries: Seq<(String, Labeled)>, label: Seq<char>, value: Labeled) -> bool {
    exists|i: int| 0 <= i < entries.len() && (#[trigger] entries[i]).0@ == label && entries[i].1 == value
}

/// No two entries share a label.
pub open spec fn labels_unique(entries: Seq<(String, Labeled)>) -> bool {
    forall|i: int, j: int|
        0 <= i < entries.len() && 0 <= j < entries.len() && i != j ==> (#[trigger] entries[i]).0@
            != (#[trigger] entries[j]).0@
}

/// Labels and what they name, in order of first insertion, each label once.
#[derive(Debug)]
pub struct LabelMap {
    entries: Vec<(String, Labeled)>,
}

impl View for LabelMap {
    type V = Seq<(String, Labeled)>;

    closed spec fn view(&self) -> Seq<(String, Labeled)> {
        self.entries@
    }
}

impl LabelMap {
    pub open spec fn wf(&self) -> bool {
        labels_unique(self@)
    }

    /// An empty map.
    pub fn new() -> (r: LabelMap)
        ensures
            r.wf(),
            r@.len() == 0,
    {
        LabelMap { entries: Vec::new() }
    }

    /// The position of the entry for `label`.
    fn position(&self, label: &String) -> (r: Option<usize>)
        requires
            self.wf(),
        ensures
            match r {
                Some(i) => i < self@.len() && self@[i as int].0@ == label@,
                None => !has_label(self@, label@),
            },
    {
        let mut i: usize = 0;
        while i < self.entries.len()
            invariant
                0 <= i <= self@.len(),
                forall|j: int| 0 <= j < i ==> (#[trigger] self@[j]).0@ != label@,
            decreases self@.len() - i,
        {
            if self.entries[i].0 == *label {
                return Some(i);
            }
            i = i + 1;
        }
        None
    }

    /// Maps `label` to `value`, replacing what it named before.
    pub fn insert(&mut self, label: String, value: Labeled)
        requires
            old(self).wf(),
        ensures
            final(self).wf(),
            maps_to(final(self)@, label@, value),
            forall|l: Seq<char>, v: Labeled|
                l != label@ ==> (maps_to(final(self)@, l, v) <==> maps_to(old(self)@, l, v)),
            forall|l: Seq<char>| l != label@ ==> (has_label(final(self)@, l) <==> has_label(old(self)@, l)),
            !has_label(old(self)@, label@) ==> final(self)@ == old(self)@.push((label, value)),
            has_label(old(self)@, label@) ==> labels_of(final(self)@) == labels_of(old(self)@),
    {
        match self.position(&label) {
            Some(i) => {
                let ghost key = label@;
                self.entries.set(i, (label, value));
                proof {
                    assert(self@[i as int].0@ == key);
                    assert(labels_of(self@) =~= labels_of(old(self)@));
                    assert forall|l: Seq<char>, v: Labeled| l != key implies (maps_to(self@, l, v)
                        <==> maps_to(old(self)@, l, v)) by {
                        if maps_to(self@, l, v) {
                            let j = choose|j: int| 0 <= j < self@.len() && (#[trigger] self@[j]).0@ == l && self@[j].1 == v;
                            assert(old(self)@[j] == self@[j]);
                        }
                        if maps_to(old(self)@, l, v) {
                            let j = choose|j: int| 0 <= j < old(self)@.len() && (#[trigger] old(self)@[j]).0@ == l && old(self)@[j].1 == v;
                            assert(old(self)@[j] == self@[j]);
                        }
                    }
                    assert forall|l: Seq<char>| l != key implies (has_label(self@, l) <==> has_label(old(self)@, l)) by {
                        if has_label(self@, l) {
                            let j = choose|j: int| 0 <= j < self@.len() && (#[trigger] self@[j]).0@ == l;
                            assert(old(self)@[j] == self@[j]);
                        }
                        if has_label(old(self)@, l) {
                            let j = choose|j: int| 0 <= j < old(self)@.len() && (#[trigger] old(self)@[j]).0@ == l;
                            assert(old(self)@[j] == self@[j]);
                        }
                    }
                    assert forall|a: int, b: int|
                        0 <= a < self@.len() && 0 <= b < self@.len() && a != b implies (#[trigger] self@[a]).0@
                            != (#[trigger] self@[b]).0@ by {
                        assert(old(self)@[a].0@ == self@[a].0@);
                        assert(old(self)@[b].0@ == self@[b].0@);
                    }
                }
            },
            None => {
                let ghost key = label@;
                self.entries.push((label, value));
                proof {
                    let n = old(self)@.len() as int;
                    assert(self@[n].0@ == key);
                    assert forall|l: Seq<char>, v: Labeled| l != key implies (maps_to(self@, l, v)
                        <==> maps_to(old(self)@, l, v)) by {
                        if maps_to(self@, l, v) {
                            let j = choose|j: int| 0 <= j < self@.len() && (#[trigger] self@[j]).0@ == l && self@[j].1 == v;
                            assert(old(self)@[j] == self@[j]);
                        }
                        if maps_to(old(self)@, l, v) {
                            let j = choose|j: int| 0 <= j < old(self)@.len() && (#[trigger] old(self)@[j]).0@ == l && old(self)@[j].1 == v;
                            assert(old(self)@[j] == self@[j]);
                        }
                    }
                    assert forall|l: Seq<char>| l != key implies (has_label(self@, l) <==> has_label(old(self)@, l)) by {
                        if has_label(self@, l) {
                            let j = choose|j: int| 0 <= j < self@.len() && (#[trigger] self@[j]).0@ == l;
                            assert(old(self)@[j] == self@[j]);
                        }
                        if has_label(old(self)@, l) {
                            let j = choose|j: int| 0 <= j < old(self)@.len() && (#[trigger] old(self)@[j]).0@ == l;
                            assert(old(self)@[j] == self@[j]);
                        }
                    }
                    assert forall|a: int, b: int|
                        0 <= a < self@.len() && 0 <= b < self@.len() && a != b implies (#[trigger] self@[a]).0@
                            != (#[trigger] self@[b]).0@ by {
                        if a < n && b < n {
                            assert(old(self)@[a] == self@[a]);
                            assert(old(self)@[b] == self@[b]);
                        } else if a < n {
                            assert(old(self)@[a] == self@[a]);
                        } else {
                            assert(old(self)@[b] == self@[b]);
                        }
                    }
                }
            },
        }
    }

    /// What `label` names.
    pub fn get(&self, label: &String) -> (r: Option<Labeled>)
        requires
            self.wf(),
        ensures
            r.is_some() == has_label(self@, label@),
            r.is_some() ==> maps_to(self@, label@, r.unwrap()),
    {
        match self.position(label) {
            Some(i) => Some(self.entries[i].1),
            None => None,
        }
    }

    /// A label of `value`: the one inserted first.
    pub fn reverse_lookup(&self, value: Labeled) -> (r: Option<String>)
        ensures
            match r {
                Some(label) => maps_to(self@, label@, value),
                None => forall|i: int| 0 <= i < self@.len() ==> (#[trigger] self@[i]).1 != value,
            },
    {
        let mut i: usize = 0;
        while i < self.entries.len()
            invariant
                0 <= i <= self@.len(),
                forall|j: int| 0 <= j < i ==> (#[trigger] self@[j]).1 != value,
            decreases self@.len() - i,
        {
            if self.entries[i].1 == value {
                let label = self.entries[i].0.clone();
                proof {
                    assert(self@[i as int].0@ == label@);
                }
                return Some(label);
            }
            i = i + 1;
        }
        None
    }

    /// What the labels name, in order of first insertion.
    pub fn iter(&self) -> (r: Vec<Labeled>)
        ensures
            r@ == self@.map_values(|e: (String, Labeled)| e.1),
    {
        let mut r: Vec<Labeled> = Vec::new();
        let mut i: usize = 0;
        while i < self.entries.len()
            invariant
                0 <= i <= self@.len(),
                r@ == self@.subrange(0, i as int).map_values(|e: (String, Labeled)| e.1),
            decreases self@.len() - i,
        {
            r.push(self.entries[i].1);
            i = i + 1;
            proof {
                assert(r@ =~= self@.subrange(0, i as int).map_values(|e: (String, Labeled)| e.1));
            }
        }
        proof {
            assert(self@.subrange(0, self@.len() as int) =~= self@);
        }
        r
    }

    /// The action handles that labels name, in order of first insertion.
    pub fn iter_actions(&self) -> (r: Vec<ActionHandle>)
        ensures
            r@ == self@.filter(|e: (String, Labeled)| e.1 is Action).map_values(
                |e: (String, Labeled)| e.1->Action_0,
            ),
    {
        let ghost pred = |e: (String, Labeled)| e.1 is Action;
        let ghost f = |e: (String, Labeled)| e.1->Action_0;
        let mut r: Vec<ActionHandle> = Vec::new();
        let mut i: usize = 0;
        while i < self.entries.len()
            invariant
                0 <= i <= self@.len(),
                pred == (|e: (String, Labeled)| e.1 is Action),
                f == (|e: (String, Labeled)| e.1->Action_0),
                r@ == self@.subrange(0, i as int).filter(pred).map_values(f),
            decreases self@.len() - i,
        {
            let ghost s = self@.subrange(0, i as int + 1);
            proof {
                reveal(Seq::filter);
                assert(s.drop_last() =~= self@.subrange(0, i as int));
                assert(s.last() == self@[i as int]);
            }
            match self.entries[i].1 {
                Labeled::Action(h) => {
                    r.push(h);
                    proof {
                        assert(r@ =~= s.filter(pred).map_values(f));
                    }
                },
                Labeled::State(_) => {
                    proof {
                        assert(r@ =~= s.filter(pred).map_values(f));
                    }
                },
            }
            i = i + 1;
        }
        proof {
            assert(self@.subrange(0, self@.len() as int) =~= self@);
        }
        r
    }

    /// The state handles that labels name, in order of first insertion.
    pub fn iter_states(&self) -> (r: Vec<StateHandle>)
        ensures
            r@ == self@.filter(|e: (String, Labeled)| e.1 is State).map_values(
                |e: (String, Labeled)| e.1->State_0,
            ),
    {
        let ghost pred = |e: (String, Labeled)| e.1 is State;
        let ghost f = |e: (String, Labeled)| e.1->State_0;
        let mut r: Vec<StateHandle> = Vec::new();
        let mut i: usize = 0;
        while i < self.entries.len()
            invariant
                0 <= i <= self@.len(),
                pred == (|e: (String, Labeled)| e.1 is State),
                f == (|e: (String, Labeled)| e.1->State_0),
                r@ == self@.subrange(0, i as int).filter(pred).map_values(f),
            decreases self@.len() - i,
        {
            let ghost s = self@.subrange(0, i as int + 1);
            proof {
                reveal(Seq::filter);
                assert(s.drop_last() =~= self@.subrange(0, i as int));
                assert(s.last() == self@[i as int]);
            }
            match self.entries[i].1 {
                Labeled::State(h) => {
                    r.push(h);
                    proof {
                        assert(r@ =~= s.filter(pred).map_values(f));
                    }
                },
                Labeled::Action(_) => {
                    proof {
                        assert(r@ =~= s.filter(pred).map_values(f));
                    }
                },
            }
            i = i + 1;
        }
        proof {
            assert(self@.subrange(0, self@.len() as int) =~= self@);
        }
        r
    }

    /// The labels and what they name, in order of first insertion.
    pub fn iter_all(&self) -> (r: &Vec<(String, Labeled)>)
        ensures
            r@ == self@,
    {
        &self.entries
    }
}

/// A handle built from its index.
pub trait Indexed: Sized + Copy {
    spec fn spec_index(&self) -> usize;

    fn build_with_index(index: usize) -> (r: Self)
        ensures
            r.spec_index() == index,
    ;
}

impl Indexed for StateHandle {
    open spec fn spec_index(&self) -> usize {
        self.index
    }

    fn build_with_index(index: usize) -> (r: Self) {
        StateHandle { index }
    }
}

impl Indexed for ActionHandle {
    open spec fn spec_index(&self) -> usize {
        self.index
    }

    fn build_with_index(index: usize) -> (r: Self) {
        ActionHandle { index }
    }
}

/// Hands out handles numbered from zero, keeping each one.
#[derive(Debug)]
pub struct IndexedHandler<T> {
    data: Vec<T>,
}

impl<T: Indexed> View for IndexedHandler<T> {
    type V = Seq<T>;

    closed spec fn view(&self) -> Seq<T> {
        self.data@
    }
}

impl<T: Indexed> IndexedHandler<T> {
    /// A handler that has handed out nothing.
    pub fn empty() -> (r: IndexedHandler<T>)
        ensures
            r@.len() == 0,
    {
        IndexedHandler { data: Vec::new() }
    }

    /// The next handle: its index is the number handed out before.
    pub fn new(&mut self) -> (r: T)
        ensures
            r.spec_index() == old(self)@.len(),
            final(self)@ == old(self)@.push(r),
    {
        let value = T::build_with_index(self.data.len());
        self.data.push(value);
        value
    }

    /// How many handles were handed out.
    pub fn len(&self) -> (r: usize)
        ensures
            r == self@.len(),
    {
        self.data.len()
    }
}

/// Why a configuration cannot be loaded, or a labelled stack not rewritten.
#[derive(Clone, Copy, PartialEq, Eq, Structural, Debug)]
pub enum ConfigError {
    /// A label is declared twice.
    DuplicateSymbolLabel,
    /// A lens names a domain that is not a declared state.
    UnknownCategory,
    /// A rule or a stack names a label that is not a declared action.
    UnknownSymbol,
    /// A rule has an empty side.
    EmptySequence,
    /// A rule holds an action of another state than its lens expects.
    CategoryMismatch,
    /// There is no lens with the index asked for.
    UnknownLens,
}

/// The labels that `states` declare, in order: each state's, then its actions'.
pub open spec fn state_labels(states: Seq<StateConfig>) -> Seq<Seq<char>>
    decreases states.len(),
{
    if states.len() == 0 {
        Seq::empty()
    } else {
        state_labels(states.drop_last()) + seq![states.last().label@] + states.last().actions@.map_values(
            |a: String| a@,
        )
    }
}

/// The labels that `interfaces` declare, in order.
pub open spec fn declared_labels(interfaces: Seq<InterfaceConfig>) -> Seq<Seq<char>>
    decreases interfaces.len(),
{
    if interfaces.len() == 0 {
        Seq::empty()
    } else {
        declared_labels(interfaces.drop_last()) + state_labels(interfaces.last().states@)
    }
}

/// What the entries name, in order.
pub open spec fn values_of(entries: Seq<(String, Labeled)>) -> Seq<Labeled> {
    entries.map_values(|e: (String, Labeled)| e.1)
}

/// How many actions `states` declare.
pub open spec fn action_count(states: Seq<StateConfig>) -> nat
    decreases states.len(),
{
    if states.len() == 0 {
        0
    } else {
        action_count(states.drop_last()) + states.last().actions@.len()
    }
}

/// How many states `interfaces` declare.
pub open spec fn state_count_all(interfaces: Seq<InterfaceConfig>) -> nat
    decreases interfaces.len(),
{
    if interfaces.len() == 0 {
        0
    } else {
        state_count_all(interfaces.drop_last()) + interfaces.last().states@.len()
    }
}

/// How many actions `interfaces` declare.
pub open spec fn action_count_all(interfaces: Seq<InterfaceConfig>) -> nat
    decreases interfaces.len(),
{
    if interfaces.len() == 0 {
        0
    } else {
        action_count_all(interfaces.drop_last()) + action_count(interfaces.last().states@)
    }
}

/// `n` action handles numbered from `a`.
pub open spec fn action_run(n: nat, a: nat) -> Seq<Labeled> {
    Seq::new(n, |t: int| Labeled::Action(ActionHandle { index: (a + t) as usize }))
}

/// What the labels of `states` name, states numbered from `s0` and actions from `a0`.
pub open spec fn state_values(states: Seq<StateConfig>, s0: nat, a0: nat) -> Seq<Labeled>
    decreases states.len(),
{
    if states.len() == 0 {
        Seq::empty()
    } else {
        state_values(states.drop_last(), s0, a0) + seq![
            Labeled::State(StateHandle { index: (s0 + states.len() - 1) as usize }),
        ] + action_run(states.last().actions@.len(), a0 + action_count(states.drop_last()))
    }
}

/// The state of each action of `states`, states numbered from `s0`.
pub open spec fn state_runs(states: Seq<StateConfig>, s0: nat) -> Seq<State>
    decreases states.len(),
{
    if states.len() == 0 {
        Seq::empty()
    } else {
        state_runs(states.drop_last(), s0) + Seq::new(
            states.last().actions@.len(),
            |t: int| State { index: (s0 + states.len() - 1) as usize },
        )
    }
}

/// What each declared label names: states and actions get handles numbered
/// from zero in order of declaration.
pub open spec fn declared_values(interfaces: Seq<InterfaceConfig>) -> Seq<Labeled>
    decreases interfaces.len(),
{
    if interfaces.len() == 0 {
        Seq::empty()
    } else {
        declared_values(interfaces.drop_last()) + state_values(
            interfaces.last().states@,
            state_count_all(interfaces.drop_last()),
            action_count_all(interfaces.drop_last()),
        )
    }
}

/// The state of each declared action, in order of declaration.
pub open spec fn declared_action_states(interfaces: Seq<InterfaceConfig>) -> Seq<State>
    decreases interfaces.len(),
{
    if interfaces.len() == 0 {
        Seq::empty()
    } else {
        declared_action_states(interfaces.drop_last()) + state_runs(
            interfaces.last().states@,
            state_count_all(interfaces.drop_last()),
        )
    }
}

/// The labels of `entries`, in order.
pub open spec fn labels_of(entries: Seq<(String, Labeled)>) -> Seq<Seq<char>> {
    entries.map_values(|e: (String, Labeled)| e.0@)
}

proof fn lemma_state_labels_prefix(states: Seq<StateConfig>, a: int)
    requires
        0 <= a <= states.len(),
    ensures
        state_labels(states.subrange(0, a)).len() <= state_labels(states).len(),
        state_labels(states.subrange(0, a)) == state_labels(states).subrange(
            0,
            state_labels(states.subrange(0, a)).len() as int,
        ),
    decreases states.len() - a,
{
    if a == states.len() {
        assert(states.subrange(0, a) =~= states);
    } else {
        lemma_state_labels_prefix(states, a + 1);
        let s = states.subrange(0, a + 1);
        assert(s.drop_last() =~= states.subrange(0, a));
        let p = state_labels(states.subrange(0, a));
        let q = state_labels(s);
        assert(q.subrange(0, p.len() as int) =~= p);
        assert(state_labels(states).subrange(0, p.len() as int) =~= q.subrange(0, p.len() as int));
    }
}

proof fn lemma_declared_labels_prefix(interfaces: Seq<InterfaceConfig>, a: int)
    requires
        0 <= a <= interfaces.len(),
    ensures
        declared_labels(interfaces.subrange(0, a)).len() <= declared_labels(interfaces).len(),
        declared_labels(interfaces.subrange(0, a)) == declared_labels(interfaces).subrange(
            0,
            declared_labels(interfaces.subrange(0, a)).len() as int,
        ),
    decreases interfaces.len() - a,
{
    if a == interfaces.len() {
        assert(interfaces.subrange(0, a) =~= interfaces);
    } else {
        lemma_declared_labels_prefix(interfaces, a + 1);
        let s = interfaces.subrange(0, a + 1);
        assert(s.drop_last() =~= interfaces.subrange(0, a));
        let p = declared_labels(interfaces.subrange(0, a));
        let q = declared_labels(s);
        assert(q.subrange(0, p.len() as int) =~= p);
        assert(declared_labels(interfaces).subrange(0, p.len() as int) =~= q.subrange(
            0,
            p.len() as int,
        ));
    }
}

/// The labels declared before a state's label (`in_actions` false) or
/// before its action `k` (`in_actions` true), followed by that label, begin
/// the labels of the whole configuration.
proof fn lemma_declared_prefix(
    interfaces: Seq<InterfaceConfig>,
    i: int,
    j: int,
    k: int,
    in_actions: bool,
)
    requires
        0 <= i < interfaces.len(),
        0 <= j < interfaces[i].states@.len(),
        in_actions ==> 0 <= k < interfaces[i].states@[j].actions@.len(),
    ensures
        ({
            let states = interfaces[i].states@;
            let st = states[j];
            let before = declared_labels(interfaces.subrange(0, i)) + state_labels(
                states.subrange(0, j),
            );
            let upto = if in_actions {
                before + seq![st.label@] + st.actions@.subrange(0, k + 1).map_values(|a: String| a@)
            } else {
                before + seq![st.label@]
            };
            upto.len() <= declared_labels(interfaces).len() && upto == declared_labels(
                interfaces,
            ).subrange(0, upto.len() as int)
        }),
{
    let states = interfaces[i].states@;
    let st = states[j];
    let di = declared_labels(interfaces.subrange(0, i));
    let si = state_labels(states.subrange(0, j));
    let row = seq![st.label@] + st.actions@.map_values(|a: String| a@);
    lemma_state_labels_prefix(states, j + 1);
    let sj = states.subrange(0, j + 1);
    assert(sj.drop_last() =~= states.subrange(0, j));
    assert(sj.last() == st);
    assert(state_labels(sj) == si + row);
    lemma_declared_labels_prefix(interfaces, i + 1);
    let ii = interfaces.subrange(0, i + 1);
    assert(ii.drop_last() =~= interfaces.subrange(0, i));
    assert(ii.last() == interfaces[i]);
    let whole_i = declared_labels(ii);
    assert(whole_i == di + state_labels(states));
    let whole = declared_labels(interfaces);
    let upto = if in_actions {
        di + si + seq![st.label@] + st.actions@.subrange(0, k + 1).map_values(|a: String| a@)
    } else {
        di + si + seq![st.label@]
    };
    let sl = state_labels(states);
    assert(sl.subrange(0, state_labels(sj).len() as int) == si + row);
    assert forall|t: int| 0 <= t < upto.len() implies upto[t] == whole[t] by {
        assert(whole[t] == whole_i[t]);
        if t >= di.len() {
            assert(whole_i[t] == sl[t - di.len()]);
            assert(sl[t - di.len()] == (si + row)[t - di.len()]);
            if t >= di.len() + si.len() + 1 {
                assert(row[t - di.len() - si.len()] == st.actions@[t - di.len() - si.len() - 1]@);
            }
        }
    }
    assert(upto =~= whole.subrange(0, upto.len() as int));
}

/// A label declared again after a run of labels that already holds it makes
/// the labels repeat.
proof fn lemma_repeat_in_prefix(whole: Seq<Seq<char>>, before: Seq<Seq<char>>, label: Seq<char>)
    requires
        before.contains(label),
        before.push(label).len() <= whole.len(),
        before.push(label) == whole.subrange(0, before.len() as int + 1),
    ensures
        !whole.no_duplicates(),
{
    let a = choose|a: int| 0 <= a < before.len() && before[a] == label;
    assert(whole[a] == before.push(label)[a]);
    assert(whole[before.len() as int] == before.push(label)[before.len() as int]);
}

proof fn lemma_has_label_in_labels(entries: Seq<(String, Labeled)>, label: Seq<char>)
    requires
        has_label(entries, label),
    ensures
        labels_of(entries).contains(label),
{
    let i = choose|i: int| 0 <= i < entries.len() && (#[trigger] entries[i]).0@ == label;
    assert(labels_of(entries)[i] == label);
}

proof fn lemma_unique_labels(entries: Seq<(String, Labeled)>)
    requires
        labels_unique(entries),
    ensures
        labels_of(entries).no_duplicates(),
{
    let l = labels_of(entries);
    assert forall|a: int, b: int| 0 <= a < l.len() && 0 <= b < l.len() && a != b implies l[a] != l[b] by {
        assert(l[a] == entries[a].0@);
        assert(l[b] == entries[b].0@);
    }
}

/// A configuration loaded: handles for its states and actions, the label of
/// each, the state of each action, and one lens for each declared lens.
#[derive(Debug)]
pub struct LabelLayer {
    pub states: IndexedHandler<StateHandle>,
    pub actions: IndexedHandler<ActionHandle>,
    pub action_states: Vec<State>,
    pub label_map: LabelMap,
    pub lenses: Vec<Lens>,
}

impl LabelLayer {
    pub open spec fn wf(&self) -> bool {
        &&& self.label_map.wf()
        &&& forall|k: int| 0 <= k < self.lenses@.len() ==> (#[trigger] self.lenses@[k]).wf()
    }

    /// The state that `label` names, if it names one.
    pub open spec fn state_named(&self, label: Seq<char>) -> Option<State> {
        if exists|h: StateHandle|
            #![trigger maps_to(self.label_map@, label, Labeled::State(h))]
            maps_to(self.label_map@, label, Labeled::State(h)) {
            let h = choose|h: StateHandle|
                #![trigger maps_to(self.label_map@, label, Labeled::State(h))]
                maps_to(self.label_map@, label, Labeled::State(h));
            Some(State { index: h.index })
        } else {
            None
        }
    }

    /// The state that a lens domain names: a simple domain's state label must name a state.
    pub open spec fn domain_state(&self, domain: crate::config::Domain) -> Option<State> {
        match domain {
            crate::config::Domain::Once { label } => self.state_named(label@),
            crate::config::Domain::Exactly { label, .. } => self.state_named(label@),
            crate::config::Domain::Any { label } => self.state_named(label@),
            crate::config::Domain::Composition { .. } => None,
        }
    }

    /// Every label of every rule names an action whose state is known.
    pub open spec fn rule_labels_known(&self, rules: Seq<RuleConfig>) -> bool {
        forall|k: int|
            0 <= k < rules.len() ==> (forall|i: int|
                0 <= i < (#[trigger] rules[k]).from@.len() ==> self.names_action(rules[k].from@[i]@))
                && (forall|i: int| 0 <= i < rules[k].to@.len() ==> self.names_action(rules[k].to@[i]@))
    }

    /// The rules as the sequences of actions their labels name.
    pub open spec fn translated_rules(&self, rules: Seq<RuleConfig>) -> Seq<RuleView> {
        rules.map_values(|rc: RuleConfig| (self.translation(rc.from@), self.translation(rc.to@)))
    }

    /// What building the lens `config` gives: `UnknownCategory` when its
    /// source or target names no state; else `UnknownSymbol` when a rule
    /// label names no action; else `EmptySequence` when a rule has an empty
    /// side; else `CategoryMismatch` when a rule holds an action of another
    /// state; else the lens's source, target and rules.
    pub open spec fn lens_outcome(&self, config: LensConfig) -> Result<(State, State, Seq<RuleView>), ConfigError> {
        match (self.domain_state(config.source), self.domain_state(config.target)) {
            (Some(source), Some(target)) => if !self.rule_labels_known(config.rules@) {
                Err(ConfigError::UnknownSymbol)
            } else {
                let rules = self.translated_rules(config.rules@);
                if has_empty(rules) {
                    Err(ConfigError::EmptySequence)
                } else if !typed(source, target, rules) {
                    Err(ConfigError::CategoryMismatch)
                } else {
                    Ok((source, target, rules))
                }
            },
            _ => Err(ConfigError::UnknownCategory),
        }
    }

    /// The state that a lens domain names.
    fn category(&self, domain: &crate::config::Domain) -> (r: Result<State, ConfigError>)
        requires
            self.label_map.wf(),
        ensures
            match self.domain_state(*domain) {
                Some(state) => r == Ok::<State, ConfigError>(state),
                None => r == Err::<State, ConfigError>(ConfigError::UnknownCategory),
            },
    {
        match domain.state_label() {
            Some(label) => match self.label_map.get(label) {
                Some(Labeled::State(state)) => {
                    proof {
                        let l = label@;
                        self.lemma_one_meaning(l, Labeled::State(state));
                        let c = choose|c: StateHandle|
                            #![trigger maps_to(self.label_map@, l, Labeled::State(c))]
                            maps_to(self.label_map@, l, Labeled::State(c));
                        assert(Labeled::State(c) == Labeled::State(state));
                    }
                    Ok(State { index: state.index })
                },
                found => {
                    proof {
                        let l = label@;
                        if exists|h: StateHandle|
                            #![trigger maps_to(self.label_map@, l, Labeled::State(h))]
                            maps_to(self.label_map@, l, Labeled::State(h)) {
                            let h = choose|h: StateHandle|
                                #![trigger maps_to(self.label_map@, l, Labeled::State(h))]
                                maps_to(self.label_map@, l, Labeled::State(h));
                            self.lemma_one_meaning(l, found.unwrap());
                        }
                    }
                    Err(ConfigError::UnknownCategory)
                },
            },
            None => Err(ConfigError::UnknownCategory),
        }
    }

    /// Whether `label` names an action whose state is known.
    pub open spec fn names_action(&self, label: Seq<char>) -> bool {
        exists|h: ActionHandle|
            #![trigger maps_to(self.label_map@, label, Labeled::Action(h))]
            maps_to(self.label_map@, label, Labeled::Action(h)) && h.index < self.action_states@.len()
    }

    /// The actions that `labels` name, each with its state; `UnknownSymbol`
    /// exactly when a label names no action.
    pub fn translate(&self, labels: &Vec<String>) -> (r: Result<Vec<Action>, ConfigError>)
        requires
            self.label_map.wf(),
        ensures
            r.is_ok() <==> forall|k: int| 0 <= k < labels@.len() ==> self.names_action(#[trigger] labels@[k]@),
            match r {
                Ok(actions) => self.translates(labels@, actions@) && actions@ == self.translation(labels@),
                Err(e) => e == ConfigError::UnknownSymbol,
            },
    {
        let mut out: Vec<Action> = Vec::new();
        let mut k: usize = 0;
        while k < labels.len()
            invariant
                self.label_map.wf(),
                0 <= k <= labels@.len(),
                out@.len() == k,
                forall|m: int|
                    0 <= m < k ==> maps_to(
                        self.label_map@,
                        labels@[m]@,
                        Labeled::Action(ActionHandle { index: (#[trigger] out@[m]).index }),
                    ) && out@[m].index < self.action_states@.len() && out@[m].base_state
                        == self.action_states@[out@[m].index as int],
            decreases labels@.len() - k,
        {
            proof {
                let l = labels@[k as int]@;
                assert(self.names_action(l) ==> has_label(self.label_map@, l));
            }
            match self.label_map.get(&labels[k]) {
                Some(Labeled::Action(a)) => {
                    if a.index < self.action_states.len() {
                        out.push(Action { index: a.index, base_state: self.action_states[a.index] });
                    } else {
                        proof {
                            self.lemma_one_meaning(labels@[k as int]@, Labeled::Action(a));
                            assert(!self.names_action(labels@[k as int]@));
                        }
                        return Err(ConfigError::UnknownSymbol);
                    }
                },
                found => {
                    proof {
                        let l = labels@[k as int]@;
                        if self.names_action(l) {
                            let h = choose|h: ActionHandle|
                                #![trigger maps_to(self.label_map@, l, Labeled::Action(h))]
                                maps_to(self.label_map@, l, Labeled::Action(h)) && h.index
                                    < self.action_states@.len();
                            self.lemma_one_meaning(l, found.unwrap());
                            assert(maps_to(self.label_map@, l, Labeled::Action(h)));
                        }
                    }
                    return Err(ConfigError::UnknownSymbol);
                },
            }
            k = k + 1;
        }
        proof {
            assert forall|k: int| 0 <= k < labels@.len() implies self.names_action(#[trigger] labels@[k]@) by {
                let h = ActionHandle { index: out@[k].index };
                assert(maps_to(self.label_map@, labels@[k]@, Labeled::Action(h)));
            }
            assert forall|k: int| 0 <= k < labels@.len() implies #[trigger] out@[k] == self.translation(labels@)[k] by {
                let l = labels@[k]@;
                let h = ActionHandle { index: out@[k].index };
                self.lemma_one_meaning(l, Labeled::Action(h));
                let c = choose|c: ActionHandle|
                    #![trigger maps_to(self.label_map@, l, Labeled::Action(c))]
                    maps_to(self.label_map@, l, Labeled::Action(c));
                assert(Labeled::Action(c) == Labeled::Action(h));
            }
            assert(out@ =~= self.translation(labels@));
        }
        Ok(out)
    }

    /// In a map with each label once, a label names one thing.
    proof fn lemma_one_meaning(&self, label: Seq<char>, value: Labeled)
        requires
            self.label_map.wf(),
            maps_to(self.label_map@, label, value),
        ensures
            forall|other: Labeled| #[trigger] maps_to(self.label_map@, label, other) ==> other == value,
    {
        let m = self.label_map@;
        assert forall|other: Labeled| #[trigger] maps_to(m, label, other) implies other == value by {
            let i = choose|i: int| 0 <= i < m.len() && (#[trigger] m[i]).0@ == label && m[i].1 == value;
            let j = choose|j: int| 0 <= j < m.len() && (#[trigger] m[j]).0@ == label && m[j].1 == other;
            if i != j {
                assert(m[i].0@ != m[j].0@);
            }
        }
    }

    /// Whether some label names the handle of `action`.
    pub open spec fn labelled(&self, action: Action) -> bool {
        exists|l: Seq<char>|
            #![trigger maps_to(self.label_map@, l, Labeled::Action(ActionHandle { index: action.index }))]
            maps_to(self.label_map@, l, Labeled::Action(ActionHandle { index: action.index }))
    }

    /// `labels` name the handles of `actions`, one by one.
    pub open spec fn labels_name(&self, labels: Seq<String>, actions: Seq<Action>) -> bool {
        labels.len() == actions.len() && forall|k: int|
            0 <= k < actions.len() ==> maps_to(
                self.label_map@,
                (#[trigger] labels[k])@,
                Labeled::Action(ActionHandle { index: actions[k].index }),
            )
    }

    /// The action that `label` names, with its state.
    pub open spec fn action_named(&self, label: Seq<char>) -> Action {
        let h = choose|h: ActionHandle|
            #![trigger maps_to(self.label_map@, label, Labeled::Action(h))]
            maps_to(self.label_map@, label, Labeled::Action(h));
        Action { index: h.index, base_state: self.action_states@[h.index as int] }
    }

    /// The actions that `labels` name, one by one.
    pub open spec fn translation(&self, labels: Seq<String>) -> Seq<Action> {
        labels.map_values(|l: String| self.action_named(l@))
    }

    /// `actions` are what `labels` name, one by one, each with its state.
    pub open spec fn translates(&self, labels: Seq<String>, actions: Seq<Action>) -> bool {
        actions.len() == labels.len() && forall|k: int|
            0 <= k < labels.len() ==> maps_to(
                self.label_map@,
                labels[k]@,
                Labeled::Action(ActionHandle { index: (#[trigger] actions[k]).index }),
            ) && actions[k].index < self.action_states@.len() && actions[k].base_state
                == self.action_states@[actions[k].index as int]
    }

    /// The labels of `actions`; `UnknownSymbol` exactly when an action has none.
    pub fn untranslate(&self, actions: &Vec<Action>) -> (r: Result<Vec<String>, ConfigError>)
        ensures
            r.is_err() <==> exists|k: int| 0 <= k < actions@.len() && !self.labelled(#[trigger] actions@[k]),
            match r {
                Ok(labels) => self.labels_name(labels@, actions@),
                Err(e) => e == ConfigError::UnknownSymbol,
            },
    {
        let mut out: Vec<String> = Vec::new();
        let mut k: usize = 0;
        while k < actions.len()
            invariant
                0 <= k <= actions@.len(),
                out@.len() == k,
                forall|m: int|
                    0 <= m < k ==> maps_to(
                        self.label_map@,
                        (#[trigger] out@[m])@,
                        Labeled::Action(ActionHandle { index: actions@[m].index }),
                    ),
            decreases actions@.len() - k,
        {
            match self.label_map.reverse_lookup(Labeled::Action(ActionHandle { index: actions[k].index })) {
                Some(label) => {
                    out.push(label);
                },
                None => {
                    proof {
                        let a = actions@[k as int];
                        if self.labelled(a) {
                            let l = choose|l: Seq<char>|
                                #![trigger maps_to(self.label_map@, l, Labeled::Action(ActionHandle { index: a.index }))]
                                maps_to(self.label_map@, l, Labeled::Action(ActionHandle { index: a.index }));
                            let i = choose|i: int|
                                0 <= i < self.label_map@.len() && (#[trigger] self.label_map@[i]).0@ == l
                                    && self.label_map@[i].1 == Labeled::Action(ActionHandle { index: a.index });
                        }
                    }
                    return Err(ConfigError::UnknownSymbol);
                },
            }
            k = k + 1;
        }
        proof {
            assert forall|k: int| 0 <= k < actions@.len() implies self.labelled(#[trigger] actions@[k]) by {
                assert(maps_to(self.label_map@, out@[k]@, Labeled::Action(ActionHandle { index: actions@[k].index })));
            }
        }
        Ok(out)
    }

    /// Builds the lens that `config` declares, as `lens_outcome` says.
    pub fn build_lens(&self, config: &LensConfig) -> (r: Result<Lens, ConfigError>)
        requires
            self.label_map.wf(),
        ensures
            match self.lens_outcome(*config) {
                Ok((source, target, rules)) => match r {
                    Ok(lens) => lens.wf() && lens@.source == source && lens@.target == target
                        && lens@.rules == rules,
                    Err(_) => false,
                },
                Err(e) => r == Err::<Lens, ConfigError>(e),
            },
    {
        let source = match self.category(&config.source) {
            Ok(s) => s,
            Err(e) => {
                return Err(e);
            },
        };
        let target = match self.category(&config.target) {
            Ok(s) => s,
            Err(e) => {
                return Err(e);
            },
        };
        let ghost rcs = config.rules@;
        let mut rules: Vec<Rule<Vec<Action>, Vec<Action>>> = Vec::new();
        let mut k: usize = 0;
        while k < config.rules.len()
            invariant
                self.label_map.wf(),
                0 <= k <= rcs.len(),
                rcs == config.rules@,
                self.domain_state(config.source) == Some(source),
                self.domain_state(config.target) == Some(target),
                rules_view(rules@) == self.translated_rules(rcs.subrange(0, k as int)),
                self.rule_labels_known(rcs.subrange(0, k as int)),
            decreases rcs.len() - k,
        {
            let rule: &RuleConfig = &config.rules[k];
            let from = match self.translate(&rule.from) {
                Ok(v) => v,
                Err(e) => {
                    proof {
                        assert(!self.rule_labels_known(rcs)) by {
                            let i = choose|i: int| 0 <= i < rule.from@.len() && !self.names_action(#[trigger] rule.from@[i]@);
                            assert(rcs[k as int] == *rule);
                        }
                        assert(self.domain_state(config.source) == Some(source));
                        assert(self.domain_state(config.target) == Some(target));
                        assert(e == ConfigError::UnknownSymbol);
                        assert(self.lens_outcome(*config) == Err::<(State, State, Seq<RuleView>), ConfigError>(ConfigError::UnknownSymbol));
                    }
                    return Err(e);
                },
            };
            let to = match self.translate(&rule.to) {
                Ok(v) => v,
                Err(e) => {
                    proof {
                        assert(!self.rule_labels_known(rcs)) by {
                            let i = choose|i: int| 0 <= i < rule.to@.len() && !self.names_action(#[trigger] rule.to@[i]@);
                            assert(rcs[k as int] == *rule);
                        }
                        assert(self.domain_state(config.source) == Some(source));
                        assert(self.domain_state(config.target) == Some(target));
                        assert(e == ConfigError::UnknownSymbol);
                        assert(self.lens_outcome(*config) == Err::<(State, State, Seq<RuleView>), ConfigError>(ConfigError::UnknownSymbol));
                    }
                    return Err(e);
                },
            };
            let ghost before = rules_view(rules@);
            let ghost old_rules = rules@;
            assert(before.len() == k);
            assert(old_rules.len() == k);
            let ghost fv = from@;
            let ghost tv = to@;
            assert(fv == self.translation(rule.from@));
            assert(tv == self.translation(rule.to@));
            rules.push(Rule { from, to });
            proof {
                let s1 = rcs.subrange(0, k as int + 1);
                assert(s1 =~= rcs.subrange(0, k as int).push(*rule));
                assert(rcs[k as int] == *rule);
                assert(rules@.len() == k + 1);
                assert(forall|j: int| 0 <= j < k ==> rules@[j] == old_rules[j]);
                assert(rules@[k as int].from@ == fv);
                assert forall|j: int| 0 <= j < s1.len() implies #[trigger] rules_view(rules@)[j] == self.translated_rules(s1)[j] by {
                    if j < k {
                        assert(rules@[j] == old_rules[j]);
                        assert(rules_view(rules@)[j] == before[j]);
                        assert(s1[j] == rcs.subrange(0, k as int)[j]);
                    } else {
                        assert(rules@[j].from@ == fv);
                        assert(rules@[j].to@ == tv);
                        assert(s1[j] == *rule);
                    }
                }
                assert(rules_view(rules@) =~= self.translated_rules(s1));
                assert forall|j: int| 0 <= j < s1.len() implies (forall|i: int|
                    0 <= i < (#[trigger] s1[j]).from@.len() ==> self.names_action(s1[j].from@[i]@))
                    && (forall|i: int| 0 <= i < s1[j].to@.len() ==> self.names_action(s1[j].to@[i]@)) by {
                    if j < k {
                        assert(s1[j] == rcs.subrange(0, k as int)[j]);
                    }
                }
            }
            k = k + 1;
        }
        proof {
            assert(rcs.subrange(0, rcs.len() as int) =~= rcs);
        }
        match Lens::new(source, target, rules) {
            Ok(lens) => Ok(lens),
            Err(LensError::EmptySequence) => Err(ConfigError::EmptySequence),
            Err(LensError::CategoryMismatch) => Err(ConfigError::CategoryMismatch),
        }
    }

    /// Rewrites the labelled `stack` by lens `lens`, as `Lens::reduce` does
    /// with at most `limit` rewrites, and labels the outcome. Fails with
    /// `UnknownLens` when there is no such lens, and with `UnknownSymbol` when
    /// a label of the stack names no action or an action of the result has no label.
    pub fn transduce(&self, lens: usize, stack: &Vec<String>, limit: usize) -> (r: Result<
        Result<Vec<String>, TransduceError>,
        ConfigError,
    >)
        requires
            self.wf(),
        ensures
            match r {
                Err(e) => (e == ConfigError::UnknownLens && lens >= self.lenses@.len()) || (e
                    == ConfigError::UnknownSymbol && lens < self.lenses@.len() && (!(forall|k: int|
                    0 <= k < stack@.len() ==> self.names_action(#[trigger] stack@[k]@))
                    || match lens_reduce(
                    self.lenses@[lens as int]@.rules,
                    self.translation(stack@),
                    limit as nat,
                ) {
                    Outcome::Reduced(out) => !(forall|i: int|
                        0 <= i < out.len() ==> self.labelled(#[trigger] out[i])),
                    _ => false,
                })),
                Ok(x) => lens < self.lenses@.len() && (forall|k: int|
                    0 <= k < stack@.len() ==> self.names_action(#[trigger] stack@[k]@)) && match x {
                    Ok(labels) => match lens_reduce(
                        self.lenses@[lens as int]@.rules,
                        self.translation(stack@),
                        limit as nat,
                    ) {
                        Outcome::Reduced(out) => self.labels_name(labels@, out),
                        _ => false,
                    },
                    Err(TransduceError::NoMatch(v)) => lens_reduce(
                        self.lenses@[lens as int]@.rules,
                        self.translation(stack@),
                        limit as nat,
                    ) == Outcome::NoMatch && v@ == self.translation(stack@),
                    Err(TransduceError::CycleDetected) => lens_reduce(
                        self.lenses@[lens as int]@.rules,
                        self.translation(stack@),
                        limit as nat,
                    ) == Outcome::OutOfSteps,
                },
            },
    {
        if lens >= self.lenses.len() {
            return Err(ConfigError::UnknownLens);
        }
        let actions = match self.translate(stack) {
            Ok(a) => a,
            Err(e) => {
                return Err(e);
            },
        };
        let chosen = &self.lenses[lens];
        let ghost rules = self.lenses@[lens as int]@.rules;
        assert(chosen@.rules == rules);
        assert(self.translates(stack@, actions@));
        assert(actions@ == self.translation(stack@));
        assert(forall|k: int| 0 <= k < stack@.len() ==> self.names_action(#[trigger] stack@[k]@));
        match chosen.reduce(&actions, limit) {
            Ok(out) => match self.untranslate(&out) {
                Ok(labels) => {
                    assert(lens_reduce(rules, actions@, limit as nat) == Outcome::Reduced(out@));
                    assert(self.labels_name(labels@, out@));
                    assert(lens_reduce(self.lenses@[lens as int]@.rules, actions@, limit as nat)
                        == Outcome::Reduced(out@));
                    return Ok(Ok(labels));
                },
                Err(e) => {
                    assert(lens_reduce(rules, actions@, limit as nat) == Outcome::Reduced(out@));
                    assert(actions@ == self.translation(stack@));
                    assert(lens_reduce(self.lenses@[lens as int]@.rules, self.translation(stack@), limit as nat)
                        == Outcome::Reduced(out@));
                    assert(exists|i: int| 0 <= i < out@.len() && !self.labelled(#[trigger] out@[i]));
                    assert(e == ConfigError::UnknownSymbol);
                    let ghost k = choose|i: int| 0 <= i < out@.len() && !self.labelled(#[trigger] out@[i]);
                    let ghost o = out@;
                    assert(!self.labelled(o[k]));
                    assert(!(forall|i: int| 0 <= i < o.len() ==> self.labelled(#[trigger] o[i])));
                    let ghost red = lens_reduce(
                        self.lenses@[lens as int]@.rules,
                        self.translation(stack@),
                        limit as nat,
                    );
                    assert(red is Reduced);
                    assert(red->Reduced_0 == o);
                    assert(!(forall|i: int| 0 <= i < red->Reduced_0.len() ==> self.labelled(#[trigger] red->Reduced_0[i])));
                    assert(match lens_reduce(
                        self.lenses@[lens as int]@.rules,
                        self.translation(stack@),
                        limit as nat,
                    ) {
                        Outcome::Reduced(o) => !(forall|i: int|
                            0 <= i < o.len() ==> self.labelled(#[trigger] o[i])),
                        _ => false,
                    });
                    return Err(e);
                },
            },
            Err(e) => {
                proof {
                    match &e {
                        TransduceError::NoMatch(v) => {
                            assert(lens_reduce(rules, actions@, limit as nat) == Outcome::NoMatch);
                            assert(v@ == actions@);
                        },
                        TransduceError::CycleDetected => {
                            assert(lens_reduce(rules, actions@, limit as nat) == Outcome::OutOfSteps);
                        },
                    }
                }
                return Ok(Err(e));
            },
        }
    }

    /// Whether `lenses` were built from `configs` one by one, as `lens_outcome` says.
    pub open spec fn built_from(&self, lenses: Seq<Lens>, configs: Seq<LensConfig>) -> bool {
        lenses.len() == configs.len() && forall|k: int|
            0 <= k < configs.len() ==> (#[trigger] lenses[k]).wf() && self.lens_outcome(configs[k])
                == Ok::<(State, State, Seq<RuleView>), ConfigError>(
                (lenses[k]@.source, lenses[k]@.target, lenses[k]@.rules),
            )
    }

    /// Loads `config`: every state and action gets the next handle and its
    /// label, and each lens is built from its rules. Fails with
    /// `DuplicateSymbolLabel` exactly when a label is declared twice; else
    /// with the fault (`lens_outcome`) of the first lens that has one, and
    /// succeeds when no lens has a fault.
    pub fn from_config(config: &Config) -> (r: Result<LabelLayer, ConfigError>)
        ensures
            (r == Err::<LabelLayer, ConfigError>(ConfigError::DuplicateSymbolLabel)) <==> !declared_labels(
                config.interfaces@,
            ).no_duplicates(),
            declared_labels(config.interfaces@).no_duplicates() ==> exists|d: LabelLayer|
                #![trigger d.lens_outcome(config.lenses@[0])]
                d.label_map.wf() && labels_of(d.label_map@) == declared_labels(config.interfaces@)
                    && values_of(d.label_map@) == declared_values(config.interfaces@)
                    && d.action_states@ == declared_action_states(config.interfaces@) && match r {
                    Ok(layer) => layer.wf() && layer.label_map@ == d.label_map@
                        && layer.action_states@ == d.action_states@ && d.built_from(
                        layer.lenses@,
                        config.lenses@,
                    ),
                    Err(e) => exists|k: int|
                        0 <= k < config.lenses@.len() && (forall|j: int|
                            0 <= j < k ==> (#[trigger] d.lens_outcome(config.lenses@[j])).is_ok())
                            && d.lens_outcome(config.lenses@[k]) == Err::<
                            (State, State, Seq<RuleView>),
                            ConfigError,
                        >(e),
                },
    {
        let mut layer = LabelLayer {
            states: IndexedHandler::empty(),
            actions: IndexedHandler::empty(),
            action_states: Vec::new(),
            label_map: LabelMap::new(),
            lenses: Vec::new(),
        };
        let mut i: usize = 0;
        while i < config.interfaces.len()
            invariant
                0 <= i <= config.interfaces@.len(),
                layer.label_map.wf(),
                layer.lenses@.len() == 0,
                labels_of(layer.label_map@) == declared_labels(config.interfaces@.subrange(0, i as int)),
                values_of(layer.label_map@) == declared_values(config.interfaces@.subrange(0, i as int)),
                layer.action_states@ == declared_action_states(config.interfaces@.subrange(0, i as int)),
                layer.states@.len() == state_count_all(config.interfaces@.subrange(0, i as int)),
                layer.actions@.len() == action_count_all(config.interfaces@.subrange(0, i as int)),
            decreases config.interfaces@.len() - i,
        {
            let states = &config.interfaces[i].states;
            let ghost before = labels_of(layer.label_map@);
            let ghost vbefore = values_of(layer.label_map@);
            let ghost abefore = layer.action_states@;
            let ghost s0 = layer.states@.len();
            let ghost a0 = layer.actions@.len();
            assert(before == declared_labels(config.interfaces@.subrange(0, i as int)));
            assert(states@.subrange(0, 0) =~= Seq::<StateConfig>::empty());
            proof {
                let s = config.interfaces@.subrange(0, i as int + 1);
                assert(s.drop_last() =~= config.interfaces@.subrange(0, i as int));
                assert(s.last() == config.interfaces@[i as int]);
            }
            let mut j: usize = 0;
            while j < states.len()
                invariant
                    0 <= i < config.interfaces@.len(),
                    0 <= j <= states@.len(),
                    states@ == config.interfaces@[i as int].states@,
                    before == declared_labels(config.interfaces@.subrange(0, i as int)),
                    layer.label_map.wf(),
                    layer.lenses@.len() == 0,
                    labels_of(layer.label_map@) == before + state_labels(states@.subrange(0, j as int)),
                    values_of(layer.label_map@) == vbefore + state_values(states@.subrange(0, j as int), s0, a0),
                    layer.action_states@ == abefore + state_runs(states@.subrange(0, j as int), s0),
                    layer.states@.len() == s0 + j,
                    layer.actions@.len() == a0 + action_count(states@.subrange(0, j as int)),
                    vbefore == declared_values(config.interfaces@.subrange(0, i as int)),
                    abefore == declared_action_states(config.interfaces@.subrange(0, i as int)),
                    s0 == state_count_all(config.interfaces@.subrange(0, i as int)),
                    a0 == action_count_all(config.interfaces@.subrange(0, i as int)),
                decreases states@.len() - j,
            {
                let state_config = &states[j];
                proof {
                    let s = states@.subrange(0, j as int + 1);
                    assert(s.drop_last() =~= states@.subrange(0, j as int));
                    assert(s.last() == states@[j as int]);
                }
                if layer.label_map.get(&state_config.label).is_some() {
                    proof {
                        lemma_has_label_in_labels(layer.label_map@, state_config.label@);
                        assert(labels_of(layer.label_map@).push(state_config.label@) =~= before
                            + state_labels(states@.subrange(0, j as int)) + seq![state_config.label@]);
                        lemma_declared_prefix(config.interfaces@, i as int, j as int, 0, false);
                        lemma_repeat_in_prefix(
                            declared_labels(config.interfaces@),
                            labels_of(layer.label_map@),
                            state_config.label@,
                        );
                    }
                    return Err(ConfigError::DuplicateSymbolLabel);
                }
                let state = layer.states.new();
                let ghost m1 = layer.label_map@;
                layer.label_map.insert(state_config.label.clone(), Labeled::State(state));
                proof {
                    assert(state == StateHandle { index: (s0 + j) as usize });
                    assert(values_of(layer.label_map@) =~= values_of(m1).push(Labeled::State(state)));
                    assert(values_of(layer.label_map@) =~= vbefore + state_values(states@.subrange(0, j as int), s0, a0)
                        + seq![Labeled::State(StateHandle { index: (s0 + j) as usize })]
                        + action_run(0, a0 + action_count(states@.subrange(0, j as int))));
                    assert(layer.action_states@ =~= abefore + state_runs(states@.subrange(0, j as int), s0)
                        + Seq::new(0, |t: int| State { index: (s0 + j) as usize }));
                    assert(labels_of(layer.label_map@) =~= before + state_labels(states@.subrange(0, j as int))
                        + seq![state_config.label@] + state_config.actions@.subrange(0, 0).map_values(
                        |a: String| a@,
                    ));
                }
                let mut k: usize = 0;
                while k < state_config.actions.len()
                    invariant
                        0 <= i < config.interfaces@.len(),
                        0 <= j < states@.len(),
                        states@ == config.interfaces@[i as int].states@,
                        *state_config == states@[j as int],
                        before == declared_labels(config.interfaces@.subrange(0, i as int)),
                        0 <= k <= state_config.actions@.len(),
                        layer.label_map.wf(),
                        layer.lenses@.len() == 0,
                        labels_of(layer.label_map@) == before + state_labels(states@.subrange(0, j as int))
                            + seq![state_config.label@] + state_config.actions@.subrange(0, k as int).map_values(
                            |a: String| a@,
                        ),
                        values_of(layer.label_map@) == vbefore + state_values(states@.subrange(0, j as int), s0, a0)
                            + seq![Labeled::State(StateHandle { index: (s0 + j) as usize })]
                            + action_run(k as nat, a0 + action_count(states@.subrange(0, j as int))),
                        layer.action_states@ == abefore + state_runs(states@.subrange(0, j as int), s0)
                            + Seq::new(k as nat, |t: int| State { index: (s0 + j) as usize }),
                        layer.states@.len() == s0 + j + 1,
                        layer.actions@.len() == a0 + action_count(states@.subrange(0, j as int)) + k,
                        state == (StateHandle { index: (s0 + j) as usize }),
                        vbefore == declared_values(config.interfaces@.subrange(0, i as int)),
                        abefore == declared_action_states(config.interfaces@.subrange(0, i as int)),
                        s0 == state_count_all(config.interfaces@.subrange(0, i as int)),
                        a0 == action_count_all(config.interfaces@.subrange(0, i as int)),
                    decreases state_config.actions@.len() - k,
                {
                    let label = &state_config.actions[k];
                    if layer.label_map.get(label).is_some() {
                        proof {
                            lemma_has_label_in_labels(layer.label_map@, label@);
                            assert(state_config.actions@.subrange(0, k as int + 1).map_values(|a: String| a@)
                                =~= state_config.actions@.subrange(0, k as int).map_values(|a: String| a@).push(label@));
                            assert(labels_of(layer.label_map@).push(label@) =~= before
                                + state_labels(states@.subrange(0, j as int)) + seq![state_config.label@]
                                + state_config.actions@.subrange(0, k as int + 1).map_values(|a: String| a@));
                            lemma_declared_prefix(config.interfaces@, i as int, j as int, k as int, true);
                            lemma_repeat_in_prefix(
                                declared_labels(config.interfaces@),
                                labels_of(layer.label_map@),
                                label@,
                            );
                        }
                        return Err(ConfigError::DuplicateSymbolLabel);
                    }
                    let action = layer.actions.new();
                    let ghost m0 = layer.label_map@;
                    let name = label.clone();
                    layer.label_map.insert(name, Labeled::Action(action));
                    proof {
                        assert(labels_of(layer.label_map@) =~= labels_of(m0).push(label@));
                    }
                    let ghost as0 = layer.action_states@;
                    layer.action_states.push(State { index: state.index });
                    proof {
                        let c = a0 + action_count(states@.subrange(0, j as int));
                        assert(action == ActionHandle { index: (c + k) as usize });
                        assert(values_of(layer.label_map@) =~= values_of(m0).push(Labeled::Action(action)));
                        assert(action_run(k as nat + 1, c) =~= action_run(k as nat, c).push(Labeled::Action(action)));
                        assert(values_of(layer.label_map@) =~= vbefore + state_values(states@.subrange(0, j as int), s0, a0)
                            + seq![Labeled::State(StateHandle { index: (s0 + j) as usize })]
                            + action_run(k as nat + 1, c));
                        assert(layer.action_states@ =~= abefore + state_runs(states@.subrange(0, j as int), s0)
                            + Seq::new(k as nat + 1, |t: int| State { index: (s0 + j) as usize }));
                        assert(state_config.actions@.subrange(0, k as int + 1).map_values(|a: String| a@)
                            =~= state_config.actions@.subrange(0, k as int).map_values(|a: String| a@).push(label@));
                        assert(labels_of(layer.label_map@) =~= before + state_labels(states@.subrange(0, j as int))
                            + seq![state_config.label@] + state_config.actions@.subrange(0, k as int + 1).map_values(
                            |a: String| a@,
                        ));
                    }
                    k = k + 1;
                }
                proof {
                    let sj = states@.subrange(0, j as int + 1);
                    assert(sj.drop_last() =~= states@.subrange(0, j as int));
                    assert(sj.last() == *state_config);
                    assert(state_config.actions@.subrange(0, state_config.actions@.len() as int) =~= state_config.actions@);
                    assert(labels_of(layer.label_map@) =~= before + state_labels(sj));
                    assert(action_count(sj) == action_count(states@.subrange(0, j as int)) + state_config.actions@.len());
                    assert(values_of(layer.label_map@) =~= vbefore + state_values(sj, s0, a0));
                    assert(layer.action_states@ =~= abefore + state_runs(sj, s0));
                }
                j = j + 1;
            }
            proof {
                assert(states@.subrange(0, states@.len() as int) =~= states@);
                let s = config.interfaces@.subrange(0, i as int + 1);
                assert(s.drop_last() =~= config.interfaces@.subrange(0, i as int));
                assert(s.last() == config.interfaces@[i as int]);
                assert(values_of(layer.label_map@) =~= declared_values(s));
                assert(layer.action_states@ =~= declared_action_states(s));
            }
            i = i + 1;
        }
        proof {
            assert(config.interfaces@.subrange(0, config.interfaces@.len() as int) =~= config.interfaces@);
            lemma_unique_labels(layer.label_map@);
        }
        let ghost d = layer;
        let mut lenses: Vec<Lens> = Vec::new();
        proof {
            assert(d.built_from(lenses@, config.lenses@.subrange(0, 0)));
        }
        let mut l: usize = 0;
        while l < config.lenses.len()
            invariant
                0 <= l <= config.lenses@.len(),
                layer == d,
                d.label_map.wf(),
                labels_of(d.label_map@) == declared_labels(config.interfaces@),
                values_of(d.label_map@) == declared_values(config.interfaces@),
                d.action_states@ == declared_action_states(config.interfaces@),
                d.built_from(lenses@, config.lenses@.subrange(0, l as int)),
            decreases config.lenses@.len() - l,
        {
            match layer.build_lens(&config.lenses[l]) {
                Ok(lens) => {
                    let ghost before = lenses@;
                    lenses.push(lens);
                    proof {
                        assert forall|k: int| 0 <= k < l + 1 implies (#[trigger] lenses@[k]).wf()
                            && d.lens_outcome(config.lenses@.subrange(0, l as int + 1)[k]) == Ok::<
                            (State, State, Seq<RuleView>),
                            ConfigError,
                        >((lenses@[k]@.source, lenses@[k]@.target, lenses@[k]@.rules)) by {
                            if k < l {
                                assert(lenses@[k] == before[k]);
                                assert(config.lenses@.subrange(0, l as int + 1)[k] == config.lenses@.subrange(0, l as int)[k]);
                            }
                        }
                    }
                },
                Err(e) => {
                    proof {
                        lemma_unique_labels(d.label_map@);
                        assert forall|j: int| 0 <= j < l implies (#[trigger] d.lens_outcome(config.lenses@[j])).is_ok() by {
                            assert(config.lenses@.subrange(0, l as int)[j] == config.lenses@[j]);
                            assert(lenses@[j].wf());
                        }
                        assert(d.lens_outcome(config.lenses@[l as int]) == Err::<(State, State, Seq<RuleView>), ConfigError>(e));
                        let _ = d.lens_outcome(config.lenses@[0]);
                    }
                    return Err(e);
                },
            }
            l = l + 1;
        }
        layer.lenses = lenses;
        proof {
            lemma_unique_labels(d.label_map@);
            assert(config.lenses@.subrange(0, config.lenses@.len() as int) =~= config.lenses@);
            if config.lenses@.len() > 0 {
                let _ = d.lens_outcome(config.lenses@[0]);
            }
        }
        Ok(layer)
    }
}

} // verus!
