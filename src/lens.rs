//! Lenses: rules between sequences of actions, typed by the state their
//! patterns belong to and the state their replacements belong to.
use vstd::prelude::*;

use crate::base::{copy_actions, Action, ActionIndex, State, StateIndex};
use crate::domain::{after_recognition, recognized, Recognized};
use crate::engine::{lemma_reduce_agrees, Engine, TransduceError};
use crate::rule::Rule;
use crate::vector::{
    vector_clone, vector_get, vector_items, vector_len, vector_new, vector_push_back,
    vector_truncate,
};

verus! {

/// A handle to a state of an interface.
#[derive(Clone, Copy, PartialEq, Eq, Structural, Debug, Hash, Default)]
pub struct StateHandle {
    pub index: StateIndex,
}

/// A handle to an action.
#[derive(Clone, Copy, PartialEq, Eq, Structural, Debug, Hash, Default)]
pub struct ActionHandle {
    pub index: ActionIndex,
}

/// Why a lens cannot be built or composed.
#[derive(Clone, Copy, PartialEq, Eq, Structural, Debug)]
pub enum LensError {
    /// A rule has an empty pattern or an empty replacement.
    EmptySequence,
    /// A symbol is not of the state the lens expects there, or two lenses do not meet.
    CategoryMismatch,
}

/// A rule as two sequences: pattern, then replacement.
pub type RuleView = (Seq<Action>, Seq<Action>);

/// The rules' sequences, in order.
pub open spec fn rules_view(rules: Seq<Rule<Vec<Action>, Vec<Action>>>) -> Seq<RuleView> {
    rules.map_values(|r: Rule<Vec<Action>, Vec<Action>>| (r.from@, r.to@))
}

/// Every symbol of `s` belongs to `state`.
pub open spec fn in_state(s: Seq<Action>, state: State) -> bool {
    forall|i: int| 0 <= i < s.len() ==> (#[trigger] s[i]).base_state == state
}

/// Some rule has an empty side.
pub open spec fn has_empty(rules: Seq<RuleView>) -> bool {
    exists|k: int| 0 <= k < rules.len() && ((#[trigger] rules[k]).0.len() == 0 || rules[k].1.len() == 0)
}

/// Every pattern belongs to `source` and every replacement to `target`.
pub open spec fn typed(source: State, target: State, rules: Seq<RuleView>) -> bool {
    forall|k: int|
        0 <= k < rules.len() ==> in_state((#[trigger] rules[k]).0, source) && in_state(
            rules[k].1,
            target,
        )
}

/// The index of the first of the first `n` rules whose replacement is `s`.
pub open spec fn partner(rules: Seq<RuleView>, s: Seq<Action>, n: int) -> Option<int>
    decreases n,
{
    if n <= 0 {
        None
    } else {
        match partner(rules, s, n - 1) {
            Some(k) => Some(k),
            None => if rules[n - 1].1 == s {
                Some(n - 1)
            } else {
                None
            },
        }
    }
}

/// The rules of `first` followed by `second`: for each rule of `second`, in
/// order, whose pattern is the replacement of some rule of `first`, the rule
/// from the first such rule's pattern to its replacement.
pub open spec fn composed(first: Seq<RuleView>, second: Seq<RuleView>) -> Seq<RuleView>
    decreases second.len(),
{
    if second.len() == 0 {
        Seq::empty()
    } else {
        let rest = composed(first, second.drop_last());
        match partner(first, second.last().0, first.len() as int) {
            Some(k) => rest.push((first[k].0, second.last().1)),
            None => rest,
        }
    }
}

/// `pattern` lies on top of `stack`.
pub open spec fn on_top(pattern: Seq<Action>, stack: Seq<Action>) -> bool {
    pattern.len() <= stack.len() && stack.subrange(stack.len() - pattern.len(), stack.len() as int)
        == pattern
}

/// The stacks that one rewrite by one of the rules yields, in rule order.
pub open spec fn rewrites(rules: Seq<RuleView>, stack: Seq<Action>) -> Seq<Seq<Action>>
    decreases rules.len(),
{
    if rules.len() == 0 {
        Seq::empty()
    } else {
        let rest = rewrites(rules.drop_last(), stack);
        let r = rules.last();
        if on_top(r.0, stack) {
            rest.push(stack.subrange(0, stack.len() - r.0.len()) + r.1)
        } else {
            rest
        }
    }
}

/// How a reduction ends.
pub enum Outcome {
    Reduced(Seq<Action>),
    NoMatch,
    OutOfSteps,
}

/// One rewrite, trying `rules` from `k` on in order: the first whose pattern
/// lies on top of `stack` gives how it was recognized and the stack with the
/// pattern replaced. Of two rules with one pattern, the first listed applies.
pub open spec fn lens_step_from(rules: Seq<RuleView>, stack: Seq<Action>, k: int) -> Option<
    (Recognized, Seq<Action>),
>
    decreases rules.len() - k,
{
    if k < 0 || k >= rules.len() {
        None
    } else if recognized(rules[k].0, stack) != Recognized::Error {
        Some((recognized(rules[k].0, stack), after_recognition(rules[k].0, stack) + rules[k].1))
    } else {
        lens_step_from(rules, stack, k + 1)
    }
}

/// Rewrites `stack` by `rules` for at most `fuel` rewrites: a rewrite whose
/// pattern was the whole stack ends it with the result; one that left values
/// below the pattern goes on; no applicable rule ends it without a match.
pub open spec fn lens_reduce(rules: Seq<RuleView>, stack: Seq<Action>, fuel: nat) -> Outcome
    decreases fuel,
{
    if fuel == 0 {
        Outcome::OutOfSteps
    } else {
        match lens_step_from(rules, stack, 0) {
            None => Outcome::NoMatch,
            Some((kind, next)) => if kind == Recognized::All {
                Outcome::Reduced(next)
            } else {
                lens_reduce(rules, next, (fuel - 1) as nat)
            },
        }
    }
}

/// A lens from one state to another: rules whose patterns are sequences of
/// the source state's actions and whose replacements are sequences of the
/// target state's actions, none of them empty.
#[derive(Debug)]
pub struct Lens {
    source: State,
    target: State,
    rules: Vec<Rule<Vec<Action>, Vec<Action>>>,
}

/// What a lens holds.
pub struct LensView {
    pub source: State,
    pub target: State,
    pub rules: Seq<RuleView>,
}

impl View for Lens {
    type V = LensView;

    closed spec fn view(&self) -> LensView {
        LensView { source: self.source, target: self.target, rules: rules_view(self.rules@) }
    }
}

impl Lens {
    pub open spec fn wf(&self) -> bool {
        !has_empty(self@.rules) && typed(self@.source, self@.target, self@.rules)
    }

    /// Builds a lens from `source` to `target`; fails with `EmptySequence` when
    /// a rule has an empty side, else with `CategoryMismatch` when a symbol is
    /// of the wrong state.
    pub fn new(source: State, target: State, rules: Vec<Rule<Vec<Action>, Vec<Action>>>) -> (r:
        Result<Lens, LensError>)
        ensures
            match r {
                Ok(lens) => lens.wf() && lens@.source == source && lens@.target == target
                    && lens@.rules == rules_view(rules@),
                Err(LensError::EmptySequence) => has_empty(rules_view(rules@)),
                Err(LensError::CategoryMismatch) => !has_empty(rules_view(rules@)) && !typed(
                    source,
                    target,
                    rules_view(rules@),
                ),
            },
    {
        let ghost rv = rules_view(rules@);
        let mut k: usize = 0;
        while k < rules.len()
            invariant
                0 <= k <= rules@.len(),
                rv == rules_view(rules@),
                forall|j: int| 0 <= j < k ==> !((#[trigger] rv[j]).0.len() == 0 || rv[j].1.len() == 0),
            decreases rules@.len() - k,
        {
            proof {
                assert(rv[k as int] == (rules@[k as int].from@, rules@[k as int].to@));
            }
            if rules[k].from.len() == 0 || rules[k].to.len() == 0 {
                proof {
                    assert(rv[k as int].0.len() == 0 || rv[k as int].1.len() == 0);
                }
                return Err(LensError::EmptySequence);
            }
            k = k + 1;
        }
        let mut k: usize = 0;
        while k < rules.len()
            invariant
                0 <= k <= rules@.len(),
                rv == rules_view(rules@),
                !has_empty(rv),
                forall|j: int|
                    0 <= j < k ==> in_state((#[trigger] rv[j]).0, source) && in_state(rv[j].1, target),
            decreases rules@.len() - k,
        {
            proof {
                assert(rv[k as int] == (rules@[k as int].from@, rules@[k as int].to@));
            }
            if !all_in_state(&rules[k].from, source) || !all_in_state(&rules[k].to, target) {
                return Err(LensError::CategoryMismatch);
            }
            k = k + 1;
        }
        Ok(Lens { source, target, rules })
    }

    /// The state the patterns belong to.
    pub fn source(&self) -> (r: State)
        ensures
            r == self@.source,
    {
        self.source
    }

    /// The state the replacements belong to.
    pub fn target(&self) -> (r: State)
        ensures
            r == self@.target,
    {
        self.target
    }

    /// The rules, in order.
    pub fn rules(&self) -> (r: &Vec<Rule<Vec<Action>, Vec<Action>>>)
        ensures
            rules_view(r@) == self@.rules,
    {
        &self.rules
    }

    /// Composes this lens with `other`, which must start at this lens's
    /// target: the result maps, for each rule of `other` whose pattern is the
    /// replacement of a rule of this lens, that rule's pattern to the
    /// replacement of the rule of `other`.
    pub fn compose(&self, other: &Lens) -> (r: Result<Lens, LensError>)
        requires
            self.wf(),
            other.wf(),
        ensures
            match r {
                Ok(lens) => self@.target == other@.source && lens.wf() && lens@.source
                    == self@.source && lens@.target == other@.target && lens@.rules == composed(
                    self@.rules,
                    other@.rules,
                ),
                Err(e) => e == LensError::CategoryMismatch && self@.target != other@.source,
            },
    {
        if !(self.target == other.source) {
            return Err(LensError::CategoryMismatch);
        }
        let ghost first = self@.rules;
        let ghost second = other@.rules;
        let mut rules: Vec<Rule<Vec<Action>, Vec<Action>>> = Vec::new();
        let mut j: usize = 0;
        while j < other.rules.len()
            invariant
                0 <= j <= second.len(),
                first == self@.rules,
                second == other@.rules,
                self.wf(),
                other.wf(),
                self@.target == other@.source,
                rules_view(rules@) == composed(first, second.subrange(0, j as int)),
                !has_empty(rules_view(rules@)),
                typed(self@.source, other@.target, rules_view(rules@)),
            decreases second.len() - j,
        {
            let r2 = &other.rules[j];
            let found = self.find_partner(&r2.from);
            proof {
                assert(second.subrange(0, j as int + 1).drop_last() =~= second.subrange(0, j as int));
                assert(second.subrange(0, j as int + 1).last() == second[j as int]);
                assert(second[j as int] == (r2.from@, r2.to@));
                let sj = second.subrange(0, j as int + 1);
                assert(composed(first, sj) == match partner(first, second[j as int].0, first.len() as int) {
                    Some(k) => composed(first, second.subrange(0, j as int)).push((first[k].0, second[j as int].1)),
                    None => composed(first, second.subrange(0, j as int)),
                });
            }
            if let Some(k) = found {
                let r1 = &self.rules[k];
                let ghost before = rules_view(rules@);
                rules.push(Rule { from: copy_actions(&r1.from), to: copy_actions(&r2.to) });
                proof {
                    assert(first[k as int] == (r1.from@, r1.to@));
                    assert(rules_view(rules@) =~= before.push((r1.from@, r2.to@)));
                    assert(in_state(first[k as int].0, self@.source));
                    assert(in_state(second[j as int].1, other@.target));
                    assert(first[k as int].0.len() > 0);
                    assert(second[j as int].1.len() > 0);
                    let now = rules_view(rules@);
                    assert forall|i: int| 0 <= i < now.len() implies !((#[trigger] now[i]).0.len() == 0
                        || now[i].1.len() == 0) && in_state(now[i].0, self@.source) && in_state(
                        now[i].1,
                        other@.target,
                    ) by {
                        if i < before.len() {
                            assert(now[i] == before[i]);
                        }
                    }
                }
            }
            j = j + 1;
        }
        proof {
            assert(second.subrange(0, second.len() as int) =~= second);
        }
        Ok(Lens { source: self.source, target: other.target, rules })
    }

    /// Rewrites `stack` by the rules until a rewrite consumes it whole, for at
    /// most `limit` rewrites: each round applies the first rule, in the order
    /// listed, whose pattern lies on top of the stack. Fails with `NoMatch`,
    /// holding the input unchanged, when no rule applies, and with
    /// `CycleDetected` when the limit runs out.
    pub fn reduce(&self, stack: &Vec<Action>, limit: usize) -> (r: Result<Vec<Action>, TransduceError>)
        requires
            self.wf(),
        ensures
            match r {
                Ok(v) => lens_reduce(self@.rules, stack@, limit as nat) == Outcome::Reduced(v@),
                Err(TransduceError::NoMatch(v)) => lens_reduce(self@.rules, stack@, limit as nat)
                    == Outcome::NoMatch && v@ == stack@,
                Err(TransduceError::CycleDetected) => lens_reduce(self@.rules, stack@, limit as nat)
                    == Outcome::OutOfSteps,
            },
    {
        let engine = Engine::build(self);
        let r = engine.transduce(stack, limit);
        proof {
            lemma_reduce_agrees(&engine, self@.rules, stack@, limit as nat);
        }
        r
    }

    /// `reduce` on a persistent vector: the stack's last element is its top.
    pub fn transduce(&self, stack: im_rc::Vector<Action>, limit: usize) -> (r: Result<
        im_rc::Vector<Action>,
        TransduceError,
    >)
        requires
            self.wf(),
        ensures
            match r {
                Ok(v) => lens_reduce(self@.rules, vector_items(stack), limit as nat)
                    == Outcome::Reduced(vector_items(v)),
                Err(TransduceError::NoMatch(v)) => lens_reduce(
                    self@.rules,
                    vector_items(stack),
                    limit as nat,
                ) == Outcome::NoMatch && v@ == vector_items(stack),
                Err(TransduceError::CycleDetected) => lens_reduce(
                    self@.rules,
                    vector_items(stack),
                    limit as nat,
                ) == Outcome::OutOfSteps,
            },
    {
        let input = vector_to_vec(&stack);
        match self.reduce(&input, limit) {
            Ok(out) => Ok(vec_to_vector(&out)),
            Err(e) => Err(e),
        }
    }

    /// The first rule whose replacement is `s`.
    fn find_partner(&self, s: &Vec<Action>) -> (r: Option<usize>)
        ensures
            r.is_some() == partner(self@.rules, s@, self@.rules.len() as int).is_some(),
            r.is_some() ==> r.unwrap() as int == partner(self@.rules, s@, self@.rules.len() as int).unwrap(),
            r.is_some() ==> r.unwrap() < self@.rules.len(),
    {
        let mut k: usize = 0;
        while k < self.rules.len()
            invariant
                0 <= k <= self@.rules.len(),
                partner(self@.rules, s@, k as int).is_none(),
            decreases self@.rules.len() - k,
        {
            proof {
                assert(self@.rules[k as int] == (self.rules@[k as int].from@, self.rules@[k as int].to@));
            }
            if same_sequence(&self.rules[k].to, s) {
                proof {
                    lemma_partner_stays(self@.rules, s@, k as int + 1, self@.rules.len() as int);
                }
                return Some(k);
            }
            k = k + 1;
        }
        None
    }

    /// Every stack that one rewrite by one rule yields, in rule order; the
    /// stack itself when no rule's pattern lies on top of it.
    pub fn rewrites(&self, stack: im_rc::Vector<Action>) -> (r: Result<
        Vec<im_rc::Vector<Action>>,
        im_rc::Vector<Action>,
    >)
        ensures
            match r {
                Ok(v) => v@.len() > 0 && v@.len() == rewrites(self@.rules, vector_items(stack)).len()
                    && forall|i: int|
                    0 <= i < v@.len() ==> vector_items(#[trigger] v@[i]) == rewrites(
                        self@.rules,
                        vector_items(stack),
                    )[i],
                Err(s) => rewrites(self@.rules, vector_items(stack)).len() == 0 && vector_items(s)
                    == vector_items(stack),
            },
    {
        let ghost st = vector_items(stack);
        let mut out: Vec<im_rc::Vector<Action>> = Vec::new();
        let mut k: usize = 0;
        while k < self.rules.len()
            invariant
                0 <= k <= self@.rules.len(),
                st == vector_items(stack),
                out@.len() == rewrites(self@.rules.subrange(0, k as int), st).len(),
                forall|i: int|
                    0 <= i < out@.len() ==> vector_items(#[trigger] out@[i]) == rewrites(
                        self@.rules.subrange(0, k as int),
                        st,
                    )[i],
            decreases self@.rules.len() - k,
        {
            let rule = &self.rules[k];
            let ghost rs = self@.rules.subrange(0, k as int + 1);
            proof {
                assert(rs.drop_last() =~= self@.rules.subrange(0, k as int));
                assert(rs.last() == (rule.from@, rule.to@));
            }
            if top_of_stack_eq(&stack, &rule.from) {
                let mut next = vector_clone(&stack);
                let n = vector_len(&next);
                vector_truncate(&mut next, n - rule.from.len());
                let mut i: usize = 0;
                while i < rule.to.len()
                    invariant
                        0 <= i <= rule.to@.len(),
                        rule.from@.len() <= st.len(),
                        vector_items(next) == st.subrange(0, st.len() - rule.from@.len())
                            + rule.to@.subrange(0, i as int),
                    decreases rule.to@.len() - i,
                {
                    vector_push_back(&mut next, rule.to[i]);
                    i = i + 1;
                    proof {
                        assert(vector_items(next) =~= st.subrange(0, st.len() - rule.from@.len())
                            + rule.to@.subrange(0, i as int));
                    }
                }
                proof {
                    assert(rule.to@.subrange(0, rule.to@.len() as int) =~= rule.to@);
                }
                out.push(next);
            }
            k = k + 1;
        }
        proof {
            assert(self@.rules.subrange(0, self@.rules.len() as int) =~= self@.rules);
        }
        if out.len() == 0 {
            Err(stack)
        } else {
            Ok(out)
        }
    }
}

/// The elements of `v`, front to back.
fn vector_to_vec(v: &im_rc::Vector<Action>) -> (r: Vec<Action>)
    ensures
        r@ == vector_items(*v),
{
    let n = vector_len(v);
    let mut r: Vec<Action> = Vec::new();
    let mut i: usize = 0;
    while i < n
        invariant
            0 <= i <= n,
            n == vector_items(*v).len(),
            r@ == vector_items(*v).subrange(0, i as int),
        decreases n - i,
    {
        match vector_get(v, i) {
            Some(x) => {
                r.push(x);
            },
            None => {},
        }
        i = i + 1;
        proof {
            assert(r@ =~= vector_items(*v).subrange(0, i as int));
        }
    }
    proof {
        assert(vector_items(*v).subrange(0, n as int) =~= vector_items(*v));
    }
    r
}

/// A persistent vector holding `v`, front to back.
fn vec_to_vector(v: &Vec<Action>) -> (r: im_rc::Vector<Action>)
    ensures
        vector_items(r) == v@,
{
    let mut r = vector_new();
    let mut i: usize = 0;
    while i < v.len()
        invariant
            0 <= i <= v@.len(),
            vector_items(r) == v@.subrange(0, i as int),
        decreases v@.len() - i,
    {
        vector_push_back(&mut r, v[i]);
        i = i + 1;
        proof {
            assert(vector_items(r) =~= v@.subrange(0, i as int));
        }
    }
    proof {
        assert(v@.subrange(0, v@.len() as int) =~= v@);
    }
    r
}

/// Whether `other` lies on top of `stack`.
fn top_of_stack_eq(stack: &im_rc::Vector<Action>, other: &Vec<Action>) -> (r: bool)
    ensures
        r == on_top(other@, vector_items(*stack)),
{
    let n = vector_len(stack);
    if n < other.len() {
        return false;
    }
    let d = n - other.len();
    let ghost st = vector_items(*stack);
    let mut i: usize = 0;
    while i < other.len()
        invariant
            0 <= i <= other@.len(),
            n == st.len(),
            d == n - other@.len(),
            st == vector_items(*stack),
            forall|j: int| 0 <= j < i ==> st[d + j] == other@[j],
        decreases other@.len() - i,
    {
        match vector_get(stack, i + d) {
            Some(v) => {
                if !v.same(&other[i]) {
                    proof {
                        assert(st.subrange(d as int, n as int)[i as int] == st[d + i]);
                    }
                    return false;
                }
            },
            None => {
                return false;
            },
        }
        i = i + 1;
    }
    proof {
        assert(st.subrange(d as int, n as int) =~= other@);
    }
    true
}

/// Whether every action of `s` belongs to `state`.
fn all_in_state(s: &Vec<Action>, state: State) -> (r: bool)
    ensures
        r == in_state(s@, state),
{
    let mut i: usize = 0;
    while i < s.len()
        invariant
            0 <= i <= s@.len(),
            forall|j: int| 0 <= j < i ==> (#[trigger] s@[j]).base_state == state,
        decreases s@.len() - i,
    {
        if !(s[i].base_state == state) {
            return false;
        }
        i = i + 1;
    }
    true
}

/// Whether two sequences of actions are equal.
fn same_sequence(a: &Vec<Action>, b: &Vec<Action>) -> (r: bool)
    ensures
        r == (a@ == b@),
{
    if a.len() != b.len() {
        return false;
    }
    let mut i: usize = 0;
    while i < a.len()
        invariant
            0 <= i <= a@.len(),
            a@.len() == b@.len(),
            forall|j: int| 0 <= j < i ==> a@[j] == b@[j],
        decreases a@.len() - i,
    {
        if !a[i].same(&b[i]) {
            return false;
        }
        i = i + 1;
    }
    proof {
        assert(a@ =~= b@);
    }
    true
}

/// The partner among the first `n` rules is the first rule whose replacement
/// is `s`, and there is none exactly when no such rule exists.
pub proof fn lemma_partner(rules: Seq<RuleView>, s: Seq<Action>, n: int)
    requires
        0 <= n <= rules.len(),
    ensures
        match partner(rules, s, n) {
            Some(k) => 0 <= k < n && rules[k].1 == s && forall|j: int|
                0 <= j < k ==> (#[trigger] rules[j]).1 != s,
            None => forall|j: int| 0 <= j < n ==> (#[trigger] rules[j]).1 != s,
        },
    decreases n,
{
    if n > 0 {
        lemma_partner(rules, s, n - 1);
    }
}

/// The rules composed from a first part of `second` begin the rules composed from all of it.
proof fn lemma_composed_prefix(first: Seq<RuleView>, second: Seq<RuleView>, m: int)
    requires
        0 <= m <= second.len(),
    ensures
        composed(first, second.subrange(0, m)).len() <= composed(first, second).len(),
        composed(first, second.subrange(0, m)) == composed(first, second).subrange(
            0,
            composed(first, second.subrange(0, m)).len() as int,
        ),
    decreases second.len(),
{
    if m == second.len() {
        assert(second.subrange(0, m) =~= second);
        assert(composed(first, second).subrange(0, composed(first, second).len() as int)
            =~= composed(first, second));
    } else {
        let rest = second.drop_last();
        lemma_composed_prefix(first, rest, m);
        assert(rest.subrange(0, m) =~= second.subrange(0, m));
        let a = composed(first, rest);
        let b = composed(first, second);
        let p = composed(first, second.subrange(0, m));
        assert(b.subrange(0, a.len() as int) =~= a);
        assert(b.subrange(0, p.len() as int) =~= a.subrange(0, p.len() as int));
    }
}

/// Every composed rule joins a rule of `first` to a rule of `second` whose
/// pattern is its replacement.
pub proof fn lemma_composed_origin(first: Seq<RuleView>, second: Seq<RuleView>, c: int)
    requires
        0 <= c < composed(first, second).len(),
    ensures
        exists|k1: int, k2: int|
            #![trigger first[k1], second[k2]]
            0 <= k1 < first.len() && 0 <= k2 < second.len() && first[k1].1 == second[k2].0
                && composed(first, second)[c] == (first[k1].0, second[k2].1),
    decreases second.len(),
{
    let rest = second.drop_last();
    let before = composed(first, rest);
    if c < before.len() {
        lemma_composed_origin(first, rest, c);
        let (k1, k2) = choose|k1: int, k2: int|
            #![trigger first[k1], rest[k2]]
            0 <= k1 < first.len() && 0 <= k2 < rest.len() && first[k1].1 == rest[k2].0
                && before[c] == (first[k1].0, rest[k2].1);
        assert(rest[k2] == second[k2]);
        assert(composed(first, second)[c] == before[c]);
    } else {
        lemma_partner(first, second.last().0, first.len() as int);
        let k1 = partner(first, second.last().0, first.len() as int).unwrap();
        let k2 = second.len() - 1;
        assert(first[k1].1 == second[k2].0);
        assert(composed(first, second)[c] == (first[k1].0, second[k2].1));
    }
}

/// Each rule of `second` adds one composed rule when it has a partner in
/// `first`, and none otherwise.
proof fn lemma_compose_step(first: Seq<RuleView>, second: Seq<RuleView>)
    ensures
        forall|k2: int|
            0 <= k2 < second.len() ==> composed(first, #[trigger] second.subrange(0, k2 + 1))
                == match partner(first, second[k2].0, first.len() as int) {
                Some(k1) => composed(first, second.subrange(0, k2)).push(
                    (first[k1].0, second[k2].1),
                ),
                None => composed(first, second.subrange(0, k2)),
            },
{
    assert forall|k2: int| 0 <= k2 < second.len() implies composed(
        first,
        #[trigger] second.subrange(0, k2 + 1),
    ) == match partner(first, second[k2].0, first.len() as int) {
        Some(k1) => composed(first, second.subrange(0, k2)).push((first[k1].0, second[k2].1)),
        None => composed(first, second.subrange(0, k2)),
    } by {
        let sj = second.subrange(0, k2 + 1);
        assert(sj.drop_last() =~= second.subrange(0, k2));
        assert(sj.last() == second[k2]);
    }
}

/// A rule of `second` with a partner in `first` is joined to its first partner.
proof fn lemma_compose_keeps(first: Seq<RuleView>, second: Seq<RuleView>, k1: int, k2: int)
    requires
        0 <= k1 < first.len(),
        0 <= k2 < second.len(),
        first[k1].1 == second[k2].0,
    ensures
        partner(first, second[k2].0, first.len() as int).is_some(),
        partner(first, second[k2].0, first.len() as int).unwrap() <= k1,
        composed(first, second).contains(
            (first[partner(first, second[k2].0, first.len() as int).unwrap()].0, second[k2].1),
        ),
{
    lemma_partner(first, second[k2].0, first.len() as int);
    let p = partner(first, second[k2].0, first.len() as int).unwrap();
    let sj = second.subrange(0, k2 + 1);
    assert(sj.drop_last() =~= second.subrange(0, k2));
    assert(sj.last() == second[k2]);
    lemma_composed_prefix(first, second, k2 + 1);
    let c = composed(first, sj);
    assert(c.last() == (first[p].0, second[k2].1));
    assert(composed(first, second)[c.len() - 1] == c[c.len() - 1]);
}

/// Composition takes each rule of the second lens in turn: one whose pattern
/// is the replacement of some rule of the first lens adds exactly one rule,
/// from the first such rule's pattern to its own replacement; one without
/// such a partner adds nothing. Every composed rule joins a rule of the first
/// lens to a rule of the second whose pattern is its replacement (see
/// `lemma_composed_origin`).
pub proof fn lemma_compose_correct(first: Seq<RuleView>, second: Seq<RuleView>)
    ensures
        forall|k2: int|
            0 <= k2 < second.len() ==> composed(first, #[trigger] second.subrange(0, k2 + 1))
                == match partner(first, second[k2].0, first.len() as int) {
                Some(k1) => composed(first, second.subrange(0, k2)).push(
                    (first[k1].0, second[k2].1),
                ),
                None => composed(first, second.subrange(0, k2)),
            },
        forall|k1: int, k2: int|
            #![trigger first[k1], second[k2]]
            0 <= k1 < first.len() && 0 <= k2 < second.len() && first[k1].1 == second[k2].0
                ==> composed(first, second).contains(
                (first[partner(first, second[k2].0, first.len() as int).unwrap()].0, second[k2].1),
            ),
{
    lemma_compose_step(first, second);
    assert forall|k1: int, k2: int|
        #![trigger first[k1], second[k2]]
        0 <= k1 < first.len() && 0 <= k2 < second.len() && first[k1].1
            == second[k2].0 implies composed(first, second).contains(
        (first[partner(first, second[k2].0, first.len() as int).unwrap()].0, second[k2].1),
    ) by {
        lemma_compose_keeps(first, second, k1, k2);
    }
}

/// Once a partner is found among the first `n` rules, it stays the partner.
proof fn lemma_partner_stays(rules: Seq<RuleView>, s: Seq<Action>, n: int, m: int)
    requires
        1 <= n <= m,
        partner(rules, s, n).is_some(),
    ensures
        partner(rules, s, m) == partner(rules, s, n),
    decreases m - n,
{
    if m > n {
        lemma_partner_stays(rules, s, n, m - 1);
    }
}

} // verus!
