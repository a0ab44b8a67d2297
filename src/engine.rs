//! The transducer: a lens compiled into two sequence indexes (patterns and
//! replacements) and a rule table, which rewrites a stack until it is
//! reduced, stuck, or out of steps.
use vstd::prelude::*;

use crate::base::{copy_actions, Action};
use crate::domain::{
    after_recognition, lemma_sequence_frame, recognized, same_node, sequence_of, Domain, ElemIndex,
    Recognized,
};
use crate::lens::{has_empty, lens_reduce, lens_step_from, Lens, Outcome, RuleView};
use crate::rule::Rule;
use crate::stack::Stack;

verus! {

/// Why a transduction gave up.
#[derive(Debug)]
pub enum TransduceError {
    /// No registered pattern lies on top of the stack; holds the input as given.
    NoMatch(Vec<Action>),
    /// The step limit ran out before the stack was reduced.
    CycleDetected,
}

/// Two indexes and the rules between their nodes.
#[derive(Debug)]
pub struct Engine {
    pub targets: Domain,
    pub sources: Domain,
    pub rules: Vec<Rule<ElemIndex, ElemIndex>>,
}

impl Engine {
    pub open spec fn wf(&self) -> bool {
        &&& self.targets.wf()
        &&& self.sources.wf()
        &&& forall|k: int|
            0 <= k < self.rules@.len() ==> (#[trigger] self.rules@[k]).from < self.targets@.len()
                && self.rules@[k].to < self.sources@.len()
    }

    /// The replacement of rule `k`.
    pub open spec fn replacement(&self, k: int) -> Seq<Action> {
        sequence_of(self.sources@, self.rules@[k].to as int)
    }

    /// One rewrite, trying the rules from `k` on in the order listed: the
    /// first whose pattern lies on top of `stack` gives how it was
    /// recognized and the stack with the pattern replaced by its replacement.
    /// Of two rules with one pattern, the one listed first is the one applied.
    pub open spec fn step_from(&self, stack: Seq<Action>, k: int) -> Option<(Recognized, Seq<Action>)>
        decreases self.rules@.len() - k,
    {
        if k < 0 || k >= self.rules@.len() {
            None
        } else {
            let pattern = sequence_of(self.targets@, self.rules@[k].from as int);
            if recognized(pattern, stack) != Recognized::Error {
                Some((recognized(pattern, stack), after_recognition(pattern, stack) + self.replacement(k)))
            } else {
                self.step_from(stack, k + 1)
            }
        }
    }

    /// The pattern and replacement of each rule are those of `rules`.
    pub open spec fn compiled(&self, rules: Seq<RuleView>) -> bool {
        &&& self.rules@.len() == rules.len()
        &&& forall|k: int|
            0 <= k < rules.len() ==> sequence_of(self.targets@, (#[trigger] self.rules@[k]).from as int)
                == rules[k].0 && sequence_of(self.sources@, self.rules@[k].to as int) == rules[k].1
    }

    /// The stacks that the rules for node `t` among the first `n` rules make
    /// of `stack`, once the pattern of `t` is taken off it.
    pub open spec fn rewrites_for(&self, stack: Seq<Action>, t: int, n: int) -> Seq<Seq<Action>>
        decreases n,
    {
        if n <= 0 {
            Seq::empty()
        } else {
            self.rewrites_for(stack, t, n - 1) + if self.rules@[n - 1].from == t {
                seq![after_recognition(sequence_of(self.targets@, t), stack) + self.replacement(n - 1)]
            } else {
                Seq::empty()
            }
        }
    }

    /// Every single rewrite of `stack`, by the maximal pattern nodes below
    /// `k` in index order that lie on top of it, each by its rules in order.
    pub open spec fn all_rewrites(&self, stack: Seq<Action>, k: int) -> Seq<Seq<Action>>
        decreases k,
    {
        if k <= 0 {
            Seq::empty()
        } else {
            self.all_rewrites(stack, k - 1) + if self.targets@[k - 1].maximal && recognized(
                sequence_of(self.targets@, k - 1),
                stack,
            ) != Recognized::Error {
                self.rewrites_for(stack, k - 1, self.rules@.len() as int)
            } else {
                Seq::empty()
            }
        }
    }

    pub open spec fn step(&self, stack: Seq<Action>) -> Option<(Recognized, Seq<Action>)> {
        self.step_from(stack, 0)
    }

    /// Rewrites `stack` for at most `fuel` steps: a step that consumed the
    /// whole stack ends it, one that left values below the pattern goes on.
    pub open spec fn reduce(&self, stack: Seq<Action>, fuel: nat) -> Outcome
        decreases fuel,
    {
        if fuel == 0 {
            Outcome::OutOfSteps
        } else {
            match self.step(stack) {
                None => Outcome::NoMatch,
                Some((kind, next)) => if kind == Recognized::All {
                    Outcome::Reduced(next)
                } else {
                    self.reduce(next, (fuel - 1) as nat)
                },
            }
        }
    }

    /// Compiles `lens`: each rule's pattern is registered in `targets`, its
    /// replacement in `sources`, and the rule table links the two nodes. The
    /// maximal pattern nodes are exactly those that rules start from.
    pub fn build(lens: &Lens) -> (r: Engine)
        requires
            lens.wf(),
        ensures
            r.wf(),
            r.compiled(lens@.rules),
            forall|t: int|
                0 <= t < r.targets@.len() ==> ((#[trigger] r.targets@[t]).maximal <==> exists|k: int|
                    0 <= k < r.rules@.len() && r.rules@[k].from == t),
    {
        let lens_rules = lens.rules();
        let ghost lr = lens@.rules;
        let mut targets = Domain::new();
        let mut sources = Domain::new();
        let mut rules: Vec<Rule<ElemIndex, ElemIndex>> = Vec::new();
        let mut k: usize = 0;
        while k < lens_rules.len()
            invariant
                0 <= k <= lr.len(),
                lr == lens@.rules,
                lr == crate::lens::rules_view(lens_rules@),
                !has_empty(lr),
                targets.wf(),
                sources.wf(),
                rules@.len() == k,
                forall|j: int|
                    0 <= j < k ==> (#[trigger] rules@[j]).from < targets@.len() && rules@[j].to
                        < sources@.len(),
                forall|j: int|
                    0 <= j < k ==> sequence_of(targets@, (#[trigger] rules@[j]).from as int)
                        == lr[j].0 && sequence_of(sources@, rules@[j].to as int) == lr[j].1,
                forall|t: int|
                    0 <= t < targets@.len() ==> ((#[trigger] targets@[t]).maximal <==> exists|j: int|
                        0 <= j < k && rules@[j].from == t),
            decreases lr.len() - k,
        {
            let rule = &lens_rules[k];
            proof {
                assert(lr[k as int] == (rule.from@, rule.to@));
                assert(!(lr[k as int].0.len() == 0 || lr[k as int].1.len() == 0));
            }
            let ghost t0 = targets@;
            let ghost s0 = sources@;
            let t = targets.insert(&rule.from);
            let s = sources.insert(&rule.to);
            let ti = t.unwrap();
            let si = s.unwrap();
            let ghost old_rules = rules@;
            rules.push(Rule { from: ti, to: si });
            proof {
                assert forall|i: int| 0 <= i < t0.len() implies (#[trigger] t0[i]).value
                    == targets@[i].value && t0[i].next == targets@[i].next by {
                    assert(same_node(t0[i], targets@[i]));
                }
                assert forall|i: int| 0 <= i < s0.len() implies (#[trigger] s0[i]).value
                    == sources@[i].value && s0[i].next == sources@[i].next by {
                    assert(same_node(s0[i], sources@[i]));
                }
                assert forall|j: int| 0 <= j < k + 1 implies sequence_of(
                    targets@,
                    (#[trigger] rules@[j]).from as int,
                ) == lr[j].0 && sequence_of(sources@, rules@[j].to as int) == lr[j].1 by {
                    if j < k {
                        assert(rules@[j] == old_rules[j]);
                        lemma_sequence_frame(t0, targets@, rules@[j].from as int);
                        lemma_sequence_frame(s0, sources@, rules@[j].to as int);
                    }
                }
                assert forall|t: int| 0 <= t < targets@.len() implies ((#[trigger] targets@[t]).maximal
                    <==> exists|j: int| 0 <= j < k + 1 && rules@[j].from == t) by {
                    if targets@[t].maximal {
                        if t == ti {
                            assert(rules@[k as int].from == t);
                        } else {
                            assert(t < t0.len());
                            assert(t0[t].maximal);
                            let j = choose|j: int| 0 <= j < k && old_rules[j].from == t;
                            assert(rules@[j] == old_rules[j]);
                        }
                    }
                    if exists|j: int| 0 <= j < k + 1 && rules@[j].from == t {
                        let j = choose|j: int| 0 <= j < k + 1 && rules@[j].from == t;
                        if j < k {
                            assert(rules@[j] == old_rules[j]);
                            assert(t < t0.len());
                            assert(t0[t].maximal);
                        }
                    }
                }
            }
            k = k + 1;
        }
        let r = Engine { targets, sources, rules };
        proof {
            assert(r.compiled(lr));
            assert forall|t: int| 0 <= t < r.targets@.len() implies ((#[trigger] r.targets@[t]).maximal
                <==> exists|j: int| 0 <= j < r.rules@.len() && r.rules@[j].from == t) by {
                assert(r.targets@ == targets@);
                assert(r.rules@ == rules@);
                assert(targets@[t].maximal <==> exists|j: int| 0 <= j < k && rules@[j].from == t);
                if targets@[t].maximal {
                    let j = choose|j: int| 0 <= j < k && rules@[j].from == t;
                    assert(r.rules@[j].from == t);
                }
                if exists|j: int| 0 <= j < r.rules@.len() && r.rules@[j].from == t {
                    let j = choose|j: int| 0 <= j < r.rules@.len() && r.rules@[j].from == t;
                    assert(rules@[j].from == t);
                }
            }
        }
        r
    }

    /// Every stack that one rewrite makes of `stack`: for each maximal
    /// pattern node in index order whose pattern lies on top of it, one for
    /// each rule of that node, in rule order.
    pub fn recognize(&self, stack: &Vec<Action>) -> (r: Vec<Vec<Action>>)
        requires
            self.wf(),
        ensures
            r@.len() == self.all_rewrites(stack@, self.targets@.len() as int).len(),
            forall|i: int| 0 <= i < r@.len() ==> (#[trigger] r@[i])@ == self.all_rewrites(
                stack@,
                self.targets@.len() as int,
            )[i],
    {
        let mut out: Vec<Vec<Action>> = Vec::new();
        let mut t: usize = 0;
        while t < self.targets.len()
            invariant
                self.wf(),
                0 <= t <= self.targets@.len(),
                out@.len() == self.all_rewrites(stack@, t as int).len(),
                forall|i: int| 0 <= i < out@.len() ==> (#[trigger] out@[i])@ == self.all_rewrites(stack@, t as int)[i],
            decreases self.targets@.len() - t,
        {
            let ghost done = self.all_rewrites(stack@, t as int);
            let mut trial = Stack::from_vec(copy_actions(stack));
            let matched = match self.targets.recognize_at_index(Some(t), &mut trial) {
                Recognized::Error => false,
                _ => true,
            };
            if self.targets.elem(t).maximal && matched {
                let mut k: usize = 0;
                while k < self.rules.len()
                    invariant
                        self.wf(),
                        0 <= t < self.targets@.len(),
                        0 <= k <= self.rules@.len(),
                        done == self.all_rewrites(stack@, t as int),
                        recognized(sequence_of(self.targets@, t as int), stack@) != Recognized::Error,
                        out@.len() == done.len() + self.rewrites_for(stack@, t as int, k as int).len(),
                        forall|i: int| 0 <= i < out@.len() ==> (#[trigger] out@[i])@ == (done + self.rewrites_for(stack@, t as int, k as int))[i],
                    decreases self.rules@.len() - k,
                {
                    let ghost before = out@;
                    if self.rules[k].from == t {
                        let mut work = Stack::from_vec(copy_actions(stack));
                        let _ = self.targets.recognize_at_index(Some(t), &mut work);
                        let replacement = self.sources.sequence(self.rules[k].to);
                        work.extend(&replacement);
                        let next = work.into_inner();
                        proof {
                            assert(next@ =~= work.live());
                        }
                        out.push(next);
                    }
                    proof {
                        assert forall|i: int| 0 <= i < out@.len() implies (#[trigger] out@[i])@ == (done + self.rewrites_for(stack@, t as int, k as int + 1))[i] by {
                            if i < before.len() {
                                assert(out@[i] == before[i]);
                            }
                        }
                    }
                    k = k + 1;
                }
            }
            t = t + 1;
        }
        out
    }

    /// Applies one rewrite to `work`, as `step` says; leaves it as it was
    /// when no pattern applies.
    fn apply_step(&self, work: &mut Stack<Action>) -> (r: Option<Recognized>)
        requires
            self.wf(),
            old(work).wf(),
        ensures
            final(work).wf(),
            match self.step(old(work).live()) {
                None => r.is_none() && final(work).live() == old(work).live(),
                Some((kind, next)) => r == Some(kind) && final(work).live() == next
                    && final(work).held() == Seq::<Action>::empty(),
            },
    {
        let ghost live = work.live();
        let mut k: usize = 0;
        while k < self.rules.len()
            invariant
                self.wf(),
                work.wf(),
                work.live() == live,
                live == old(work).live(),
                0 <= k <= self.rules@.len(),
                self.step_from(live, 0) == self.step_from(live, k as int),
            decreases self.rules@.len() - k,
        {
            let from = self.rules[k].from;
            let res = self.targets.recognize_at_index(Some(from), work);
            match res {
                Recognized::Error => {},
                _ => {
                    let replacement = self.sources.sequence(self.rules[k].to);
                    work.extend(&replacement);
                    return Some(res);
                },
            }
            k = k + 1;
        }
        None
    }

    /// Rewrites `stack` by the rules until a rewrite consumes it whole, for at
    /// most `limit` rewrites. Each round tries the rules in the order listed
    /// and applies the first whose pattern lies on top of the stack. Fails with `NoMatch`, holding the input unchanged,
    /// when no pattern applies, and with `CycleDetected` when the limit runs out.
    pub fn transduce(&self, stack: &Vec<Action>, limit: usize) -> (r: Result<Vec<Action>, TransduceError>)
        requires
            self.wf(),
        ensures
            match r {
                Ok(v) => self.reduce(stack@, limit as nat) == Outcome::Reduced(v@),
                Err(TransduceError::NoMatch(v)) => self.reduce(stack@, limit as nat)
                    == Outcome::NoMatch && v@ == stack@,
                Err(TransduceError::CycleDetected) => self.reduce(stack@, limit as nat)
                    == Outcome::OutOfSteps,
            },
    {
        let mut work = Stack::from_vec(copy_actions(stack));
        let mut fuel: usize = limit;
        while fuel > 0
            invariant
                self.wf(),
                work.wf(),
                self.reduce(stack@, limit as nat) == self.reduce(work.live(), fuel as nat),
            decreases fuel,
        {
            match self.apply_step(&mut work) {
                None => {
                    return Err(TransduceError::NoMatch(copy_actions(stack)));
                },
                Some(Recognized::All) => {
                    let out = work.into_inner();
                    proof {
                        assert(out@ =~= work.live());
                    }
                    return Ok(out);
                },
                Some(_) => {
                    fuel = fuel - 1;
                },
            }
        }
        Err(TransduceError::CycleDetected)
    }
}

/// An engine compiled from `rules` takes the same step as the rules themselves.
pub proof fn lemma_step_agrees(e: &Engine, rules: Seq<RuleView>, stack: Seq<Action>, k: int)
    requires
        e.compiled(rules),
        0 <= k,
    ensures
        e.step_from(stack, k) == lens_step_from(rules, stack, k),
    decreases rules.len() - k,
{
    if k < rules.len() {
        assert(sequence_of(e.targets@, e.rules@[k].from as int) == rules[k].0);
        lemma_step_agrees(e, rules, stack, k + 1);
    }
}

/// An engine compiled from `rules` reduces a stack as the rules themselves do.
pub proof fn lemma_reduce_agrees(e: &Engine, rules: Seq<RuleView>, stack: Seq<Action>, fuel: nat)
    requires
        e.compiled(rules),
    ensures
        e.reduce(stack, fuel) == lens_reduce(rules, stack, fuel),
    decreases fuel,
{
    if fuel > 0 {
        lemma_step_agrees(e, rules, stack, 0);
        match e.step(stack) {
            Some((kind, next)) => {
                if kind != Recognized::All {
                    lemma_reduce_agrees(e, rules, next, (fuel - 1) as nat);
                }
            },
            None => {},
        }
    }
}

} // verus!
