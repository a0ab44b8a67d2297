//! Interactions between operations, and queries that select them.
use vstd::prelude::*;

use crate::base::{Action, State};

verus! {

/// An action performed in a state.
#[derive(Clone, Copy, PartialEq, Eq, Structural, Debug)]
pub struct Operation<S, A> {
    pub state: S,
    pub action: A,
}

/// A pair of things, one on each side of an interaction.
#[derive(Clone, Copy, PartialEq, Eq, Structural, Debug)]
pub struct Interaction<T> {
    pub source: T,
    pub target: T,
}

/// A collection of interactions.
#[derive(Debug)]
pub struct Span<T> {
    pub interactions: Vec<Interaction<T>>,
}

/// A pattern over operations.
#[derive(Clone, Copy, PartialEq, Eq, Structural, Debug)]
pub enum Query<S, A> {
    Any,
    State { state: S },
    Operation { state: S, action: A },
}

/// Whether `query` selects `op`: any operation, any operation in a state,
/// or one operation.
pub open spec fn query_matches(query: Query<State, Action>, op: Operation<State, Action>) -> bool {
    match query {
        Query::Any => true,
        Query::State { state } => state == op.state,
        Query::Operation { state, action } => state == op.state && action == op.action,
    }
}

/// Whether a query interaction selects an interaction: both sides match.
pub open spec fn interaction_matches(
    query: Interaction<Query<State, Action>>,
    other: Interaction<Operation<State, Action>>,
) -> bool {
    query_matches(query.source, other.source) && query_matches(query.target, other.target)
}

impl Query<State, Action> {
    /// Whether this query selects `other`.
    pub fn matches(&self, other: &Operation<State, Action>) -> (r: bool)
        ensures
            r == query_matches(*self, *other),
    {
        match self {
            Query::Any => true,
            Query::State { state } => *state == other.state,
            Query::Operation { action, state } => *state == other.state && other.action.same(action),
        }
    }
}

impl Interaction<Query<State, Action>> {
    /// Whether both sides of this query select the sides of `other`.
    pub fn matches(&self, other: &Interaction<Operation<State, Action>>) -> (r: bool)
        ensures
            r == interaction_matches(*self, *other),
    {
        self.source.matches(&other.source) && self.target.matches(&other.target)
    }
}

impl Span<Operation<State, Action>> {
    /// The interactions that `query` selects, in order.
    pub fn interact(&self, query: Interaction<Query<State, Action>>) -> (r: Vec<
        Interaction<Operation<State, Action>>,
    >)
        ensures
            r@ == self.interactions@.filter(
                |i: Interaction<Operation<State, Action>>| interaction_matches(query, i),
            ),
    {
        let ghost pred = |i: Interaction<Operation<State, Action>>| interaction_matches(query, i);
        let mut r: Vec<Interaction<Operation<State, Action>>> = Vec::new();
        let mut k: usize = 0;
        while k < self.interactions.len()
            invariant
                0 <= k <= self.interactions@.len(),
                pred == (|i: Interaction<Operation<State, Action>>| interaction_matches(query, i)),
                r@ == self.interactions@.subrange(0, k as int).filter(pred),
            decreases self.interactions@.len() - k,
        {
            let item = self.interactions[k];
            let ghost s = self.interactions@.subrange(0, k as int + 1);
            proof {
                assert(s.drop_last() =~= self.interactions@.subrange(0, k as int));
                assert(s.last() == item);
                reveal(Seq::filter);
                assert(s.filter(pred) == if pred(item) {
                    s.drop_last().filter(pred).push(item)
                } else {
                    s.drop_last().filter(pred)
                });
            }
            let selected = query.matches(&item);
            proof {
                assert(selected == pred(item));
            }
            if selected {
                r.push(item);
            }
            k = k + 1;
        }
        proof {
            assert(self.interactions@.subrange(0, self.interactions@.len() as int)
                =~= self.interactions@);
        }
        r
    }
}

} // verus!
