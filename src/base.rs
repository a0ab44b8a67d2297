//! The symbols that the engine rewrites.
use vstd::prelude::*;

verus! {

pub type StateIndex = usize;

pub type ActionIndex = usize;

/// A category of symbols: the state (interface) that an action belongs to.
#[derive(Clone, Copy, PartialEq, Eq, Structural, Debug, Hash)]
pub struct State {
    pub index: StateIndex,
}

/// A symbol: an action handle, tagged with its base state.
#[derive(Clone, Copy, PartialEq, Eq, Structural, Debug, Hash)]
pub struct Action {
    pub index: ActionIndex,
    pub base_state: State,
}

impl Action {
    /// Builds the action with the given handle and base state.
    pub fn new(index: ActionIndex, base_state: State) -> (r: Action)
        ensures
            r.index == index,
            r.base_state == base_state,
    {
        Action { index, base_state }
    }

    /// Whether two actions are the same symbol.
    pub fn same(&self, other: &Action) -> (r: bool)
        ensures
            r == (*self == *other),
    {
        self.index == other.index && self.base_state.index == other.base_state.index
    }
}

/// A copy of a sequence of actions.
pub fn copy_actions(v: &Vec<Action>) -> (r: Vec<Action>)
    ensures
        r@ == v@,
{
    let mut r: Vec<Action> = Vec::new();
    let mut i: usize = 0;
    while i < v.len()
        invariant
            0 <= i <= v@.len(),
            r@ == v@.subrange(0, i as int),
        decreases v@.len() - i,
    {
        r.push(v[i]);
        i = i + 1;
        proof {
            assert(r@ =~= v@.subrange(0, i as int));
        }
    }
    proof {
        assert(v@.subrange(0, v@.len() as int) =~= v@);
    }
    r
}

} // verus!
