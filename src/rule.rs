//! A rewriting rule: the pattern it matches and what replaces it.
use vstd::prelude::*;

verus! {

/// Replaces `from` by `to`.
#[derive(Clone, Copy, PartialEq, Eq, Debug)]
pub struct Rule<A, B> {
    pub from: A,
    pub to: B,
}

} // verus!
