//! Lenses between states given by delegations: each mutation of the target
//! side is handed to a mutation of the source side.
use vstd::prelude::*;

verus! {

pub type StateIndex = usize;

pub type MutationIndex = usize;

/// Hands mutation `from` over to mutation `to`.
#[derive(Clone, Copy, PartialEq, Eq, Structural, Debug)]
pub struct Delegation {
    pub from: MutationIndex,
    pub to: MutationIndex,
}

/// A lens from `source` to `target` by its delegations, in order.
#[derive(Debug)]
pub struct DelegationLens {
    pub source: StateIndex,
    pub target: StateIndex,
    pub data: Vec<Delegation>,
}

/// Where the first delegation of `data` from `mutation` hands it.
pub open spec fn delegate(data: Seq<Delegation>, mutation: MutationIndex) -> Option<MutationIndex>
    decreases data.len(),
{
    if data.len() == 0 {
        None
    } else {
        match delegate(data.drop_last(), mutation) {
            Some(to) => Some(to),
            None => if data.last().from == mutation {
                Some(data.last().to)
            } else {
                None
            },
        }
    }
}

/// The delegations of `second`, in order, each carried on through `first`;
/// those that `first` does not carry on are dropped.
pub open spec fn chained(first: Seq<Delegation>, second: Seq<Delegation>) -> Seq<Delegation>
    decreases second.len(),
{
    if second.len() == 0 {
        Seq::empty()
    } else {
        let rest = chained(first, second.drop_last());
        match delegate(first, second.last().to) {
            Some(to) => rest.push(Delegation { from: second.last().from, to }),
            None => rest,
        }
    }
}

impl DelegationLens {
    /// Where the first delegation from `mutation` hands it.
    pub fn delegate_from(&self, mutation: MutationIndex) -> (r: Option<MutationIndex>)
        ensures
            r == delegate(self.data@, mutation),
    {
        let mut k: usize = 0;
        while k < self.data.len()
            invariant
                0 <= k <= self.data@.len(),
                delegate(self.data@.subrange(0, k as int), mutation).is_none(),
            decreases self.data@.len() - k,
        {
            let d = self.data[k];
            proof {
                let s = self.data@.subrange(0, k as int + 1);
                assert(s.drop_last() =~= self.data@.subrange(0, k as int));
                assert(s.last() == d);
            }
            if d.from == mutation {
                proof {
                    lemma_delegate_prefix(self.data@, k as int + 1);
                }
                return Some(d.to);
            }
            k = k + 1;
        }
        proof {
            assert(self.data@.subrange(0, self.data@.len() as int) =~= self.data@);
        }
        None
    }

    /// This lens followed by `other`: each delegation of `other` whose target
    /// this lens delegates on, from its source to where this lens hands it.
    pub fn compose(&self, other: &DelegationLens) -> (r: DelegationLens)
        ensures
            r.source == self.source,
            r.target == other.target,
            r.data@ == chained(self.data@, other.data@),
    {
        let mut data: Vec<Delegation> = Vec::new();
        let mut k: usize = 0;
        while k < other.data.len()
            invariant
                0 <= k <= other.data@.len(),
                data@ == chained(self.data@, other.data@.subrange(0, k as int)),
            decreases other.data@.len() - k,
        {
            let d = other.data[k];
            proof {
                let s = other.data@.subrange(0, k as int + 1);
                assert(s.drop_last() =~= other.data@.subrange(0, k as int));
                assert(s.last() == d);
            }
            if let Some(to) = self.delegate_from(d.to) {
                data.push(Delegation { from: d.from, to });
            }
            k = k + 1;
        }
        proof {
            assert(other.data@.subrange(0, other.data@.len() as int) =~= other.data@);
        }
        DelegationLens { source: self.source, target: other.target, data }
    }
}

/// Once the first `n` delegations hand a mutation on, more delegations do not change where.
proof fn lemma_delegate_prefix(data: Seq<Delegation>, n: int)
    requires
        0 <= n <= data.len(),
    ensures
        forall|m: MutationIndex|
            delegate(data.subrange(0, n), m).is_some() ==> #[trigger] delegate(data, m) == delegate(
                data.subrange(0, n),
                m,
            ),
    decreases data.len() - n,
{
    if n == data.len() {
        assert(data.subrange(0, n) =~= data);
    } else {
        lemma_delegate_prefix(data, n + 1);
        let s = data.subrange(0, n + 1);
        assert(s.drop_last() =~= data.subrange(0, n));
    }
}

} // verus!
