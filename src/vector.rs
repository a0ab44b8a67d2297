//! The persistent vector of `im_rc`, as the lens's stacks use it.
use vstd::prelude::*;

use crate::base::Action;

verus! {

#[verifier::external_type_specification]
#[verifier::external_body]
#[verifier::reject_recursive_types(A)]
pub struct ExVector<A>(im_rc::Vector<A>);

/// The elements of a vector, front to back.
pub uninterp spec fn vector_items(v: im_rc::Vector<Action>) -> Seq<Action>;

/// Relies on `im_rc::Vector::new`: an empty vector.
#[verifier::external_body]
pub(crate) fn vector_new() -> (r: im_rc::Vector<Action>)
    ensures
        vector_items(r) == Seq::<Action>::empty(),
{
    im_rc::Vector::new()
}

/// Relies on `im_rc::Vector::len`: the number of elements.
#[verifier::external_body]
pub(crate) fn vector_len(v: &im_rc::Vector<Action>) -> (r: usize)
    ensures
        r == vector_items(*v).len(),
{
    v.len()
}

/// Relies on `im_rc::Vector::get`: the element at `index`, `None` past the end.
#[verifier::external_body]
pub(crate) fn vector_get(v: &im_rc::Vector<Action>, index: usize) -> (r: Option<Action>)
    ensures
        index < vector_items(*v).len() ==> r == Some(vector_items(*v)[index as int]),
        index >= vector_items(*v).len() ==> r.is_none(),
{
    v.get(index).copied()
}

/// Relies on `Clone` for `im_rc::Vector`: a vector with the same elements.
#[verifier::external_body]
pub(crate) fn vector_clone(v: &im_rc::Vector<Action>) -> (r: im_rc::Vector<Action>)
    ensures
        vector_items(r) == vector_items(*v),
{
    v.clone()
}

/// Relies on `im_rc::Vector::truncate`: keeps the first `len` elements; it
/// panics when `len` exceeds the length.
#[verifier::external_body]
pub(crate) fn vector_truncate(v: &mut im_rc::Vector<Action>, len: usize)
    requires
        len <= vector_items(*old(v)).len(),
    ensures
        vector_items(*final(v)) == vector_items(*old(v)).subrange(0, len as int),
{
    v.truncate(len)
}

/// Relies on `im_rc::Vector::push_back`: appends `value` at the back.
#[verifier::external_body]
pub(crate) fn vector_push_back(v: &mut im_rc::Vector<Action>, value: Action)
    ensures
        vector_items(*final(v)) == vector_items(*old(v)).push(value),
{
    v.push_back(value)
}

} // verus!
