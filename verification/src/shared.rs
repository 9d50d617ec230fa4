//! Sharing of reference-counted records between the tables that hold them.
use std::rc::Rc;
use vstd::prelude::*;

verus! {

/// `Rc::clone`: another pointer to the same allocation, so the same value.
#[verifier::external_body]
pub fn share<T>(rc: &Rc<T>) -> (r: Rc<T>)
    ensures
        r == *rc,
{
    Rc::clone(rc)
}

} // verus!
