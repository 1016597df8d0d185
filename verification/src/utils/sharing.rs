//! Shared values.

use std::rc::Rc;

use vstd::prelude::*;

verus! {

/// `std::rc::Rc::ptr_eq`: two pointers to one allocation point to equal
/// values. Of pointers to different allocations nothing is claimed.
#[verifier::external_body]
pub(crate) fn same_cell<T>(x: &Rc<T>, y: &Rc<T>) -> (r: bool)
    ensures
        r ==> *x == *y,
{
    Rc::ptr_eq(x, y)
}

/// Asked whether the two pointers are one allocation, `same_cell` may give
/// this answer.
pub closed spec fn told<T>(x: Rc<T>, y: Rc<T>, one: bool) -> bool {
    call_ensures(same_cell::<T>, (&x, &y), one)
}

/// Are the two pointers one allocation?
pub(crate) fn is_cell<T>(x: &Rc<T>, y: &Rc<T>) -> (r: bool)
    ensures
        r ==> *x == *y,
        told(*x, *y, r),
{
    same_cell(x, y)
}

} // verus!
