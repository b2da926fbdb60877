//! The capabilities every key, owner and value of the store must offer:
//! a mathematical view, equality that agrees with the view, and copying.

use vstd::prelude::*;

verus! {

/// A value that can be compared and copied, both in agreement with its view.
pub trait Data: View + Sized {
    /// Whether `self` and `other` denote the same value.
    fn same(&self, other: &Self) -> (r: bool)
        ensures
            r == (self@ == other@),
    ;

    /// An independent copy denoting the same value.
    fn duplicate(&self) -> (r: Self)
        ensures
            r@ == self@,
    ;
}

impl Data for () {
    fn same(&self, other: &Self) -> (r: bool) {
        true
    }

    fn duplicate(&self) -> (r: Self) {
        ()
    }
}

impl Data for u128 {
    fn same(&self, other: &Self) -> (r: bool) {
        *self == *other
    }

    fn duplicate(&self) -> (r: Self) {
        *self
    }
}

impl Data for String {
    fn same(&self, other: &Self) -> (r: bool) {
        *self == *other
    }

    fn duplicate(&self) -> (r: Self) {
        self.clone()
    }
}

} // verus!
