//! Integers written at their full width, least significant byte first,
//! rather than as varints.

use vstd::prelude::*;

verus! {

/// An integer written at its full width rather than as a varint.
pub struct Fixint<T>(pub T);

impl<T> Fixint<T> {
    /// Wraps the integer.
    pub fn new(value: T) -> (r: Self)
        ensures
            r.0 == value,
    {
        Self(value)
    }

    /// Returns the integer.
    pub fn into_inner(self) -> (r: T)
        ensures
            r == self.0,
    {
        self.0
    }
}

impl<T> From<T> for Fixint<T> {
    fn from(value: T) -> (r: Self) {
        Self(value)
    }
}

impl<T> vstd::std_specs::convert::FromSpecImpl<T> for Fixint<T> {
    open spec fn obeys_from_spec() -> bool {
        true
    }

    open spec fn from_spec(v: T) -> Self {
        Fixint(v)
    }
}

} // verus!
