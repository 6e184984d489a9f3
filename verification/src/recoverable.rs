//! Values that are read in isolation, so that a failure to read one does not
//! affect the data structure around it.
//!
//! A recoverable value is written as a newtype struct of the name
//! [`NEWTYPE_NAME`]; where nothing else bounds it, a block encloses it, so
//! that a reader that fails partway can skip to its end. The reader then
//! takes a replacement from a recovery policy.

use vstd::prelude::*;

use std::marker::PhantomData;
use vstd::std_specs::convert::FromSpec;

verus! {

/// The name of the newtype struct a recoverable value is written as.
pub const NEWTYPE_NAME: &'static str = "$postbag::recoverable::Recoverable";

/// Recovery policy that replaces a value that failed to deserialize by its
/// default.
///
/// This is the default policy of [`Recoverable`].
pub struct RecoverDefault;

/// A value that is deserialized in isolation, so that a failure to
/// deserialize it does not affect the enclosing data structure.
pub struct Recoverable<T, P> {
    value: T,
    recovered: bool,
    _policy: PhantomData<P>,
}

impl<T, P> View for Recoverable<T, P> {
    /// The value, and whether a recovery policy provided it.
    type V = (T, bool);

    closed spec fn view(&self) -> (T, bool) {
        (self.value, self.recovered)
    }
}

impl<T, P> Recoverable<T, P> {
    /// Wraps the value.
    pub fn new(value: T) -> (r: Self)
        ensures
            r@ == (value, false),
    {
        Self { value, recovered: false, _policy: PhantomData }
    }

    /// Wraps a value provided by the recovery policy.
    pub fn recovered(value: T) -> (r: Self)
        ensures
            r@ == (value, true),
    {
        Self { value, recovered: true, _policy: PhantomData }
    }

    /// Returns the contained value.
    pub fn into_inner(this: Self) -> (r: T)
        ensures
            r == this@.0,
    {
        this.value
    }

    /// Whether the value was provided by the recovery policy because
    /// deserialization of the contained value failed.
    ///
    /// Always `false` for a value that was not deserialized.
    pub fn is_recovered(this: &Self) -> (r: bool)
        ensures
            r == this@.1,
    {
        this.recovered
    }

    /// The contained value.
    pub fn get(&self) -> (r: &T)
        ensures
            *r == self@.0,
    {
        &self.value
    }

    /// The contained value, to change in place; whether it was recovered
    /// stays as it was.
    pub fn get_mut(&mut self) -> (r: &mut T)
        ensures
            *r == old(self)@.0,
            final(self)@ == (*final(r), old(self)@.1),
    {
        &mut self.value
    }
}

impl<T, P> From<T> for Recoverable<T, P> {
    /// Wraps the value, as [`Recoverable::new`] does.
    fn from(value: T) -> (r: Self)
        ensures
            r@ == (value, false),
    {
        Self { value, recovered: false, _policy: PhantomData }
    }
}

impl<T, P> vstd::std_specs::convert::FromSpecImpl<T> for Recoverable<T, P> {
    open spec fn obeys_from_spec() -> bool {
        true
    }

    closed spec fn from_spec(v: T) -> Self {
        Recoverable { value: v, recovered: false, _policy: PhantomData }
    }
}

/// A value converted into a recoverable one is the value itself, not one
/// that a recovery policy provided: the conversion gives what
/// [`Recoverable::new`] gives.
pub proof fn converted_is_not_recovered<T, P>(value: T)
    ensures
        (<Recoverable<T, P> as FromSpec<T>>::from_spec(value))@ == (value, false),
{
}

/// Applies a recovery policy to a field, leaving its type unchanged.
pub struct With<P>(PhantomData<P>);

} // verus!
