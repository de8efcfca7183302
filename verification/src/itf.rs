//! The transparent marker around a decoded value.

use vstd::prelude::*;

verus! {

/// Marks a value as having come out of trace decoding. It holds the value and
/// nothing else.
#[derive(Clone, Copy, Debug, Default, PartialEq, Eq, PartialOrd, Ord, Hash)]
pub struct Itf<T>(pub T);

impl<T> Itf<T> {
    /// Wraps a value.
    pub fn new(t: T) -> (r: Self)
        ensures
            r.0 == t,
    {
        Itf(t)
    }

    /// Unwraps the marker and hands the value out.
    pub fn value(self) -> (r: T)
        ensures
            r == self.0,
    {
        self.0
    }

    /// Read access to the value inside.
    pub fn get(&self) -> (r: &T)
        ensures
            *r == self.0,
    {
        &self.0
    }
}

impl<T> From<T> for Itf<T> {
    fn from(t: T) -> (r: Self) {
        Itf(t)
    }
}

impl<T> vstd::std_specs::convert::FromSpecImpl<T> for Itf<T> {
    open spec fn obeys_from_spec() -> bool {
        true
    }

    open spec fn from_spec(t: T) -> Self {
        Itf(t)
    }
}

} // verus!
