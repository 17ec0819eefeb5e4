//! Metric-space objects.
use vstd::prelude::*;

verus! {

/// Wrapper that gives an object set the Euclidean distance, the square
/// root of the summed squared differences of corresponding coordinates.
#[derive(Debug, Clone)]
pub struct Euclidean<T>(T);

impl<T> Euclidean<T> {
    /// The wrapped coordinates.
    pub closed spec fn coords(&self) -> T {
        self.0
    }

    /// Creates a new `Euclidean`.
    pub fn new(t: T) -> (r: Self)
        ensures
            r.coords() == t,
    {
        Euclidean(t)
    }

    /// The wrapped coordinates.
    pub fn get(&self) -> (r: &T)
        ensures
            *r == self.coords(),
    {
        &self.0
    }

    /// Unwraps the coordinates.
    pub fn into_inner(self) -> (r: T)
        ensures
            r == self.coords(),
    {
        self.0
    }
}

} // verus!
