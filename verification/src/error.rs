//! The library's error type: a message describing what went wrong.
use vstd::prelude::*;

verus! {

/// An error of the aggregator, carrying its description.
#[derive(Clone, Debug)]
pub struct ObaggError(pub String);

impl ObaggError {
    /// The error's description.
    pub fn message(&self) -> (r: &String)
        ensures
            r@ == self.0@,
    {
        &self.0
    }
}

} // verus!
