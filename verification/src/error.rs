use vstd::prelude::*;

verus! {

/// What can be wrong with a set of exposures.
///
/// Only the arguments a caller takes from its own user are reported this way.
/// A buffer whose length contradicts the dimensions passed with it stays a
/// precondition, because nothing downstream can do anything about it.
#[derive(Clone, Copy, Debug, PartialEq, Eq)]
pub enum Error {
    /// Two exposures are not the same size.
    SizeMismatch { reference: (usize, usize), target: (usize, usize) },
    /// The chosen reference is not one of the exposures.
    NoSuchReference { reference: usize, exposures: usize },
}

} // verus!
