use vstd::prelude::*;

verus! {

/// Failures of the root finders.
#[derive(Debug, Clone, Copy, PartialEq, Eq, Structural)]
pub enum RootError {
    /// f(a) and f(b) have the same sign on [a, b], so no root is guaranteed there.
    NoSignChange,
    /// No root was reached within the given number of iterations.
    NoConvergence,
}

} // verus!
