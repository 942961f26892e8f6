use vstd::prelude::*;

verus! {

/// Failures of expression evaluation.
#[derive(Debug, Clone, PartialEq, Eq)]
pub enum EvalError {
    /// A variable with no value in the environment; carries the variable's name.
    UnknownVar(String),
    /// A division whose divisor is zero.
    DivByZero,
}

} // verus!
