use vstd::prelude::*;

verus! {

/// Units of length.
#[derive(Debug, Clone, Copy, PartialEq, Eq, Structural)]
pub enum LengthUnit {
    Meter,
    Centimeter,
    Kilometer,
}

/// Failures of quantity arithmetic.
#[derive(Debug, Clone, Copy, PartialEq, Eq, Structural)]
pub enum QuantityError {
    /// The two quantities do not share a unit.
    IncompatibleUnits,
}

} // verus!
