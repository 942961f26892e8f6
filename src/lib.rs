pub mod expr;
pub mod lu;
pub mod matrix_dense;
pub mod matrix_dense_access;
pub mod root_finding;
pub mod units;

use vstd::prelude::*;

verus! {

/// Sum of two unsigned integers; the caller keeps the sum within `u64`.
pub fn add(left: u64, right: u64) -> (r: u64)
    requires
        left + right <= u64::MAX,
    ensures
        r == left + right,
{
    left + right
}

} // verus!
