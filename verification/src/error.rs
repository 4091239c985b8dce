//! The ways a tool can decline to produce a value.
use vstd::prelude::*;

verus! {

/// Why a tool produced no value.
#[derive(Debug, Clone, Copy, PartialEq, Eq, Structural)]
pub enum ToolError {
    /// The divisor is zero (`error: division by zero`).
    DivisionByZero,
    /// The result, or a value its computation passes through, does not fit
    /// its machine integer (`error: overflow`).
    Overflow,
    /// The argument is above the largest one supported, which is carried
    /// (`error: n must be ≤ …`).
    ArgumentTooLarge(u64),
    /// A shift of 64 bits or more (`error: shift ≥ 64`).
    ShiftTooLarge,
    /// The total of a multinomial is above 34 (`error: n too large`).
    TotalTooLarge,
}

} // verus!
