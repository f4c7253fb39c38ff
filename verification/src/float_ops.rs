//! Operations of the float propagators.
use vstd::prelude::*;

verus! {

/// Posts `c = min(a, b)` or `c = max(a, b)` on floats.
#[derive(Clone, Copy, Debug, PartialEq, Eq, Structural)]
pub enum FloatMinMaxOp {
    /// The smaller operand.
    Min,
    /// The larger operand.
    Max,
}

/// Binary float operation of a float binary propagator.
#[derive(Clone, Copy, Debug)]
pub enum FloatBinaryOp {
    /// `c = a + b`.
    Plus,
    /// `c = a / b`.
    Div,
}

/// Unary float operation of a float unary propagator.
#[derive(Clone, Copy, Debug)]
pub enum FloatUnaryOp {
    /// Absolute value.
    Abs,
    /// Square root.
    Sqrt,
    /// Sine.
    Sin,
    /// Cosine.
    Cos,
    /// Rounding up.
    Ceil,
    /// Rounding down.
    Floor,
    /// Rounding to nearest.
    Round,
    /// Natural logarithm.
    Ln,
    /// Exponential.
    Exp,
}

} // verus!
