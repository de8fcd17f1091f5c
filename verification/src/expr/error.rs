use vstd::prelude::*;

verus! {

/// What can go wrong while evaluating an expression.
#[derive(Clone, Copy, Debug, PartialEq, Eq, Structural)]
pub enum Error {
    /// An intermediate value left the range of its integer type.
    Overflow,
    /// A distribution without outcomes has no minimum or maximum.
    EmptyDistribution,
}

pub type Result<T> = core::result::Result<T, Error>;

/// True when `x` is a value of `i128`.
pub open spec fn in_i128(x: int) -> bool {
    i128::MIN <= x <= i128::MAX
}

} // verus!
