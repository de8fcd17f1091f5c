use vstd::prelude::*;

use crate::expr::error::{Error, Result};

verus! {

/// How often the inner expression is rolled and summed.
#[derive(Clone, Copy, Debug, PartialEq, Eq, Structural)]
pub struct Modifier {
    pub repeat: u32,
}

impl Modifier {
    pub fn repeat(n: u32) -> (m: Self)
        ensures
            m.repeat == n,
    {
        Self { repeat: n }
    }

    /// Combines two repeat counts by multiplying them.
    pub fn merge(self, other: Self) -> (r: Result<Self>)
        ensures
            r is Ok <==> other.repeat * self.repeat <= u32::MAX,
            r matches Ok(m) ==> m.repeat == other.repeat * self.repeat,
            r matches Err(e) ==> e == Error::Overflow,
    {
        match other.repeat.checked_mul(self.repeat) {
            Some(v) => Ok(Self { repeat: v }),
            None => Err(Error::Overflow),
        }
    }
}

} // verus!
