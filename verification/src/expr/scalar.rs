use vstd::prelude::*;

use crate::expr::error::{Error, Result};
use crate::stats::{ints, Distribution};

verus! {

/// A constant term.
#[derive(Clone, Copy, Debug, PartialEq, Eq, Structural)]
pub struct Scalar(pub i32);

impl Scalar {
    pub fn new(v: i32) -> (s: Self)
        ensures
            s.0 == v,
    {
        Self(v)
    }

    pub fn value(self) -> (v: i32)
        ensures
            v == self.0,
    {
        self.0
    }

    /// A constant always rolls its own value.
    pub fn roll(self) -> (v: i32)
        ensures
            v == self.0,
    {
        self.0
    }

    /// The single outcome of a constant.
    pub fn distribution(&self) -> (r: Result<Distribution>)
        ensures
            r matches Ok(d) && ints(d@) == seq![self.0 as int],
    {
        let mut out: Vec<i128> = Vec::new();
        out.push(self.0 as i128);
        assert(ints(out@) =~= seq![self.0 as int]);
        Ok(Distribution(out))
    }

    pub fn min(&self) -> (r: Result<i128>)
        ensures
            r == Ok::<i128, Error>(self.0 as i128),
    {
        Ok(self.0 as i128)
    }

    pub fn max(&self) -> (r: Result<i128>)
        ensures
            r == Ok::<i128, Error>(self.0 as i128),
    {
        Ok(self.0 as i128)
    }
}

} // verus!
