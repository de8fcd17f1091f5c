use vstd::prelude::*;

use crate::expr::binop::BinOp;
use crate::expr::die::{draws_after, extends, faces_of, sides_of, Die, FaceDraws};
use crate::expr::draws::{fair, lemma_inner_outcome, lemma_inner_roll_bounds};
use crate::expr::error::{Error, Result};
use crate::expr::scalar::Scalar;
use crate::stats::{ints, Distribution};

verus! {

/// What an expression is made of, before its repeat count.
#[derive(Debug, PartialEq, Eq)]
pub enum Inner {
    BinOp(BinOp),
    Die(Die),
    Scalar(Scalar),
}

impl Inner {
    pub open spec fn min_spec(self) -> int
        decreases self,
    {
        match self {
            Inner::BinOp(b) => b.min_spec(),
            Inner::Die(d) => d.min_spec(),
            Inner::Scalar(s) => s.0 as int,
        }
    }

    pub open spec fn max_spec(self) -> int
        decreases self,
    {
        match self {
            Inner::BinOp(b) => b.max_spec(),
            Inner::Die(d) => d.max_spec(),
            Inner::Scalar(s) => s.0 as int,
        }
    }

    /// Twice the expected value of a roll.
    pub open spec fn mean_twice(self) -> int
        decreases self,
    {
        match self {
            Inner::BinOp(b) => b.mean_twice(),
            Inner::Die(d) => d.mean_twice(),
            Inner::Scalar(s) => 2 * s.0,
        }
    }

    pub open spec fn min_fits(self) -> bool
        decreases self,
    {
        match self {
            Inner::BinOp(b) => b.min_fits(),
            _ => true,
        }
    }

    pub open spec fn max_fits(self) -> bool
        decreases self,
    {
        match self {
            Inner::BinOp(b) => b.max_fits(),
            _ => true,
        }
    }

    /// An equal copy of the term.
    pub fn copy(&self) -> (r: Self)
        ensures
            r == *self,
        decreases self,
    {
        match self {
            Inner::BinOp(b) => Inner::BinOp(b.copy()),
            Inner::Die(d) => Inner::Die(*d),
            Inner::Scalar(s) => Inner::Scalar(*s),
        }
    }

    pub fn as_binop(&self) -> (r: Option<&BinOp>)
        ensures
            r is Some <==> self is BinOp,
            r matches Some(b) ==> *self == Inner::BinOp(*b),
    {
        match self {
            Inner::BinOp(binop) => Some(binop),
            _ => None,
        }
    }

    pub fn into_binop(self) -> (r: core::result::Result<BinOp, Self>)
        ensures
            match self {
                Inner::BinOp(b) => r == Ok::<BinOp, Inner>(b),
                _ => r == Err::<BinOp, Inner>(self),
            },
    {
        match self {
            Inner::BinOp(binop) => Ok(binop),
            _ => Err(self),
        }
    }

    pub fn as_die(&self) -> (r: Option<&Die>)
        ensures
            r is Some <==> self is Die,
            r matches Some(d) ==> *self == Inner::Die(*d),
    {
        match self {
            Inner::Die(die) => Some(die),
            _ => None,
        }
    }

    pub fn into_die(self) -> (r: core::result::Result<Die, Self>)
        ensures
            match self {
                Inner::Die(d) => r == Ok::<Die, Inner>(d),
                _ => r == Err::<Die, Inner>(self),
            },
    {
        match self {
            Inner::Die(die) => Ok(die),
            _ => Err(self),
        }
    }

    pub fn as_scalar(&self) -> (r: Option<&Scalar>)
        ensures
            r is Some <==> self is Scalar,
            r matches Some(s) ==> *self == Inner::Scalar(*s),
    {
        match self {
            Inner::Scalar(scalar) => Some(scalar),
            _ => None,
        }
    }

    pub fn into_scalar(self) -> (r: core::result::Result<Scalar, Self>)
        ensures
            match self {
                Inner::Scalar(s) => r == Ok::<Scalar, Inner>(s),
                _ => r == Err::<Scalar, Inner>(self),
            },
    {
        match self {
            Inner::Scalar(scalar) => Ok(scalar),
            _ => Err(self),
        }
    }

    /// Every way the term can roll, or `None` when a value leaves `i128`.
    pub open spec fn outcomes(self) -> Option<Seq<int>>
        decreases self,
    {
        match self {
            Inner::BinOp(b) => b.outcomes(),
            Inner::Die(d) => Some(d.outcomes()),
            Inner::Scalar(s) => Some(seq![s.0 as int]),
        }
    }

    pub fn distribution(&self) -> (r: Result<Distribution>)
        ensures
            r is Ok <==> self.outcomes() is Some,
            r matches Ok(d) ==> Some(ints(d@)) == self.outcomes(),
            r matches Err(e) ==> e == Error::Overflow,
        decreases self,
    {
        match self {
            Inner::BinOp(binop) => binop.distribution(),
            Inner::Die(die) => die.distribution(),
            Inner::Scalar(scalar) => scalar.distribution(),
        }
    }

    /// How many faces a roll takes from a sequence of draws.
    pub open spec fn draw_count(self) -> nat
        decreases self,
    {
        match self {
            Inner::BinOp(b) => b.draw_count(),
            Inner::Die(d) => d.draw_count(),
            Inner::Scalar(_) => 0,
        }
    }

    /// The draws from `at` on are faces of the dice that take them.
    pub open spec fn draws_valid(self, fs: Seq<u32>, at: int) -> bool
        decreases self, 0nat,
    {
        match self {
            Inner::BinOp(b) => b.draws_valid(fs, at),
            Inner::Die(d) => d.draws_valid(fs, at),
            Inner::Scalar(_) => true,
        }
    }

    /// The value rolled with the draws from `at` on; `None` when a value
    /// leaves `i128`.
    pub open spec fn roll_value(self, fs: Seq<u32>, at: int) -> Option<int>
        decreases self, 0nat,
    {
        match self {
            Inner::BinOp(b) => b.roll_value(fs, at),
            Inner::Die(d) => Some(d.roll_value(fs, at)),
            Inner::Scalar(s) => Some(s.0 as int),
        }
    }

    /// Rolls with the draws from `at` on; gives the value and the position
    /// after the draws it took.
    pub fn roll_with(&self, faces: &[u32], at: usize) -> (r: Result<(i128, usize)>)
        requires
            at + self.draw_count() <= faces@.len(),
        ensures
            r is Ok <==> self.roll_value(faces@, at as int) is Some,
            r matches Ok((v, next)) ==> self.roll_value(faces@, at as int) == Some(v as int)
                && next == at + self.draw_count(),
            r matches Err(e) ==> e == Error::Overflow,
        decreases self,
    {
        match self {
            Inner::BinOp(binop) => binop.roll_with(faces, at),
            Inner::Die(die) => {
                let (face, next) = die.roll_with(faces, at);
                Ok((face as i128, next))
            },
            Inner::Scalar(scalar) => Ok((scalar.roll() as i128, at)),
        }
    }

    /// `r` is what a roll gives with the draws `fs`: they are as many as the
    /// term takes, faces of its dice, and `r` is their value, or `Overflow`
    /// where they have none.
    pub open spec fn rolled_by(self, r: Result<i128>, fs: Seq<u32>) -> bool {
        &&& fs.len() == self.draw_count()
        &&& self.draws_valid(fs, 0)
        &&& match r {
            Ok(v) => self.roll_value(fs, 0) == Some(v as int),
            Err(e) => e == Error::Overflow && self.roll_value(fs, 0) is None,
        }
    }

    /// The numbers of sides of the dice a roll draws for, in order.
    pub open spec fn dice_sides(self) -> Seq<u32>
        decreases self,
    {
        match self {
            Inner::BinOp(b) => b.dice_sides(),
            Inner::Die(d) => d.dice_sides(),
            Inner::Scalar(_) => seq![],
        }
    }

    /// Rolls the term with faces drawn from `src`: it draws once for each
    /// die, in order, over all its faces, and gives the value of those draws.
    pub fn roll_from(&self, src: &mut FaceDraws) -> (r: Result<i128>)
        ensures
            extends(old(src).drawn(), final(src).drawn()),
            sides_of(draws_after(old(src).drawn(), final(src).drawn())) == self.dice_sides(),
            fair(draws_after(old(src).drawn(), final(src).drawn())),
            self.rolled_by(r, faces_of(draws_after(old(src).drawn(), final(src).drawn()))),
        decreases self,
    {
        match self {
            Inner::BinOp(binop) => binop.roll_from(src),
            Inner::Die(die) => Ok(die.roll_from(src) as i128),
            Inner::Scalar(scalar) => {
                let ghost h0 = src.drawn();
                proof {
                    assert(draws_after(h0, h0) =~= Seq::<(u32, u32)>::empty());
                    assert(sides_of(draws_after(h0, h0)) =~= self.dice_sides());
                    assert(h0.subrange(0, h0.len() as int) =~= h0);
                    assert(faces_of(draws_after(h0, h0)) =~= Seq::<u32>::empty());
                }
                Ok(scalar.roll() as i128)
            },
        }
    }

    /// Rolls the term: its operation, its die or its constant.
    pub fn roll(&self) -> (r: Result<i128>)
        ensures
            exists|fs: Seq<u32>| #[trigger] self.rolled_by(r, fs),
            r matches Ok(v) ==> self.min_spec() <= v <= self.max_spec(),
            r matches Ok(v) ==> (self.outcomes() is Some ==> self.outcomes()->0.contains(v as int)),
            self.min_fits() && self.max_fits() ==> r is Ok,
    {
        let mut src = FaceDraws::new();
        let r = self.roll_from(&mut src);
        proof {
            let fs = faces_of(draws_after(Seq::empty(), src.drawn()));
            assert(self.rolled_by(r, fs));
            lemma_inner_roll_bounds(*self, fs, 0);
            if r is Ok && self.outcomes() is Some {
                lemma_inner_outcome(*self, fs, 0);
            }
        }
        r
    }

    pub fn min(&self) -> (r: Result<i128>)
        ensures
            r is Ok <==> self.min_fits(),
            r matches Ok(v) ==> v == self.min_spec(),
            r matches Err(e) ==> e == Error::Overflow,
        decreases self,
    {
        match self {
            Inner::BinOp(binop) => binop.min(),
            Inner::Die(die) => die.min(),
            Inner::Scalar(scalar) => scalar.min(),
        }
    }

    pub fn max(&self) -> (r: Result<i128>)
        ensures
            r is Ok <==> self.max_fits(),
            r matches Ok(v) ==> v == self.max_spec(),
            r matches Err(e) ==> e == Error::Overflow,
        decreases self,
    {
        match self {
            Inner::BinOp(binop) => binop.max(),
            Inner::Die(die) => die.max(),
            Inner::Scalar(scalar) => scalar.max(),
        }
    }
}

impl From<BinOp> for Inner {
    fn from(b: BinOp) -> (r: Inner) {
        Inner::BinOp(b)
    }
}

impl vstd::std_specs::convert::FromSpecImpl<BinOp> for Inner {
    open spec fn obeys_from_spec() -> bool {
        true
    }

    open spec fn from_spec(b: BinOp) -> Inner {
        Inner::BinOp(b)
    }
}

impl From<Die> for Inner {
    fn from(d: Die) -> (r: Inner) {
        Inner::Die(d)
    }
}

impl vstd::std_specs::convert::FromSpecImpl<Die> for Inner {
    open spec fn obeys_from_spec() -> bool {
        true
    }

    open spec fn from_spec(d: Die) -> Inner {
        Inner::Die(d)
    }
}

impl From<Scalar> for Inner {
    fn from(v: Scalar) -> (r: Inner) {
        Inner::Scalar(v)
    }
}

impl vstd::std_specs::convert::FromSpecImpl<Scalar> for Inner {
    open spec fn obeys_from_spec() -> bool {
        true
    }

    open spec fn from_spec(v: Scalar) -> Inner {
        Inner::Scalar(v)
    }
}

impl Clone for Inner {
    fn clone(&self) -> (r: Self)
        ensures
            r == *self,
    {
        self.copy()
    }
}

} // verus!
