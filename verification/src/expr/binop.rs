use vstd::prelude::*;

use crate::expr::draws::{
    fair, lemma_binop_roll_bounds, lemma_expr_frame, lemma_fair_concat, lemma_inner_outcome,
};
use crate::expr::die::{draws_after, extends, faces_of, sides_of, FaceDraws};
use crate::expr::error::{in_i128, Error, Result};
use crate::expr::expr::Expr;
use crate::expr::inner::Inner;
use crate::expr::modifier::Modifier;
use crate::stats::{all_in_i128, combine, ints, Distribution};

verus! {

/// The two binary operators of the expression language.
#[derive(Clone, Copy, Debug, PartialEq, Eq, Structural)]
pub enum Op {
    Add,
    Sub,
}

impl Op {
    /// The operator on mathematical integers.
    pub open spec fn eval(self, a: int, b: int) -> int {
        match self {
            Op::Add => a + b,
            Op::Sub => a - b,
        }
    }

    /// Joins two expressions with this operator; the result is not repeated.
    pub fn apply(self, lhs: Expr, rhs: Expr) -> (e: Expr)
        ensures
            e == Expr::bin(self, lhs, rhs),
    {
        Expr {
            inner: Inner::BinOp(BinOp { lhs: Box::new(lhs), rhs: Box::new(rhs), op: self }),
            mods: Modifier::repeat(1),
        }
    }
}

/// Two expressions joined by an operator.
#[derive(Debug, PartialEq, Eq)]
pub struct BinOp {
    pub lhs: Box<Expr>,
    pub rhs: Box<Expr>,
    pub op: Op,
}

impl BinOp {
    /// An equal copy of the operation.
    pub fn copy(&self) -> (r: Self)
        ensures
            r == *self,
        decreases self,
    {
        BinOp { lhs: Box::new((*self.lhs).copy()), rhs: Box::new((*self.rhs).copy()), op: self.op }
    }

    pub fn add(lhs: Box<Expr>, rhs: Box<Expr>) -> (b: Self)
        ensures
            b == (BinOp { lhs, rhs, op: Op::Add }),
    {
        Self { lhs, rhs, op: Op::Add }
    }

    pub fn sub(lhs: Box<Expr>, rhs: Box<Expr>) -> (b: Self)
        ensures
            b == (BinOp { lhs, rhs, op: Op::Sub }),
    {
        Self { lhs, rhs, op: Op::Sub }
    }

    /// The smallest value the operation can roll.
    pub open spec fn min_spec(self) -> int
        decreases self,
    {
        match self.op {
            Op::Add => (*self.lhs).min_spec() + (*self.rhs).min_spec(),
            Op::Sub => (*self.lhs).min_spec() - (*self.rhs).max_spec(),
        }
    }

    /// The largest value the operation can roll.
    pub open spec fn max_spec(self) -> int
        decreases self,
    {
        match self.op {
            Op::Add => (*self.lhs).max_spec() + (*self.rhs).max_spec(),
            Op::Sub => (*self.lhs).max_spec() - (*self.rhs).min_spec(),
        }
    }

    /// Twice the expected value of a roll.
    pub open spec fn mean_twice(self) -> int
        decreases self,
    {
        self.op.eval((*self.lhs).mean_twice(), (*self.rhs).mean_twice())
    }

    /// Every value met while computing the minimum fits in `i128`.
    pub open spec fn min_fits(self) -> bool
        decreases self,
    {
        match self.op {
            Op::Add => (*self.lhs).min_fits() && (*self.rhs).min_fits() && in_i128(self.min_spec()),
            Op::Sub => (*self.lhs).min_fits() && (*self.rhs).max_fits() && in_i128(self.min_spec()),
        }
    }

    /// Every value met while computing the maximum fits in `i128`.
    pub open spec fn max_fits(self) -> bool
        decreases self,
    {
        match self.op {
            Op::Add => (*self.lhs).max_fits() && (*self.rhs).max_fits() && in_i128(self.max_spec()),
            Op::Sub => (*self.lhs).max_fits() && (*self.rhs).min_fits() && in_i128(self.max_spec()),
        }
    }

    /// Every way the two sides can combine, or `None` when a value leaves `i128`.
    pub open spec fn outcomes(self) -> Option<Seq<int>>
        decreases self,
    {
        match ((*self.lhs).outcomes(), (*self.rhs).outcomes()) {
            (Some(a), Some(b)) => {
                let c = combine(a, b, self.op);
                if all_in_i128(c) {
                    Some(c)
                } else {
                    None
                }
            },
            _ => None,
        }
    }

    pub fn distribution(&self) -> (r: Result<Distribution>)
        ensures
            r is Ok <==> self.outcomes() is Some,
            r matches Ok(d) ==> Some(ints(d@)) == self.outcomes(),
            r matches Err(e) ==> e == Error::Overflow,
        decreases self,
    {
        let lhs = self.lhs.distribution()?;
        let rhs = self.rhs.distribution()?;
        lhs.combine(&rhs, self.op)
    }

    /// How many faces a roll takes from a sequence of draws.
    pub open spec fn draw_count(self) -> nat
        decreases self,
    {
        (*self.lhs).draw_count() + (*self.rhs).draw_count()
    }

    /// The draws from `at` on are faces of the dice that take them: first
    /// those of the left side, then those of the right side.
    pub open spec fn draws_valid(self, fs: Seq<u32>, at: int) -> bool
        decreases self, 0nat,
    {
        (*self.lhs).draws_valid(fs, at) && (*self.rhs).draws_valid(fs, at + (*self.lhs).draw_count())
    }

    /// The value rolled with the draws from `at` on; `None` when a value
    /// leaves `i128`.
    pub open spec fn roll_value(self, fs: Seq<u32>, at: int) -> Option<int>
        decreases self, 0nat,
    {
        match ((*self.lhs).roll_value(fs, at), (*self.rhs).roll_value(fs, at + (*self.lhs).draw_count())) {
            (Some(a), Some(b)) => if in_i128(self.op.eval(a, b)) {
                Some(self.op.eval(a, b))
            } else {
                None
            },
            _ => None,
        }
    }

    /// Rolls with the draws from `at` on; gives the value and the position
    /// after the draws it took.
    pub fn roll_with(&self, faces: &[u32], at: usize) -> (r: Result<(i128, usize)>)
        requires
            at + self.draw_count() <= faces@.len(),
        ensures
            r is Ok <==> self.roll_value(faces@, at as int) is Some,
            r matches Ok((v, next)) ==> self.roll_value(faces@, at as int) == Some(v as int)
                && next == at + self.draw_count(),
            r matches Err(e) ==> e == Error::Overflow,
        decreases self,
    {
        let (lhs, mid) = self.lhs.roll_with(faces, at)?;
        let (rhs, next) = self.rhs.roll_with(faces, mid)?;
        let r = match self.op {
            Op::Add => lhs.checked_add(rhs),
            Op::Sub => lhs.checked_sub(rhs),
        };
        match r {
            Some(v) => Ok((v, next)),
            None => Err(Error::Overflow),
        }
    }

    /// `r` is what a roll gives with the draws `fs`: they are as many as the
    /// operation takes, faces of its dice, and `r` is their value, or
    /// `Overflow` where they have none.
    pub open spec fn rolled_by(self, r: Result<i128>, fs: Seq<u32>) -> bool {
        &&& fs.len() == self.draw_count()
        &&& self.draws_valid(fs, 0)
        &&& match r {
            Ok(v) => self.roll_value(fs, 0) == Some(v as int),
            Err(e) => e == Error::Overflow && self.roll_value(fs, 0) is None,
        }
    }

    /// The numbers of sides of the dice a roll draws for, in order: those
    /// of the left side, then those of the right side.
    pub open spec fn dice_sides(self) -> Seq<u32>
        decreases self,
    {
        (*self.lhs).dice_sides() + (*self.rhs).dice_sides()
    }

    /// Rolls the left side, then the right side, with faces drawn from
    /// `src`, and combines them with checked arithmetic. It draws once for
    /// each die, in order, over all its faces, and gives the value of those
    /// draws.
    pub fn roll_from(&self, src: &mut FaceDraws) -> (r: Result<i128>)
        ensures
            extends(old(src).drawn(), final(src).drawn()),
            sides_of(draws_after(old(src).drawn(), final(src).drawn())) == self.dice_sides(),
            fair(draws_after(old(src).drawn(), final(src).drawn())),
            self.rolled_by(r, faces_of(draws_after(old(src).drawn(), final(src).drawn()))),
        decreases self,
    {
        let ghost h0 = src.drawn();
        let lhs = self.lhs.roll_from(src);
        let ghost h1 = src.drawn();
        let rhs = self.rhs.roll_from(src);
        let ghost h2 = src.drawn();
        proof {
            let gl = draws_after(h0, h1);
            let gr = draws_after(h1, h2);
            let g = draws_after(h0, h2);
            let cl = (*self.lhs).draw_count() as int;
            let cr = (*self.rhs).draw_count() as int;
            assert(g =~= gl + gr);
            lemma_fair_concat(gl, gr);
            assert(h2.subrange(0, h0.len() as int) =~= h0);
            assert(sides_of(g) =~= sides_of(gl) + sides_of(gr));
            let fs = faces_of(g);
            assert(fs =~= faces_of(gl) + faces_of(gr));
            assert(fs.subrange(0, cl) =~= faces_of(gl).subrange(0, cl));
            assert(fs.subrange(cl, cl + cr) =~= faces_of(gr).subrange(0, cr));
            lemma_expr_frame(*self.lhs, fs, 0, faces_of(gl), 0);
            lemma_expr_frame(*self.rhs, fs, cl, faces_of(gr), 0);
        }
        match (lhs, rhs) {
            (Ok(a), Ok(b)) => {
                let r = match self.op {
                    Op::Add => a.checked_add(b),
                    Op::Sub => a.checked_sub(b),
                };
                match r {
                    Some(v) => Ok(v),
                    None => Err(Error::Overflow),
                }
            },
            _ => Err(Error::Overflow),
        }
    }

    /// Rolls the left side, then the right side, and combines them with
    /// checked arithmetic.
    pub fn roll(&self) -> (r: Result<i128>)
        ensures
            exists|fs: Seq<u32>| #[trigger] self.rolled_by(r, fs),
            r matches Ok(v) ==> self.min_spec() <= v <= self.max_spec(),
            r matches Ok(v) ==> (self.outcomes() is Some ==> self.outcomes()->0.contains(v as int)),
            self.min_fits() && self.max_fits() ==> r is Ok,
    {
        let mut src = FaceDraws::new();
        let r = self.roll_from(&mut src);
        proof {
            let fs = faces_of(draws_after(Seq::empty(), src.drawn()));
            assert(self.rolled_by(r, fs));
            lemma_binop_roll_bounds(*self, fs, 0);
            if r is Ok && self.outcomes() is Some {
                lemma_inner_outcome(Inner::BinOp(*self), fs, 0);
            }
        }
        r
    }

    pub fn min(&self) -> (r: Result<i128>)
        ensures
            r is Ok <==> self.min_fits(),
            r matches Ok(v) ==> v == self.min_spec(),
            r matches Err(e) ==> e == Error::Overflow,
        decreases self,
    {
        let r = match self.op {
            Op::Add => self.lhs.min()?.checked_add(self.rhs.min()?),
            Op::Sub => self.lhs.min()?.checked_sub(self.rhs.max()?),
        };
        match r {
            Some(v) => Ok(v),
            None => Err(Error::Overflow),
        }
    }

    pub fn max(&self) -> (r: Result<i128>)
        ensures
            r is Ok <==> self.max_fits(),
            r matches Ok(v) ==> v == self.max_spec(),
            r matches Err(e) ==> e == Error::Overflow,
        decreases self,
    {
        let r = match self.op {
            Op::Add => self.lhs.max()?.checked_add(self.rhs.max()?),
            Op::Sub => self.lhs.max()?.checked_sub(self.rhs.min()?),
        };
        match r {
            Some(v) => Ok(v),
            None => Err(Error::Overflow),
        }
    }
}

impl Clone for BinOp {
    fn clone(&self) -> (r: Self)
        ensures
            r == *self,
    {
        self.copy()
    }
}

} // verus!
