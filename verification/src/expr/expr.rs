use vstd::prelude::*;

use crate::expr::binop::{BinOp, Op};
use crate::expr::die::{draws_after, extends, faces_of, sides_of, Die, FaceDraws};
use crate::expr::draws::{
    fair, lemma_expr_roll_bounds, lemma_fair_concat, lemma_inner_frame, lemma_roll_is_outcome, lemma_rolls_frame,
    lemma_between_products, lemma_split_product,
};
use crate::expr::error::{in_i128, Error, Result};
use crate::expr::inner::Inner;
use crate::expr::modifier::Modifier;
use crate::expr::parser::{parse, parse_text, text_error, ParseError};
use crate::expr::scalar::Scalar;
use crate::stats::{
    all_in_i128, combine, ints, lemma_combine_contains, lemma_combine_within, lemma_n_fold_none,
    lemma_n_fold_within, n_fold, within, Distribution,
};

verus! {

/// A dice expression: an inner term rolled `mods.repeat` times and summed.
#[derive(Debug, PartialEq, Eq)]
pub struct Expr {
    pub inner: Inner,
    pub mods: Modifier,
}

impl Expr {
    /// The expression `lhs op rhs`, rolled once.
    pub open spec fn bin(op: Op, lhs: Expr, rhs: Expr) -> Expr {
        Expr {
            inner: Inner::BinOp(BinOp { lhs: Box::new(lhs), rhs: Box::new(rhs), op }),
            mods: Modifier { repeat: 1 },
        }
    }

    /// A single die with `sides` faces.
    pub open spec fn die_spec(sides: u32) -> Expr {
        Expr { inner: Inner::Die(Die { sides }), mods: Modifier { repeat: 1 } }
    }

    /// The constant `v`.
    pub open spec fn scalar_spec(v: i32) -> Expr {
        Expr { inner: Inner::Scalar(Scalar(v)), mods: Modifier { repeat: 1 } }
    }

    /// The smallest value the expression can roll.
    pub open spec fn min_spec(self) -> int
        decreases self,
    {
        self.inner.min_spec() * self.mods.repeat
    }

    /// The largest value the expression can roll.
    pub open spec fn max_spec(self) -> int
        decreases self,
    {
        self.inner.max_spec() * self.mods.repeat
    }

    /// Twice the expected value of a roll; the mean of a repeated term is
    /// the repeat count times the mean of the term.
    pub open spec fn mean_twice(self) -> int
        decreases self,
    {
        self.inner.mean_twice() * self.mods.repeat
    }

    /// Every value met while computing the minimum fits in `i128`.
    pub open spec fn min_fits(self) -> bool
        decreases self,
    {
        self.inner.min_fits() && in_i128(self.min_spec())
    }

    /// Every value met while computing the maximum fits in `i128`.
    pub open spec fn max_fits(self) -> bool
        decreases self,
    {
        self.inner.max_fits() && in_i128(self.max_spec())
    }

    /// An equal copy of the expression.
    pub fn copy(&self) -> (e: Self)
        ensures
            e == *self,
        decreases self,
    {
        Expr { inner: self.inner.copy(), mods: self.mods }
    }

    pub fn die(sides: u32) -> (e: Self)
        ensures
            e == Expr::die_spec(sides),
    {
        Expr { inner: Inner::Die(Die::new(sides)), mods: Modifier::repeat(1) }
    }

    pub fn scalar(v: i32) -> (e: Self)
        ensures
            e == Expr::scalar_spec(v),
    {
        Expr { inner: Inner::Scalar(Scalar::new(v)), mods: Modifier::repeat(1) }
    }

    /// Multiplies the repeat count by `n`.
    pub fn repeat(self, n: u32) -> (r: Result<Self>)
        ensures
            r is Ok <==> n * self.mods.repeat <= u32::MAX,
            r matches Ok(e) ==> e.inner == self.inner && e.mods.repeat == n * self.mods.repeat,
            r matches Err(err) ==> err == Error::Overflow,
    {
        let mods = self.mods.merge(Modifier::repeat(n))?;
        Ok(Self { inner: self.inner, mods })
    }

    pub fn as_binop(&self) -> (r: Option<&BinOp>)
        ensures
            r is Some <==> self.inner is BinOp,
            r matches Some(b) ==> self.inner == Inner::BinOp(*b),
    {
        self.inner.as_binop()
    }

    /// The operation inside, or the expression unchanged.
    pub fn into_binop(self) -> (r: core::result::Result<BinOp, Self>)
        ensures
            match self.inner {
                Inner::BinOp(b) => r == Ok::<BinOp, Expr>(b),
                _ => r == Err::<BinOp, Expr>(self),
            },
    {
        let mods = self.mods;
        match self.inner.into_binop() {
            Ok(b) => Ok(b),
            Err(inner) => Err(Self { inner, mods }),
        }
    }

    pub fn as_die(&self) -> (r: Option<&Die>)
        ensures
            r is Some <==> self.inner is Die,
            r matches Some(d) ==> self.inner == Inner::Die(*d),
    {
        self.inner.as_die()
    }

    /// The die inside, or the expression unchanged.
    pub fn into_die(self) -> (r: core::result::Result<Die, Self>)
        ensures
            match self.inner {
                Inner::Die(d) => r == Ok::<Die, Expr>(d),
                _ => r == Err::<Die, Expr>(self),
            },
    {
        let mods = self.mods;
        match self.inner.into_die() {
            Ok(d) => Ok(d),
            Err(inner) => Err(Self { inner, mods }),
        }
    }

    pub fn as_scalar(&self) -> (r: Option<&Scalar>)
        ensures
            r is Some <==> self.inner is Scalar,
            r matches Some(s) ==> self.inner == Inner::Scalar(*s),
    {
        self.inner.as_scalar()
    }

    /// The constant inside, or the expression unchanged.
    pub fn into_scalar(self) -> (r: core::result::Result<Scalar, Self>)
        ensures
            match self.inner {
                Inner::Scalar(s) => r == Ok::<Scalar, Expr>(s),
                _ => r == Err::<Scalar, Expr>(self),
            },
    {
        let mods = self.mods;
        match self.inner.into_scalar() {
            Ok(s) => Ok(s),
            Err(inner) => Err(Self { inner, mods }),
        }
    }

    /// Every sum of `repeat` rolls of the term; `None` when a value leaves `i128`.
    pub open spec fn outcomes(self) -> Option<Seq<int>>
        decreases self,
    {
        match self.inner.outcomes() {
            Some(d) => n_fold(d, self.mods.repeat as nat),
            None => None,
        }
    }

    pub fn distribution(&self) -> (r: Result<Distribution>)
        ensures
            r is Ok <==> self.outcomes() is Some,
            r matches Ok(d) ==> Some(ints(d@)) == self.outcomes(),
            r matches Err(e) ==> e == Error::Overflow,
        decreases self,
    {
        let term = self.inner.distribution()?;
        let ghost d = ints(term@);
        let mut start: Vec<i128> = Vec::new();
        start.push(0);
        let mut distr = Distribution(start);
        assert(ints(distr@) =~= seq![0]);
        let n = self.mods.repeat;
        let mut k: u32 = 0;
        while k < n
            invariant
                k <= n,
                n == self.mods.repeat,
                self.inner.outcomes() == Some(d),
                d == ints(term@),
                n_fold(d, k as nat) == Some(ints(distr@)),
            decreases n - k,
        {
            match distr.combine(&term, Op::Add) {
                Ok(next) => {
                    distr = next;
                },
                Err(e) => {
                    proof {
                        lemma_n_fold_none(d, (k + 1) as nat, n as nat);
                    }
                    return Err(e);
                },
            }
            k = k + 1;
        }
        Ok(distr)
    }

    /// How many faces a roll takes from a sequence of draws: those of each
    /// roll of the term in turn.
    pub open spec fn draw_count(self) -> nat
        decreases self,
    {
        self.inner.draw_count() * (self.mods.repeat as nat)
    }

    /// The draws from `at` on are faces of the dice that take them.
    pub open spec fn draws_valid(self, fs: Seq<u32>, at: int) -> bool
        decreases self, 0nat,
    {
        rolls_valid(self.inner, fs, at, self.mods.repeat as nat)
    }

    /// The value rolled with the draws from `at` on: the sum of `repeat`
    /// rolls of the term, each with the draws after the previous one;
    /// `None` when a value leaves `i128`.
    pub open spec fn roll_value(self, fs: Seq<u32>, at: int) -> Option<int>
        decreases self, 0nat,
    {
        sum_rolls(self.inner, fs, at, self.mods.repeat as nat)
    }

    /// Rolls with the draws from `at` on; gives the value and the position
    /// after the draws it took.
    pub fn roll_with(&self, faces: &[u32], at: usize) -> (r: Result<(i128, usize)>)
        requires
            at + self.draw_count() <= faces@.len(),
        ensures
            r is Ok <==> self.roll_value(faces@, at as int) is Some,
            r matches Ok((v, next)) ==> self.roll_value(faces@, at as int) == Some(v as int)
                && next == at + self.draw_count(),
            r matches Err(e) ==> e == Error::Overflow,
        decreases self,
    {
        let n = self.mods.repeat;
        let ghost c = self.inner.draw_count() as int;
        let ghost fs = faces@;
        let mut acc: i128 = 0;
        let mut pos = at;
        let mut k: u32 = 0;
        while k < n
            invariant
                k <= n,
                n == self.mods.repeat,
                c == self.inner.draw_count(),
                fs == faces@,
                at + c * n <= fs.len(),
                pos == at + c * k,
                sum_rolls(self.inner, fs, at as int, k as nat) == Some(acc as int),
            decreases n - k,
        {
            proof {
                assert(((k + 1) - 1) * c == c * k) by (nonlinear_arith);
                assert(c * k + c == c * (k + 1)) by (nonlinear_arith);
                assert(c * (k + 1) <= c * n) by (nonlinear_arith)
                    requires k + 1 <= n, c >= 0;
            }
            match self.inner.roll_with(faces, pos) {
                Ok((v, next)) => {
                    match acc.checked_add(v) {
                        Some(sum) => {
                            acc = sum;
                            pos = next;
                        },
                        None => {
                            proof {
                                lemma_sum_rolls_none(self.inner, fs, at as int, (k + 1) as nat, n as nat);
                            }
                            return Err(Error::Overflow);
                        },
                    }
                },
                Err(e) => {
                    proof {
                        lemma_sum_rolls_none(self.inner, fs, at as int, (k + 1) as nat, n as nat);
                    }
                    return Err(e);
                },
            }
            k = k + 1;
        }
        proof {
            assert(c * n == self.draw_count()) by (nonlinear_arith)
                requires c == self.inner.draw_count(), n == self.mods.repeat;
        }
        Ok((acc, pos))
    }

    /// `r` is what a roll gives with the draws `fs`: they are as many as the
    /// expression takes, faces of its dice, and `r` is their value, or
    /// `Overflow` where they have none.
    pub open spec fn rolled_by(self, r: Result<i128>, fs: Seq<u32>) -> bool {
        &&& fs.len() == self.draw_count()
        &&& self.draws_valid(fs, 0)
        &&& match r {
            Ok(v) => self.roll_value(fs, 0) == Some(v as int),
            Err(e) => e == Error::Overflow && self.roll_value(fs, 0) is None,
        }
    }

    /// The numbers of sides of the dice a roll draws for, in order: those of
    /// the term, once for each of the `repeat` rolls.
    pub open spec fn dice_sides(self) -> Seq<u32>
        decreases self,
    {
        repeated_sides(self.inner.dice_sides(), self.mods.repeat as nat)
    }

    /// Rolls the inner term `repeat` times with faces drawn from `src` and
    /// sums the results with checked arithmetic. Each roll draws afresh:
    /// once for each die of the term, in order, over all its faces; the
    /// result is the value of all those draws.
    pub fn roll_from(&self, src: &mut FaceDraws) -> (r: Result<i128>)
        ensures
            extends(old(src).drawn(), final(src).drawn()),
            sides_of(draws_after(old(src).drawn(), final(src).drawn())) == self.dice_sides(),
            fair(draws_after(old(src).drawn(), final(src).drawn())),
            self.rolled_by(r, faces_of(draws_after(old(src).drawn(), final(src).drawn()))),
        decreases self,
    {
        let n = self.mods.repeat;
        let ghost h0 = src.drawn();
        let ghost c = self.inner.draw_count() as int;
        let mut acc: i128 = 0;
        let mut failed = false;
        let mut k: u32 = 0;
        proof {
            assert(draws_after(h0, h0) =~= Seq::<(u32, u32)>::empty());
            assert(sides_of(draws_after(h0, h0)) =~= repeated_sides(self.inner.dice_sides(), 0));
            assert(faces_of(draws_after(h0, h0)) =~= Seq::<u32>::empty());
            assert(h0.subrange(0, h0.len() as int) =~= h0);
        }
        while k < n
            invariant
                k <= n,
                n == self.mods.repeat,
                c == self.inner.draw_count(),
                extends(h0, src.drawn()),
                fair(draws_after(h0, src.drawn())),
                sides_of(draws_after(h0, src.drawn())) == repeated_sides(self.inner.dice_sides(), k as nat),
                faces_of(draws_after(h0, src.drawn())).len() == c * k,
                rolls_valid(self.inner, faces_of(draws_after(h0, src.drawn())), 0, k as nat),
                !failed ==> sum_rolls(self.inner, faces_of(draws_after(h0, src.drawn())), 0, k as nat)
                    == Some(acc as int),
                failed ==> sum_rolls(self.inner, faces_of(draws_after(h0, src.drawn())), 0, k as nat) is None,
            decreases n - k,
        {
            let ghost h1 = src.drawn();
            let v = self.inner.roll_from(src);
            let ghost h2 = src.drawn();
            proof {
                let g = draws_after(h0, h1);
                let gv = draws_after(h1, h2);
                let g2 = draws_after(h0, h2);
                assert(g2 =~= g + gv);
                lemma_fair_concat(g, gv);
                assert(h2.subrange(0, h0.len() as int) =~= h0);
                assert(sides_of(g2) =~= sides_of(g) + sides_of(gv));
                let f = faces_of(g);
                let fv = faces_of(gv);
                let f2 = faces_of(g2);
                assert(f2 =~= f + fv);
                lemma_split_product(c, k + 1);
                assert(f2.subrange(0, c * k) =~= f.subrange(0, c * k));
                assert(f2.subrange(c * k, c * k + c) =~= fv.subrange(0, c));
                lemma_rolls_frame(self.inner, f2, 0, f, 0, k as nat);
                lemma_inner_frame(self.inner, f2, c * k, fv, 0);
            }
            if !failed {
                match v {
                    Ok(x) => match acc.checked_add(x) {
                        Some(sum) => {
                            acc = sum;
                        },
                        None => {
                            failed = true;
                        },
                    },
                    Err(_) => {
                        failed = true;
                    },
                }
            }
            k = k + 1;
        }
        proof {
            assert(c * n == self.draw_count()) by (nonlinear_arith)
                requires
                    c == self.inner.draw_count(),
                    n == self.mods.repeat,
            ;
        }
        if failed {
            Err(Error::Overflow)
        } else {
            Ok(acc)
        }
    }

    /// Rolls the inner term `repeat` times and sums the results with checked
    /// arithmetic.
    pub fn roll(&self) -> (r: Result<i128>)
        ensures
            exists|fs: Seq<u32>| #[trigger] self.rolled_by(r, fs),
            r matches Ok(v) ==> self.min_spec() <= v <= self.max_spec(),
            r matches Ok(v) ==> (self.outcomes() is Some ==> self.outcomes()->0.contains(v as int)),
            self.min_fits() && self.max_fits() ==> r is Ok,
    {
        let mut src = FaceDraws::new();
        let r = self.roll_from(&mut src);
        proof {
            let fs = faces_of(draws_after(Seq::empty(), src.drawn()));
            assert(self.rolled_by(r, fs));
            lemma_expr_roll_bounds(*self, fs, 0);
            if r is Ok && self.outcomes() is Some {
                lemma_roll_is_outcome(*self, fs, 0);
            }
        }
        r
    }

    pub fn min(&self) -> (r: Result<i128>)
        ensures
            r is Ok <==> self.min_fits(),
            r matches Ok(v) ==> v == self.min_spec(),
            r matches Err(e) ==> e == Error::Overflow,
        decreases self,
    {
        match self.inner.min()?.checked_mul(self.mods.repeat as i128) {
            Some(v) => Ok(v),
            None => Err(Error::Overflow),
        }
    }

    pub fn max(&self) -> (r: Result<i128>)
        ensures
            r is Ok <==> self.max_fits(),
            r matches Ok(v) ==> v == self.max_spec(),
            r matches Err(e) ==> e == Error::Overflow,
        decreases self,
    {
        match self.inner.max()?.checked_mul(self.mods.repeat as i128) {
            Some(v) => Ok(v),
            None => Err(Error::Overflow),
        }
    }
}

/// `s` once for each of `n` rolls in a row.
pub open spec fn repeated_sides(s: Seq<u32>, n: nat) -> Seq<u32>
    decreases n,
{
    if n == 0 {
        seq![]
    } else {
        repeated_sides(s, (n - 1) as nat) + s
    }
}

/// The draws from `at` on are valid for `k` rolls of `inner` in a row.
pub open spec fn rolls_valid(inner: Inner, fs: Seq<u32>, at: int, k: nat) -> bool
    decreases inner, k + 1,
{
    if k == 0 {
        true
    } else {
        rolls_valid(inner, fs, at, (k - 1) as nat) && inner.draws_valid(fs, at + (k - 1) * inner.draw_count())
    }
}

/// The sum of `k` rolls of `inner` in a row with the draws from `at` on,
/// summed with checked arithmetic; `None` when a value leaves `i128`.
pub open spec fn sum_rolls(inner: Inner, fs: Seq<u32>, at: int, k: nat) -> Option<int>
    decreases inner, k + 1,
{
    if k == 0 {
        Some(0)
    } else {
        match (sum_rolls(inner, fs, at, (k - 1) as nat), inner.roll_value(fs, at + (k - 1) * inner.draw_count())) {
            (Some(a), Some(v)) => if in_i128(a + v) {
                Some(a + v)
            } else {
                None
            },
            _ => None,
        }
    }
}

/// Once a sum of rolls has no value, sums of more rolls have none either.
pub proof fn lemma_sum_rolls_none(inner: Inner, fs: Seq<u32>, at: int, k: nat, n: nat)
    requires
        k <= n,
        sum_rolls(inner, fs, at, k) is None,
    ensures
        sum_rolls(inner, fs, at, n) is None,
    decreases n - k,
{
    if k < n {
        lemma_sum_rolls_none(inner, fs, at, k + 1, n);
    }
}

/// The smallest roll is at most the largest.
pub proof fn lemma_min_le_max(e: Expr)
    ensures
        e.min_spec() <= e.max_spec(),
    decreases e,
{
    if let Inner::BinOp(b) = e.inner {
        lemma_min_le_max(*b.lhs);
        lemma_min_le_max(*b.rhs);
    }
    let r = e.mods.repeat as int;
    assert(e.inner.min_spec() * r <= e.inner.max_spec() * r) by (nonlinear_arith)
        requires e.inner.min_spec() <= e.inner.max_spec(), r >= 0;
}

/// The expected value of a roll lies between the smallest and the largest
/// value the expression can roll.
pub proof fn lemma_mean_in_range(e: Expr)
    ensures
        2 * e.min_spec() <= e.mean_twice() <= 2 * e.max_spec(),
    decreases e,
{
    let r = e.mods.repeat as int;
    let lo = e.inner.min_spec();
    let hi = e.inner.max_spec();
    let me = e.inner.mean_twice();
    match e.inner {
        Inner::BinOp(b) => {
            lemma_mean_in_range(*b.lhs);
            lemma_mean_in_range(*b.rhs);
        },
        _ => {},
    }
    assert(2 * lo <= me <= 2 * hi);
    assert(2 * (lo * r) <= me * r <= 2 * (hi * r)) by (nonlinear_arith)
        requires 2 * lo <= me <= 2 * hi, r >= 0;
}

/// The outcomes of the distribution are the values between the smallest and
/// the largest roll, both of which occur.
pub proof fn lemma_outcomes_within_bounds(e: Expr)
    requires
        e.outcomes() is Some,
    ensures
        within(e.outcomes()->0, e.min_spec(), e.max_spec()),
        e.outcomes()->0.contains(e.min_spec()),
        e.outcomes()->0.contains(e.max_spec()),
    decreases e,
{
    let inner = e.inner;
    let d = inner.outcomes()->0;
    let lo = inner.min_spec();
    let hi = inner.max_spec();
    match inner {
        Inner::BinOp(b) => {
            let l = *b.lhs;
            let r = *b.rhs;
            lemma_outcomes_within_bounds(l);
            lemma_outcomes_within_bounds(r);
            let a = l.outcomes()->0;
            let c = r.outcomes()->0;
            lemma_combine_within(a, c, b.op, l.min_spec(), l.max_spec(), r.min_spec(), r.max_spec());
            if b.op == Op::Add {
                lemma_combine_contains(a, c, b.op, l.min_spec(), r.min_spec());
                lemma_combine_contains(a, c, b.op, l.max_spec(), r.max_spec());
            } else {
                lemma_combine_contains(a, c, b.op, l.min_spec(), r.max_spec());
                lemma_combine_contains(a, c, b.op, l.max_spec(), r.min_spec());
            }
        },
        Inner::Die(die) => {
            if die.sides > 0 {
                assert(d[0] == 1);
                assert(d[die.sides - 1] == die.sides);
            } else {
                assert(d[0] == 0);
            }
        },
        Inner::Scalar(v) => {
            assert(d[0] == v.0);
        },
    }
    assert(within(d, lo, hi) && d.contains(lo) && d.contains(hi));
    lemma_n_fold_within(d, lo, hi, e.mods.repeat as nat);
}

/// The distribution of an expression can be computed exactly when its
/// smallest and its largest roll can: `distribution()` is `Ok` if and only
/// if `min()` and `max()` both are, whatever the number of outcomes.
pub proof fn lemma_distribution_iff_bounds(e: Expr)
    ensures
        e.outcomes() is Some <==> (e.min_fits() && e.max_fits()),
    decreases e, 1nat,
{
    let inner = e.inner;
    let n = e.mods.repeat as nat;
    lemma_inner_distribution_iff_bounds(inner);
    if e.outcomes() is Some {
        lemma_outcomes_within_bounds(e);
        lemma_outcomes_all_fit(e);
        let o = e.outcomes()->0;
        let i = choose|i: int| 0 <= i < o.len() && o[i] == e.min_spec();
        let j = choose|j: int| 0 <= j < o.len() && o[j] == e.max_spec();
        assert(in_i128(o[i]) && in_i128(o[j]));
    }
    if e.min_fits() && e.max_fits() {
        lemma_inner_outcomes_within(inner);
        let d = inner.outcomes()->0;
        lemma_n_fold_fits(d, inner.min_spec(), inner.max_spec(), n, n);
    }
}

/// A term's outcomes can be computed exactly when its bounds can.
pub proof fn lemma_inner_distribution_iff_bounds(inner: Inner)
    ensures
        inner.outcomes() is Some <==> (inner.min_fits() && inner.max_fits()),
    decreases inner, 0nat,
{
    if let Inner::BinOp(b) = inner {
        let l = *b.lhs;
        let r = *b.rhs;
        lemma_distribution_iff_bounds(l);
        lemma_distribution_iff_bounds(r);
        if l.outcomes() is Some && r.outcomes() is Some {
            let a = l.outcomes()->0;
            let c = r.outcomes()->0;
            lemma_outcomes_within_bounds(l);
            lemma_outcomes_within_bounds(r);
            lemma_combine_within(a, c, b.op, l.min_spec(), l.max_spec(), r.min_spec(), r.max_spec());
            let k = combine(a, c, b.op);
            if b.op == Op::Add {
                lemma_combine_contains(a, c, b.op, l.min_spec(), r.min_spec());
                lemma_combine_contains(a, c, b.op, l.max_spec(), r.max_spec());
            } else {
                lemma_combine_contains(a, c, b.op, l.min_spec(), r.max_spec());
                lemma_combine_contains(a, c, b.op, l.max_spec(), r.min_spec());
            }
            let i = choose|i: int| 0 <= i < k.len() && k[i] == b.min_spec();
            let j = choose|j: int| 0 <= j < k.len() && k[j] == b.max_spec();
            if all_in_i128(k) {
                assert(in_i128(k[i]) && in_i128(k[j]));
            }
            if in_i128(b.min_spec()) && in_i128(b.max_spec()) {
                assert(all_in_i128(k));
            }
        }
    }
}

/// The outcomes of a term lie between its bounds, and both occur.
pub proof fn lemma_inner_outcomes_within(inner: Inner)
    requires
        inner.outcomes() is Some,
    ensures
        within(inner.outcomes()->0, inner.min_spec(), inner.max_spec()),
        inner.outcomes()->0.contains(inner.min_spec()),
        inner.outcomes()->0.contains(inner.max_spec()),
{
    let d = inner.outcomes()->0;
    match inner {
        Inner::BinOp(b) => {
            let l = *b.lhs;
            let r = *b.rhs;
            lemma_outcomes_within_bounds(l);
            lemma_outcomes_within_bounds(r);
            let a = l.outcomes()->0;
            let c = r.outcomes()->0;
            lemma_combine_within(a, c, b.op, l.min_spec(), l.max_spec(), r.min_spec(), r.max_spec());
            if b.op == Op::Add {
                lemma_combine_contains(a, c, b.op, l.min_spec(), r.min_spec());
                lemma_combine_contains(a, c, b.op, l.max_spec(), r.max_spec());
            } else {
                lemma_combine_contains(a, c, b.op, l.min_spec(), r.max_spec());
                lemma_combine_contains(a, c, b.op, l.max_spec(), r.min_spec());
            }
        },
        Inner::Die(die) => {
            if die.sides > 0 {
                assert(d[0] == 1);
                assert(d[die.sides - 1] == die.sides);
            } else {
                assert(d[0] == 0);
            }
        },
        Inner::Scalar(v) => {
            assert(d[0] == v.0);
        },
    }
}

/// Every outcome of a distribution that can be computed fits in `i128`.
pub proof fn lemma_outcomes_all_fit(e: Expr)
    requires
        e.outcomes() is Some,
    ensures
        all_in_i128(e.outcomes()->0),
{
    if e.mods.repeat == 0 {
        assert(e.outcomes()->0 == seq![0int]);
    }
}

/// Sums of `k` outcomes within `[lo, hi]` can all be formed in `i128` when
/// `n >= k` of them can be at the bounds: they lie within `[k lo, k hi]`.
pub proof fn lemma_n_fold_fits(d: Seq<int>, lo: int, hi: int, k: nat, n: nat)
    requires
        within(d, lo, hi),
        k <= n,
        in_i128(lo * n),
        in_i128(hi * n),
    ensures
        n_fold(d, k) is Some,
        within(n_fold(d, k)->0, lo * k, hi * k),
    decreases k,
{
    if k == 0 {
        assert(lo * 0 == 0 && hi * 0 == 0);
    } else {
        let j = (k - 1) as nat;
        lemma_n_fold_fits(d, lo, hi, j, n);
        let p = n_fold(d, j)->0;
        lemma_combine_within(p, d, Op::Add, lo * j, hi * j, lo, hi);
        assert(lo * j + lo == lo * k && hi * j + hi == hi * k) by (nonlinear_arith)
            requires
                k == j + 1,
        ;
        lemma_between_products(lo, k as int, n as int);
        lemma_between_products(hi, k as int, n as int);
        assert(all_in_i128(combine(p, d, Op::Add)));
    }
}

impl core::ops::Add for Expr {
    type Output = Expr;

    /// `self + rhs`, rolled once.
    fn add(self, rhs: Expr) -> (e: Expr) {
        Op::Add.apply(self, rhs)
    }
}

impl vstd::std_specs::ops::AddSpecImpl for Expr {
    open spec fn obeys_add_spec() -> bool {
        true
    }

    open spec fn add_req(self, rhs: Expr) -> bool {
        true
    }

    open spec fn add_spec(self, rhs: Expr) -> Expr {
        Expr::bin(Op::Add, self, rhs)
    }
}

impl core::ops::Sub for Expr {
    type Output = Expr;

    /// `self - rhs`, rolled once.
    fn sub(self, rhs: Expr) -> (e: Expr) {
        Op::Sub.apply(self, rhs)
    }
}

impl vstd::std_specs::ops::SubSpecImpl for Expr {
    open spec fn obeys_sub_spec() -> bool {
        true
    }

    open spec fn sub_req(self, rhs: Expr) -> bool {
        true
    }

    open spec fn sub_spec(self, rhs: Expr) -> Expr {
        Expr::bin(Op::Sub, self, rhs)
    }
}

impl From<Inner> for Expr {
    /// The term, rolled once.
    fn from(inner: Inner) -> (e: Expr) {
        Expr { inner, mods: Modifier::repeat(1) }
    }
}

impl vstd::std_specs::convert::FromSpecImpl<Inner> for Expr {
    open spec fn obeys_from_spec() -> bool {
        true
    }

    open spec fn from_spec(inner: Inner) -> Expr {
        Expr { inner, mods: Modifier { repeat: 1 } }
    }
}

impl From<BinOp> for Expr {
    fn from(b: BinOp) -> (e: Expr) {
        Expr { inner: Inner::BinOp(b), mods: Modifier::repeat(1) }
    }
}

impl vstd::std_specs::convert::FromSpecImpl<BinOp> for Expr {
    open spec fn obeys_from_spec() -> bool {
        true
    }

    open spec fn from_spec(b: BinOp) -> Expr {
        Expr { inner: Inner::BinOp(b), mods: Modifier { repeat: 1 } }
    }
}

impl From<Die> for Expr {
    fn from(d: Die) -> (e: Expr) {
        Expr { inner: Inner::Die(d), mods: Modifier::repeat(1) }
    }
}

impl vstd::std_specs::convert::FromSpecImpl<Die> for Expr {
    open spec fn obeys_from_spec() -> bool {
        true
    }

    open spec fn from_spec(d: Die) -> Expr {
        Expr { inner: Inner::Die(d), mods: Modifier { repeat: 1 } }
    }
}

impl From<Scalar> for Expr {
    fn from(v: Scalar) -> (e: Expr) {
        Expr { inner: Inner::Scalar(v), mods: Modifier::repeat(1) }
    }
}

impl vstd::std_specs::convert::FromSpecImpl<Scalar> for Expr {
    open spec fn obeys_from_spec() -> bool {
        true
    }

    open spec fn from_spec(v: Scalar) -> Expr {
        Expr { inner: Inner::Scalar(v), mods: Modifier { repeat: 1 } }
    }
}

impl From<i32> for Expr {
    /// The constant `v`.
    fn from(v: i32) -> (e: Expr) {
        Expr::scalar(v)
    }
}

impl vstd::std_specs::convert::FromSpecImpl<i32> for Expr {
    open spec fn obeys_from_spec() -> bool {
        true
    }

    open spec fn from_spec(v: i32) -> Expr {
        Expr::scalar_spec(v)
    }
}

impl core::str::FromStr for Expr {
    type Err = ParseError;

    /// Reads a whole text as an expression; see `parse`.
    fn from_str(s: &str) -> (r: core::result::Result<Expr, ParseError>)
        ensures
            match parse_text(s@) {
                Some(e) => r == Ok::<Expr, ParseError>(e),
                None => r == Err::<Expr, ParseError>(text_error(s@)),
            },
    {
        parse(s)
    }
}

impl Clone for Expr {
    fn clone(&self) -> (e: Self)
        ensures
            e == *self,
    {
        self.copy()
    }
}

} // verus!
